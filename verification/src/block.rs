//! Block devices with NOR-flash semantics, and a RAM-backed one.
//!
//! A device is a run of bytes split into erase sectors. Erasing sets a whole
//! sector to `0xFF`; programming can only clear bits (the new byte is the
//! old one AND the data), so a programmed area reads back what was written
//! only if it was erased before.
use vstd::prelude::*;

verus! {

/// Bytes after programming `data` at `addr` over `mem` (bitwise AND).
pub open spec fn nor_program(mem: Seq<u8>, addr: int, data: Seq<u8>) -> Seq<u8> {
    Seq::new(mem.len(), |i: int| if addr <= i < addr + data.len() { mem[i] & data[i - addr] } else { mem[i] })
}

/// Bytes after erasing `[base, base + len)` of `mem`.
pub open spec fn erased_range(mem: Seq<u8>, base: int, len: int) -> Seq<u8> {
    Seq::new(mem.len(), |i: int| if base <= i < base + len { 0xFFu8 } else { mem[i] })
}

/// `mem` holds `0xFF` over `[base, base + len)`.
pub open spec fn all_erased(mem: Seq<u8>, base: int, len: int) -> bool {
    forall|i: int| base <= i < base + len ==> #[trigger] mem[i] == 0xFFu8
}

/// Storage with the erase/program discipline of NOR flash.
pub trait BlockDevice: Sized {
    /// Error of the backend.
    type Error;

    /// The bytes of the medium.
    spec fn contents(&self) -> Seq<u8>;

    /// `(program unit, erase sector)` sizes in bytes.
    spec fn geometry(&self) -> (nat, nat);

    /// The backend is in working order: each call that stays inside the
    /// medium succeeds, and the device stays so.
    spec fn healthy(&self) -> bool;

    /// Size of the medium in bytes.
    fn capacity(&self) -> (r: u64)
        ensures
            r == self.contents().len(),
    ;

    /// Program unit in bytes.
    fn prog_size(&self) -> (r: usize)
        ensures
            r == self.geometry().0,
    ;

    /// Erase sector size in bytes.
    fn erase_size(&self) -> (r: usize)
        ensures
            r == self.geometry().1,
    ;

    /// Reads `buf.len()` bytes at `addr`.
    fn read(&mut self, addr: u32, buf: &mut [u8]) -> (r: Result<(), Self::Error>)
        ensures
            final(self).contents() == old(self).contents(),
            final(self).geometry() == old(self).geometry(),
            final(buf)@.len() == old(buf)@.len(),
            r is Ok ==> addr + old(buf)@.len() <= old(self).contents().len()
                && final(buf)@ == old(self).contents().subrange(addr as int, addr + old(buf)@.len()),
            old(self).healthy() ==> final(self).healthy(),
            old(self).healthy() && addr + old(buf)@.len() <= old(self).contents().len() ==> r is Ok,
    ;

    /// Programs `data` at `addr` (bits can only go from 1 to 0). On failure
    /// only the target range may have changed.
    fn program(&mut self, addr: u32, data: &[u8]) -> (r: Result<(), Self::Error>)
        ensures
            final(self).geometry() == old(self).geometry(),
            final(self).contents().len() == old(self).contents().len(),
            r is Ok ==> addr + data@.len() <= old(self).contents().len()
                && final(self).contents() == nor_program(old(self).contents(), addr as int, data@),
            r is Err ==> forall|i: int| 0 <= i < old(self).contents().len() && !(addr <= i < addr + data@.len())
                ==> #[trigger] final(self).contents()[i] == old(self).contents()[i],
            old(self).healthy() ==> final(self).healthy(),
            old(self).healthy() && addr + data@.len() <= old(self).contents().len() ==> r is Ok,
    ;

    /// Erases the sector that holds `addr`.
    fn erase_sector(&mut self, addr: u32) -> (r: Result<(), Self::Error>)
        ensures
            final(self).geometry() == old(self).geometry(),
            r is Ok ==> old(self).geometry().1 > 0 && final(self).contents() == erased_range(
                old(self).contents(),
                (addr as int / old(self).geometry().1 as int) * old(self).geometry().1 as int,
                old(self).geometry().1 as int,
            ) && (addr as int / old(self).geometry().1 as int + 1) * old(self).geometry().1 as int <= old(self).contents().len(),
            r is Err ==> final(self).contents() == old(self).contents(),
            old(self).healthy() ==> final(self).healthy(),
            old(self).healthy() && old(self).geometry().1 > 0 && addr as int / (old(self).geometry().1 as int) < old(
                self,
            ).contents().len() / old(self).geometry().1 ==> r is Ok,
    ;
}

/// Error of [`RamFlash`].
#[derive(Clone, Copy, Debug, PartialEq, Eq, Structural)]
pub enum MockError {
    /// Address or length outside the medium.
    OutOfRange,
    /// Simulated power loss during a program.
    PowerFail,
}

/// NOR flash simulated in RAM, able to cut a program short to simulate a
/// power loss.
pub struct RamFlash {
    data: Vec<u8>,
    erase_size: usize,
    prog_size: usize,
    power_fail_after: Option<usize>,
}

impl RamFlash {
    /// A blank (all `0xFF`) flash of `sectors` sectors of `erase_size`
    /// bytes, programmed in units of `prog_size`.
    pub fn new(sectors: usize, erase_size: usize, prog_size: usize) -> (r: Self)
        requires
            sectors * erase_size <= usize::MAX,
        ensures
            r.contents() == Seq::new((sectors * erase_size) as nat, |i: int| 0xFFu8),
            r.geometry() == (prog_size as nat, erase_size as nat),
            r.pending_fail() is None,
            r.healthy(),
    {
        proof {
            assert(sectors * erase_size <= usize::MAX);
        }
        let total = sectors * erase_size;
        let mut data: Vec<u8> = Vec::new();
        let mut i: usize = 0;
        while i < total
            invariant
                i <= total,
                data@.len() == i,
                forall|j: int| 0 <= j < i ==> #[trigger] data@[j] == 0xFFu8,
            decreases total - i,
        {
            data.push(0xFF);
            i = i + 1;
        }
        let r = RamFlash { data, erase_size, prog_size, power_fail_after: None };
        assert(r.contents() =~= Seq::new((sectors * erase_size) as nat, |i: int| 0xFFu8));
        r
    }

    /// Pending simulated power loss: the next program writes this many
    /// bytes, then fails.
    pub closed spec fn pending_fail(&self) -> Option<usize> {
        self.power_fail_after
    }

    /// Makes the next program write at most `bytes` bytes and then fail.
    pub fn set_power_fail_after(&mut self, bytes: usize)
        ensures
            final(self).contents() == old(self).contents(),
            final(self).geometry() == old(self).geometry(),
            final(self).pending_fail() == Some(bytes),
    {
        self.power_fail_after = Some(bytes);
    }

    /// The whole medium.
    pub fn raw(&self) -> (r: &[u8])
        ensures
            r@ == self.contents(),
    {
        self.data.as_slice()
    }
}

impl BlockDevice for RamFlash {
    type Error = MockError;

    closed spec fn contents(&self) -> Seq<u8> {
        self.data@
    }

    closed spec fn geometry(&self) -> (nat, nat) {
        (self.prog_size as nat, self.erase_size as nat)
    }

    /// No simulated power loss is pending.
    closed spec fn healthy(&self) -> bool {
        self.power_fail_after is None
    }

    fn capacity(&self) -> (r: u64) {
        self.data.len() as u64
    }

    fn prog_size(&self) -> (r: usize) {
        self.prog_size
    }

    fn erase_size(&self) -> (r: usize) {
        self.erase_size
    }

    fn read(&mut self, addr: u32, buf: &mut [u8]) -> (r: Result<(), MockError>)
        ensures
            r is Ok <==> addr + old(buf)@.len() <= old(self).contents().len(),
            r is Err ==> r == Err::<(), MockError>(MockError::OutOfRange) && final(buf)@ == old(buf)@,
            final(self).pending_fail() == old(self).pending_fail(),
    {
        let start = addr as usize;
        let n = buf.len();
        let dl = self.data.len();
        if n > dl || start > dl - n {
            return Err(MockError::OutOfRange);
        }
        let mut i: usize = 0;
        while i < n
            invariant
                dl == self.data@.len(),
                n == buf@.len(),
                n == old(buf)@.len(),
                start + n <= self.data@.len(),
                start == addr,
                i <= n,
                forall|j: int| 0 <= j < i ==> #[trigger] buf@[j] == self.data@[start + j],
            decreases n - i,
        {
            buf[i] = self.data[start + i];
            i = i + 1;
        }
        assert(buf@ =~= self.data@.subrange(addr as int, addr + n));
        Ok(())
    }

    fn program(&mut self, addr: u32, data: &[u8]) -> (r: Result<(), MockError>)
        ensures
            addr + data@.len() > old(self).contents().len() ==> r == Err::<(), MockError>(MockError::OutOfRange)
                && *final(self) == *old(self),
            addr + data@.len() <= old(self).contents().len() ==> {
                &&& final(self).pending_fail() is None
                &&& match old(self).pending_fail() {
                    Some(b) => if b < data@.len() {
                        r == Err::<(), MockError>(MockError::PowerFail) && final(self).contents() == nor_program(
                            old(self).contents(),
                            addr as int,
                            data@.take(b as int),
                        )
                    } else {
                        r is Ok
                    },
                    None => r is Ok,
                }
            },
    {
        let start = addr as usize;
        let n = data.len();
        let dl = self.data.len();
        if n > dl || start > dl - n {
            return Err(MockError::OutOfRange);
        }
        let limit = match self.power_fail_after {
            Some(b) => b,
            None => n,
        };
        self.power_fail_after = None;
        let written = if limit < n { limit } else { n };
        let ghost before = self.data@;
        let mut i: usize = 0;
        while i < written
            invariant
                dl == self.data@.len(),
                self.erase_size == old(self).erase_size,
                self.prog_size == old(self).prog_size,
                written <= n,
                self.power_fail_after is None,
                n == data@.len(),
                start + n <= self.data@.len(),
                start == addr,
                self.data@.len() == before.len(),
                i <= written,
                forall|j: int| 0 <= j < before.len() ==> #[trigger] self.data@[j] == (if start <= j < start + i {
                    before[j] & data@[j - start]
                } else {
                    before[j]
                }),
            decreases written - i,
        {
            let b = self.data[start + i] & data[i];
            self.data.set(start + i, b);
            i = i + 1;
        }
        if written < n {
            proof {
                assert(self.data@ =~= nor_program(before, addr as int, data@.take(written as int)));
            }
            return Err(MockError::PowerFail);
        }
        assert(self.data@ =~= nor_program(before, addr as int, data@));
        Ok(())
    }

    fn erase_sector(&mut self, addr: u32) -> (r: Result<(), MockError>)
        ensures
            r is Ok <==> old(self).geometry().1 > 0 && (addr as int / (old(self).geometry().1 as int)) < (old(self).contents().len()
                / old(self).geometry().1),
            r is Err ==> r == Err::<(), MockError>(MockError::OutOfRange) && *final(self) == *old(self),
            final(self).pending_fail() == old(self).pending_fail(),
    {
        if self.erase_size == 0 {
            return Err(MockError::OutOfRange);
        }
        let esz = self.erase_size;
        let sector = (addr as usize) / esz;
        let dl = self.data.len();
        if sector >= dl / esz {
            return Err(MockError::OutOfRange);
        }
        proof {
            assert((sector + 1) * esz <= dl && sector * esz + esz <= dl) by (nonlinear_arith)
                requires
                    sector < dl / esz,
                    esz > 0,
            ;
        }
        let base = sector * esz;
        let end = base + esz;
        let ghost before = self.data@;
        let mut i = base;
        while i < end
            invariant
                self.erase_size == old(self).erase_size,
                self.prog_size == old(self).prog_size,
                base <= i <= end,
                self.power_fail_after == old(self).power_fail_after,
                end <= self.data@.len(),
                self.data@.len() == before.len(),
                forall|j: int| 0 <= j < before.len() ==> #[trigger] self.data@[j] == (if base <= j < i { 0xFFu8 } else { before[j] }),
            decreases end - i,
        {
            self.data.set(i, 0xFF);
            i = i + 1;
        }
        assert(self.data@ =~= erased_range(before, base as int, self.erase_size as int));
        Ok(())
    }
}

} // verus!
