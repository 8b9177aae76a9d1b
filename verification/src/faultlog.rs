//! Persistent ring of fault events over a [`Rufs`] store.
//!
//! The last `CAP` events are kept as keys `flt_00` … `flt_NN` (one per slot
//! of the ring) plus a head key `flt_head` holding the sequence counter.
//! Event number `seq` goes to slot `seq % CAP`, so the oldest entries are
//! overwritten first. It inherits the power-loss safety of the store.
use vstd::prelude::*;
use crate::block::BlockDevice;
use crate::rufs::{Error, Rufs, EntryView, le32, u32_le, rec_len, lemma_round_up, lemma_within_sector, HEADER_SIZE};

verus! {

/// Serialised size of a [`FaultRecord`] (`seq`, `kind`, `arg`, LE).
pub const RECORD_LEN: usize = 12;

/// A persisted fault event.
#[derive(Clone, Copy, Debug, PartialEq, Eq, Structural)]
pub struct FaultRecord {
    /// Global sequence number (order of occurrence; never restarts).
    pub seq: u32,
    /// Cause code (chosen by the caller).
    pub kind: u32,
    /// Context (PC, faulting address, task id, …).
    pub arg: u32,
}

impl Default for FaultRecord {
    fn default() -> (r: Self)
        ensures
            r == (FaultRecord { seq: 0, kind: 0, arg: 0 }),
    {
        FaultRecord { seq: 0, kind: 0, arg: 0 }
    }
}

/// The 12 bytes of a record.
pub open spec fn record_bytes(r: FaultRecord) -> Seq<u8> {
    le32(r.seq) + le32(r.kind) + le32(r.arg)
}

/// The record in the first 12 bytes of `b`.
pub open spec fn record_from(b: Seq<u8>) -> FaultRecord {
    FaultRecord { seq: u32_le(b, 0), kind: u32_le(b, 4), arg: u32_le(b, 8) }
}

fn push_u32(v: &mut Vec<u8>, x: u32)
    ensures
        final(v)@ == old(v)@ + le32(x),
{
    v.push((x & 0xFF) as u8);
    v.push(((x >> 8u32) & 0xFF) as u8);
    v.push(((x >> 16u32) & 0xFF) as u8);
    v.push((x >> 24u32) as u8);
    assert(v@ =~= old(v)@ + le32(x));
}

fn get_u32(b: &[u8], i: usize) -> (r: u32)
    requires
        i + 4 <= b@.len(),
    ensures
        r == u32_le(b@, i as int),
{
    let _l = b.len();
    (b[i] as u32) | ((b[i + 1] as u32) << 8u32) | ((b[i + 2] as u32) << 16u32) | ((b[i + 3] as u32) << 24u32)
}

impl FaultRecord {
    /// Little-endian serialisation.
    pub fn to_bytes(self) -> (r: Vec<u8>)
        ensures
            r@ == record_bytes(self),
    {
        let mut b: Vec<u8> = Vec::new();
        push_u32(&mut b, self.seq);
        push_u32(&mut b, self.kind);
        push_u32(&mut b, self.arg);
        assert(b@ =~= record_bytes(self));
        b
    }

    /// Decodes a record; `None` when `b` is shorter than [`RECORD_LEN`].
    pub fn from_bytes(b: &[u8]) -> (r: Option<Self>)
        ensures
            b@.len() < RECORD_LEN ==> r is None,
            b@.len() >= RECORD_LEN ==> r == Some(record_from(b@)),
    {
        if b.len() < RECORD_LEN {
            return None;
        }
        Some(FaultRecord { seq: get_u32(b, 0), kind: get_u32(b, 4), arg: get_u32(b, 8) })
    }
}

proof fn lemma_le32_roundtrip(x: u32)
    ensures
        u32_le(le32(x), 0) == x,
{
    let b = le32(x);
    let b0 = (x & 0xFF) as u8;
    let b1 = ((x >> 8u32) & 0xFF) as u8;
    let b2 = ((x >> 16u32) & 0xFF) as u8;
    let b3 = (x >> 24u32) as u8;
    assert(b[0] == b0 && b[1] == b1 && b[2] == b2 && b[3] == b3);
    assert((b0 as u32) | ((b1 as u32) << 8u32) | ((b2 as u32) << 16u32) | ((b3 as u32) << 24u32) == x) by (bit_vector)
        requires
            b0 == (x & 0xFF) as u8,
            b1 == ((x >> 8u32) & 0xFF) as u8,
            b2 == ((x >> 16u32) & 0xFF) as u8,
            b3 == (x >> 24u32) as u8,
    ;
}

/// Law: decoding the bytes of a record gives the record back.
pub proof fn lemma_record_roundtrip(r: FaultRecord)
    ensures
        record_from(record_bytes(r)) == r,
{
    let b = record_bytes(r);
    lemma_le32_roundtrip(r.seq);
    lemma_le32_roundtrip(r.kind);
    lemma_le32_roundtrip(r.arg);
    assert(b.subrange(0, 4) =~= le32(r.seq));
    assert(b.subrange(4, 8) =~= le32(r.kind));
    assert(b.subrange(8, 12) =~= le32(r.arg));
    assert(u32_le(b, 0) == u32_le(le32(r.seq), 0));
    assert(u32_le(b, 4) == u32_le(le32(r.kind), 0));
    assert(u32_le(b, 8) == u32_le(le32(r.arg), 0));
}

/// The key of ring slot `slot`: `flt_` and two decimal digits.
pub open spec fn slot_key(slot: int) -> Seq<u8> {
    seq![102u8, 108u8, 116u8, 95u8, (48 + slot / 10) as u8, (48 + slot % 10) as u8]
}

/// The head key `flt_head`.
pub open spec fn head_key() -> Seq<u8> {
    seq![102u8, 108u8, 116u8, 95u8, 104u8, 101u8, 97u8, 100u8]
}

/// Law (slot keys name their slot): the key of slot `0..=99` is `flt_`
/// followed by two decimal digits whose value is the slot, so the keys of
/// different slots differ, and none is the head key.
pub proof fn lemma_slot_key_names_slot(slot: int, other: int)
    requires
        0 <= slot < 100,
        0 <= other < 100,
    ensures
        slot_key(slot).len() == 6,
        slot_key(slot).subrange(0, 4) == seq![102u8, 108u8, 116u8, 95u8],
        48 <= slot_key(slot)[4] <= 57 && 48 <= slot_key(slot)[5] <= 57,
        (slot_key(slot)[4] - 48) * 10 + (slot_key(slot)[5] - 48) == slot,
        slot != other ==> slot_key(slot) != slot_key(other),
        slot_key(slot) != head_key(),
{
    assert(slot_key(slot).subrange(0, 4) =~= seq![102u8, 108u8, 116u8, 95u8]);
    assert(slot / 10 * 10 + slot % 10 == slot);
    assert(other / 10 * 10 + other % 10 == other);
    if slot_key(slot) == slot_key(other) {
        assert(slot_key(slot)[4] == slot_key(other)[4] && slot_key(slot)[5] == slot_key(other)[5]);
    }
    assert(slot_key(slot).len() != head_key().len());
}

/// Builds the key of slot `slot` (`0..=99`).
fn make_slot_key(slot: usize) -> (r: Vec<u8>)
    requires
        slot < 100,
    ensures
        r@ == slot_key(slot as int),
{
    let mut k: Vec<u8> = Vec::new();
    k.push(102u8);
    k.push(108u8);
    k.push(116u8);
    k.push(95u8);
    k.push(48u8 + (slot / 10) as u8);
    k.push(48u8 + (slot % 10) as u8);
    assert(k@ =~= slot_key(slot as int));
    k
}

fn make_head_key() -> (r: Vec<u8>)
    ensures
        r@ == head_key(),
{
    let k: Vec<u8> = vec![102u8, 108u8, 116u8, 95u8, 104u8, 101u8, 97u8, 100u8];
    assert(k@ =~= head_key());
    k
}

/// The record a store holds in ring slot `slot`, when its value has the
/// size of a record.
pub open spec fn slot_record<D: BlockDevice, const N: usize>(fs: Rufs<D, N>, slot: int) -> Option<FaultRecord> {
    match fs.live_entry(slot_key(slot)) {
        Some(e) => if e.val_len == RECORD_LEN { Some(record_from(fs.value_of(e))) } else { None },
        None => None,
    }
}

/// Slot `slot` of the store holds a live value longer than a record.
pub open spec fn slot_oversized<D: BlockDevice, const N: usize>(fs: Rufs<D, N>, slot: int) -> bool {
    fs.live_entry(slot_key(slot)) matches Some(e) && e.val_len > RECORD_LEN
}

/// The `i`-th slot, oldest first, of a ring of `cap` slots that has seen
/// `count` events holds a live value longer than a record.
pub open spec fn ring_slot_oversized<D: BlockDevice, const N: usize>(fs: Rufs<D, N>, count: u32, cap: usize, i: int) -> bool {
    let start = if (count as int) < cap { 0 } else { count as int - cap };
    slot_oversized(fs, (start + i) % (cap as int))
}

/// The records of slots `(start + i) % cap` for `i` in `0..k`, oldest
/// first, skipping empty slots.
pub open spec fn ring_records<D: BlockDevice, const N: usize>(fs: Rufs<D, N>, start: int, cap: int, k: int) -> Seq<FaultRecord>
    decreases k,
{
    if k <= 0 {
        Seq::empty()
    } else {
        ring_records(fs, start, cap, k - 1) + match slot_record(fs, (start + k - 1) % cap) {
            Some(r) => seq![r],
            None => Seq::empty(),
        }
    }
}

/// Ring of the last `CAP` (`1..=99`) fault events over a store.
pub struct FaultLog<const CAP: usize> {
    seq: u32,
}

impl<const CAP: usize> FaultLog<CAP> {
    /// Faults recorded since the first boot (the sequence counter).
    pub closed spec fn count(&self) -> u32 {
        self.seq
    }

    /// Opens the log over `fs`, reading back the persisted counter (0 the
    /// first time). Writes nothing.
    pub fn open<D: BlockDevice, const N: usize>(fs: &mut Rufs<D, N>) -> (r: Result<Self, Error<D::Error>>)
        requires
            1 <= CAP <= 99,
            old(fs).wf(),
        ensures
            final(fs).wf(),
            final(fs).entries() == old(fs).entries(),
            final(fs).device().contents() == old(fs).device().contents(),
            final(fs).next_seq() == old(fs).next_seq(),
            old(fs).live_entry(head_key()) is None ==> (r matches Ok(l) && l.count() == 0),
            old(fs).live_entry(head_key()) matches Some(e) ==> {
                if e.val_len < 4 {
                    (r matches Ok(l) && l.count() == 0) || (r matches Err(Error::Device(_)))
                } else if e.val_len == 4 {
                    r is Err || (r matches Ok(l) && l.count() == u32_le(old(fs).value_of(e), 0))
                } else {
                    r matches Err(Error::BufferTooSmall)
                }
            },
            old(fs).device().healthy() ==> final(fs).device().healthy(),
            old(fs).device().healthy() ==> (r is Err <==> (old(fs).live_entry(head_key()) matches Some(e) && e.val_len > 4)),
    {
        let key = make_head_key();
        let mut buf: Vec<u8> = vec![0u8; 4];
        let seq = match fs.get(key.as_slice(), buf.as_mut_slice()) {
            Ok(n) => {
                if n == 4 {
                    proof {
                        assert(buf@.subrange(0, 4) =~= buf@);
                    }
                    get_u32(buf.as_slice(), 0)
                } else {
                    0
                }
            },
            Err(Error::NotFound) => 0,
            Err(e) => return Err(e),
        };
        Ok(FaultLog { seq })
    }

    /// Records a fault (`kind`, `arg`) in the next slot of the ring and
    /// persists the counter. Returns the sequence number given to it.
    pub fn record<D: BlockDevice, const N: usize>(&mut self, fs: &mut Rufs<D, N>, kind: u32, arg: u32) -> (r: Result<u32, Error<D::Error>>)
        requires
            1 <= CAP <= 99,
            old(fs).wf(),
            old(fs).next_seq() < u32::MAX - 1,
        ensures
            final(fs).wf(),
            r matches Ok(s) ==> (s == old(self).count() && final(self).count() == s.wrapping_add(1))
                && (crate::rufs::record_of(final(fs).entries(), slot_key(s as int % CAP as int)) matches Some((_, l, d)) && l == RECORD_LEN && !d)
                && (crate::rufs::record_of(final(fs).entries(), head_key()) matches Some((_, l, d)) && l == 4 && !d),
            r is Err ==> final(self).count() == old(self).count() || final(self).count() == old(self).count().wrapping_add(1),
            r matches Err(e) ==> e is Device || e is IndexFull || e is NoSpace || e is TooLarge,
            ({
                let ps = old(fs).geom().2 as int;
                let slot = slot_key(old(self).count() as int % CAP as int);
                let ix = old(fs).entries();
                old(fs).fits_in_place(rec_len(6, RECORD_LEN as int, ps) + rec_len(8, 4, ps)) && ix.len() + (if crate::rufs::record_of(
                    ix,
                    slot,
                ) is None {
                    1int
                } else {
                    0int
                }) + (if crate::rufs::record_of(ix, head_key()) is None {
                    1int
                } else {
                    0int
                }) <= N ==> (r matches Err(e) ==> e is Device)
            }),
            ({
                let ps = old(fs).geom().2 as int;
                let slot = slot_key(old(self).count() as int % CAP as int);
                let ix = old(fs).entries();
                old(fs).device().healthy() && old(fs).fits_in_place(rec_len(6, RECORD_LEN as int, ps) + rec_len(8, 4, ps)) && ix.len() + (
                if crate::rufs::record_of(ix, slot) is None {
                    1int
                } else {
                    0int
                }) + (if crate::rufs::record_of(ix, head_key()) is None {
                    1int
                } else {
                    0int
                }) <= N ==> r is Ok
            }),
            old(fs).device().healthy() ==> final(fs).device().healthy(),
            ({
                let ps = old(fs).geom().2 as int;
                let slot = slot_key(old(self).count() as int % CAP as int);
                old(fs).clean() && old(fs).fits_in_place(rec_len(6, RECORD_LEN as int, ps) + rec_len(8, 4, ps)) && r is Ok ==> {
                    &&& final(fs).clean()
                    &&& final(fs).reads(slot) == Some(record_bytes(FaultRecord { seq: old(self).count(), kind, arg }))
                    &&& final(fs).reads(head_key()) == Some(le32(old(self).count().wrapping_add(1)))
                    &&& forall|k: Seq<u8>| k != slot && k != head_key() ==> #[trigger] final(fs).reads(k) == old(fs).reads(k)
                }
            }),
    {
        let seq = self.seq;
        let rec = FaultRecord { seq, kind, arg };
        let slot = (seq as usize) % CAP;
        let key = make_slot_key(slot);
        let bytes = rec.to_bytes();
        let ghost ps = fs.geom().2 as int;
        proof {
            Rufs::<D, N>::lemma_wf_geometry(*fs);
            assert(slot_key(slot as int) != head_key()) by {
                assert(slot_key(slot as int).len() != head_key().len());
            }
            lemma_round_up(HEADER_SIZE + 6 + RECORD_LEN, ps);
            lemma_round_up(HEADER_SIZE + 8 + 4, ps);
            assert(slot as int == seq as int % CAP as int);
            assert(bytes@.len() == RECORD_LEN);
        }
        let ghost f0 = *fs;
        match fs.set(key.as_slice(), bytes.as_slice()) {
            Ok(()) => {},
            Err(e) => {
                proof {
                    let rec1 = rec_len(6, RECORD_LEN as int, ps);
                    let rec2 = rec_len(8, 4, ps);
                    assert(key@.len() == 6);
                    assert(rec_len(key@.len() as int, bytes@.len() as int, f0.geom().2 as int) == rec1);
                    if f0.fits_in_place(rec1 + rec2) {
                        assert(f0.fits_in_place(rec1));
                        assert(e is Device || e is IndexFull);
                        if f0.device().healthy() {
                            assert(e is IndexFull);
                        }
                    }
                    assert(key@ == slot_key(old(self).count() as int % CAP as int));
                    if e is IndexFull {
                        assert(crate::rufs::record_of(f0.entries(), key@) is None && f0.entries().len() == N);
                    }
                }
                return Err(e);
            },
        }
        let ghost mid = *fs;
        proof {
            let rec1 = rec_len(6, RECORD_LEN as int, ps);
            let rec2 = rec_len(8, 4, ps);
            if old(fs).fits_in_place(rec1 + rec2) {
                let es = fs.geom().1 as int;
                let h = old(fs).head_pos() as int;
                let a = old(fs).active_sector() as int;
                vstd::arithmetic::div_mod::lemma_fundamental_div_mod(h, es);
                assert(a * es == es * a) by (nonlinear_arith);
                assert(mid.head_pos() as int / es == a && mid.head_pos() as int % es == h % es + rec1) by {
                    lemma_within_sector(mid.head_pos() as int, a, es);
                }
                assert(mid.fits_in_place(rec2));
            }
        }
        self.seq = seq.wrapping_add(1);
        let hk = make_head_key();
        let mut hv: Vec<u8> = Vec::new();
        push_u32(&mut hv, self.seq);
        match fs.set(hk.as_slice(), hv.as_slice()) {
            Ok(()) => {},
            Err(e) => return Err(e),
        }
        proof {
            assert(slot_key(slot as int) != head_key()) by {
                assert(slot_key(slot as int)[4] != head_key()[4] || slot_key(slot as int).len() != head_key().len());
            }
            assert(slot as int == seq as int % CAP as int);
        }
        Ok(seq)
    }

    /// Faults recorded since the first boot.
    pub fn total(&self) -> (r: u32)
        ensures
            r == self.count(),
    {
        self.seq
    }

    /// Records held in the ring: `min(total, CAP)`.
    pub fn stored(&self) -> (r: usize)
        ensures
            r == if (self.count() as int) < CAP { self.count() as int } else { CAP as int },
    {
        let t = self.seq as usize;
        if t < CAP { t } else { CAP }
    }

    /// The records present in the ring, oldest first.
    pub fn records<D: BlockDevice, const N: usize>(&self, fs: &mut Rufs<D, N>) -> (r: Result<Vec<FaultRecord>, Error<D::Error>>)
        requires
            1 <= CAP <= 99,
            old(fs).wf(),
        ensures
            final(fs).wf(),
            final(fs).entries() == old(fs).entries(),
            final(fs).device().contents() == old(fs).device().contents(),
            final(fs).next_seq() == old(fs).next_seq(),
            r matches Ok(v) ==> v@ == ring_records(
                *old(fs),
                if (self.count() as int) < CAP { 0 } else { self.count() as int - CAP },
                CAP as int,
                if (self.count() as int) < CAP { self.count() as int } else { CAP as int },
            ),
            old(fs).device().healthy() ==> final(fs).device().healthy(),
            old(fs).device().healthy() ==> (r matches Err(e) ==> !(e is Device)),
            r matches Err(e) ==> e is Device || (e is BufferTooSmall && exists|i: int|
                0 <= i < (if (self.count() as int) < CAP { self.count() as int } else { CAP as int }) && #[trigger] ring_slot_oversized(
                *old(fs),
                self.count(),
                CAP,
                i,
            )),
    {
        let stored = self.stored();
        let t = self.seq as usize;
        let start = if t > CAP { t - CAP } else { 0 };
        let ghost f0 = *fs;
        let mut out: Vec<FaultRecord> = Vec::new();
        let mut i: usize = 0;
        while i < stored
            invariant
                1 <= CAP <= 99,
                fs.wf(),
                fs.entries() == f0.entries(),
                fs.device().contents() == f0.device().contents(),
                fs.next_seq() == f0.next_seq(),
                f0 == *old(fs),
                f0.device().healthy() ==> fs.device().healthy(),
                stored <= CAP,
                i <= stored,
                start as int == (if (self.count() as int) < CAP { 0 } else { self.count() as int - CAP }),
                stored as int == (if (self.count() as int) < CAP { self.count() as int } else { CAP as int }),
                out@ == ring_records(f0, start as int, CAP as int, i as int),
            decreases stored - i,
        {
            let slot = (start + i) % CAP;
            let key = make_slot_key(slot);
            let mut buf: Vec<u8> = vec![0u8; RECORD_LEN];
            let ghost expected = match slot_record(f0, slot as int) {
                Some(r) => seq![r],
                None => Seq::<FaultRecord>::empty(),
            };
            proof {
                assert(fs.live_entry(key@) == f0.live_entry(key@));
                assert(slot as int == (start as int + (i + 1) - 1) % CAP as int);
                assert(ring_records(f0, start as int, CAP as int, i + 1) == ring_records(f0, start as int, CAP as int, i as int) + expected);
            }
            match fs.get(key.as_slice(), buf.as_mut_slice()) {
                Ok(n) => {
                    if n == RECORD_LEN {
                        proof {
                            assert(buf@.subrange(0, 12) =~= buf@);
                        }
                        match FaultRecord::from_bytes(buf.as_slice()) {
                            Some(rec) => {
                                out.push(rec);
                            },
                            None => {},
                        }
                        proof {
                            assert(out@ =~= ring_records(f0, start as int, CAP as int, i as int) + expected);
                        }
                    } else {
                        proof {
                            assert(expected =~= Seq::<FaultRecord>::empty());
                            assert(out@ =~= ring_records(f0, start as int, CAP as int, i as int) + expected);
                        }
                    }
                },
                Err(Error::NotFound) => {
                    proof {
                        assert(expected =~= Seq::<FaultRecord>::empty());
                        assert(out@ =~= ring_records(f0, start as int, CAP as int, i as int) + expected);
                    }
                },
                Err(e) => {
                    proof {
                        if e is BufferTooSmall {
                            assert(ring_slot_oversized(f0, self.count(), CAP, i as int));
                        }
                    }
                    return Err(e);
                },
            }
            i = i + 1;
        }
        Ok(out)
    }
}

} // verus!
