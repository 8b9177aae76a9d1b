//! Log-structured key-value store over a [`BlockDevice`], safe against power
//! loss.
//!
//! Records are only ever appended; each carries a CRC-32 of its header and
//! of its payload. A write cut short leaves at most one broken record at the
//! end of the log, which mounting skips; committed records survive. The
//! contracts of [`Rufs::set`] and [`Rufs::delete`] state this: after a device
//! error, every key reads as before, and so does a remount of the medium,
//! provided the bytes left where the interrupted record was going read as no
//! record (which rests on the CRCs catching them).
//!
//! The medium is a ring of erase sectors. Records are packed inside a
//! sector, aligned to the program unit, and never cross a sector boundary.
//! Record layout (little endian):
//!
//! ```text
//! offset  field     size  meaning
//! 0       magic     u32   0x5246_5331 ("RFS1")
//! 4       seq       u32   global sequence number
//! 8       key_len   u16   key length (<= MAX_KEY)
//! 10      val_len   u16   value length (<= MAX_VALUE)
//! 12      flags     u16   bit 0 = tombstone
//! 14      reserved  u16   0xFFFF
//! 16      hdr_crc   u32   crc32(bytes 0..16)
//! 20      data_crc  u32   crc32(key || value)
//! 24      key || value, then 0xFF up to the program unit
//! ```
//!
//! Mounting scans every sector, checks the CRCs and rebuilds an index in RAM,
//! `key -> latest record` (highest `seq` wins). One erased sector is always
//! kept in reserve; when the active sector fills the store moves to the
//! reserve and picks another. When no sector is free, a compaction copies the
//! records still indexed out of the sector that holds the fewest and erases
//! it. Tombstones are kept so that a deleted key never comes back.
use vstd::prelude::*;
use crate::block::{BlockDevice, nor_program, all_erased, erased_range};
use crate::crc::{crc32, spec_crc32};

verus! {

/// Longest key in bytes.
pub const MAX_KEY: usize = 32;
/// Longest value in bytes.
pub const MAX_VALUE: usize = 512;
/// Magic word of a record ("RFS1").
pub const MAGIC: u32 = 0x5246_5331;
/// Size of a record header in bytes.
pub const HEADER_SIZE: usize = 24;
/// Tombstone flag.
pub const FLAG_DELETE: u16 = 0x0001;

/// Error of the store, over the error `E` of the device.
#[derive(Clone, Copy, Debug, PartialEq, Eq)]
pub enum Error<E> {
    /// Error of the underlying device.
    Device(E),
    /// Geometry not supported (fewer than 3 sectors, program unit smaller
    /// than a header, sector not a multiple of the program unit, …).
    BadGeometry,
    /// Key empty or longer than [`MAX_KEY`], value longer than
    /// [`MAX_VALUE`], or record larger than a sector.
    TooLarge,
    /// The index is full (`N` keys and tombstones).
    IndexFull,
    /// No space left, even after compaction.
    NoSpace,
    /// The key does not exist.
    NotFound,
    /// The caller's buffer is smaller than the value.
    BufferTooSmall,
}

/// `x` rounded up to a multiple of `m`.
pub open spec fn round_up(x: int, m: int) -> int {
    ((x + m - 1) / m) * m
}

/// Length on the medium of a record with this payload.
pub open spec fn rec_len(klen: int, vlen: int, psz: int) -> int {
    round_up(HEADER_SIZE + klen + vlen, psz)
}

/// Rounding up stays within one unit and lands on a multiple.
pub proof fn lemma_round_up(x: int, m: int)
    requires
        x >= 0,
        m > 0,
    ensures
        x <= round_up(x, m) < x + m,
        round_up(x, m) % m == 0,
{
    let q = (x + m - 1) / m;
    vstd::arithmetic::div_mod::lemma_fundamental_div_mod(x + m - 1, m);
    vstd::arithmetic::div_mod::lemma_mod_bound(x + m - 1, m);
    vstd::arithmetic::div_mod::lemma_mod_multiples_basic(q, m);
    assert(q * m == m * q) by (nonlinear_arith);
}

/// `x` rounded up to a multiple of `m`.
fn round_up_exec(x: u32, m: u32) -> (r: u32)
    requires
        m > 0,
        x as int + m as int <= u32::MAX,
    ensures
        r == round_up(x as int, m as int),
{
    proof {
        lemma_round_up(x as int, m as int);
    }
    let q = (x + (m - 1)) / m;
    proof {
        let xi = x as int;
        let mi = m as int;
        let qi = q as int;
        assert(qi == (xi + mi - 1) / mi);
        assert(qi * mi == round_up(xi, mi));
    }
    q * m
}

/// The little-endian bytes of a `u16`.
pub open spec fn le16(x: u16) -> Seq<u8> {
    seq![(x & 0xFF) as u8, (x >> 8u16) as u8]
}

/// The little-endian bytes of a `u32`.
pub open spec fn le32(x: u32) -> Seq<u8> {
    seq![(x & 0xFF) as u8, ((x >> 8u32) & 0xFF) as u8, ((x >> 16u32) & 0xFF) as u8, (x >> 24u32) as u8]
}

/// The `u32` with little-endian bytes `b[i..i+4]`.
pub open spec fn u32_le(b: Seq<u8>, i: int) -> u32 {
    (b[i] as u32) | ((b[i + 1] as u32) << 8u32) | ((b[i + 2] as u32) << 16u32) | ((b[i + 3] as u32) << 24u32)
}

/// The `u16` with little-endian bytes `b[i..i+2]`.
pub open spec fn u16_le(b: Seq<u8>, i: int) -> u16 {
    (b[i] as u16) | ((b[i + 1] as u16) << 8u16)
}

/// The first 16 bytes of a record header (what `hdr_crc` covers).
pub open spec fn header_head(seq: u32, klen: u16, vlen: u16, flags: u16) -> Seq<u8> {
    le32(MAGIC) + le32(seq) + le16(klen) + le16(vlen) + le16(flags) + seq![0xFFu8, 0xFFu8]
}

/// Image of a whole record of `len` bytes on the medium.
pub open spec fn record_image(key: Seq<u8>, value: Seq<u8>, flags: u16, seq: u32, len: int) -> Seq<u8> {
    let h = header_head(seq, key.len() as u16, value.len() as u16, flags);
    let body = key + value;
    h + le32(spec_crc32(h)) + le32(spec_crc32(body)) + body + Seq::new(
        (len - HEADER_SIZE - body.len()) as nat,
        |i: int| 0xFFu8,
    )
}

fn push_le16(v: &mut Vec<u8>, x: u16)
    ensures
        final(v)@ == old(v)@ + le16(x),
{
    v.push((x & 0xFF) as u8);
    v.push((x >> 8u16) as u8);
    assert(v@ =~= old(v)@ + le16(x));
}

fn push_le32(v: &mut Vec<u8>, x: u32)
    ensures
        final(v)@ == old(v)@ + le32(x),
{
    v.push((x & 0xFF) as u8);
    v.push(((x >> 8u32) & 0xFF) as u8);
    v.push(((x >> 16u32) & 0xFF) as u8);
    v.push((x >> 24u32) as u8);
    assert(v@ =~= old(v)@ + le32(x));
}

fn push_all(v: &mut Vec<u8>, s: &[u8])
    ensures
        final(v)@ == old(v)@ + s@,
{
    let mut i: usize = 0;
    while i < s.len()
        invariant
            i <= s@.len(),
            v@ == old(v)@ + s@.subrange(0, i as int),
        decreases s@.len() - i,
    {
        v.push(s[i]);
        i = i + 1;
        assert(v@ =~= old(v)@ + s@.subrange(0, i as int));
    }
    assert(s@.subrange(0, s@.len() as int) =~= s@);
}

/// Serialises a record of `len` bytes (header, key, value, `0xFF` fill).
fn encode_record(key: &[u8], value: &[u8], flags: u16, seq: u32, len: usize) -> (r: Vec<u8>)
    requires
        key@.len() <= MAX_KEY,
        value@.len() <= MAX_VALUE,
        HEADER_SIZE + key@.len() + value@.len() <= len,
    ensures
        r@ == record_image(key@, value@, flags, seq, len as int),
{
    let mut h: Vec<u8> = Vec::new();
    push_le32(&mut h, MAGIC);
    push_le32(&mut h, seq);
    push_le16(&mut h, key.len() as u16);
    push_le16(&mut h, value.len() as u16);
    push_le16(&mut h, flags);
    h.push(0xFF);
    h.push(0xFF);
    assert(h@ =~= header_head(seq, key@.len() as u16, value@.len() as u16, flags));
    let hdr_crc = crc32(h.as_slice());
    let mut body: Vec<u8> = Vec::new();
    push_all(&mut body, key);
    push_all(&mut body, value);
    let data_crc = crc32(body.as_slice());
    let mut out = h;
    push_le32(&mut out, hdr_crc);
    push_le32(&mut out, data_crc);
    push_all(&mut out, body.as_slice());
    let ghost pre = out@;
    while out.len() < len
        invariant
            pre.len() == HEADER_SIZE + key@.len() + value@.len(),
            pre.len() <= out@.len() <= len,
            out@ == pre + Seq::new((out@.len() - pre.len()) as nat, |i: int| 0xFFu8),
        decreases len - out@.len(),
    {
        out.push(0xFF);
        assert(out@ =~= pre + Seq::new((out@.len() - pre.len()) as nat, |i: int| 0xFFu8));
    }
    assert(out@ =~= record_image(key@, value@, flags, seq, len as int));
    out
}

/// `true` when `a` and `b` hold the same bytes.
fn same_bytes(a: &[u8], b: &[u8]) -> (r: bool)
    ensures
        r == (a@ == b@),
{
    if a.len() != b.len() {
        return false;
    }
    let mut i: usize = 0;
    while i < a.len()
        invariant
            i <= a@.len(),
            a@.len() == b@.len(),
            forall|j: int| 0 <= j < i ==> a@[j] == b@[j],
        decreases a@.len() - i,
    {
        if a[i] != b[i] {
            return false;
        }
        i = i + 1;
    }
    assert(a@ =~= b@);
    true
}

fn copy_bytes(s: &[u8]) -> (r: Vec<u8>)
    ensures
        r@ == s@,
{
    let mut v: Vec<u8> = Vec::new();
    push_all(&mut v, s);
    v
}

/// What the index knows of a record.
pub ghost struct EntryView {
    /// The key.
    pub key: Seq<u8>,
    /// Sequence number of the record.
    pub seq: u32,
    /// Address of the record.
    pub addr: u32,
    /// Length of the value.
    pub val_len: u16,
    /// Whether the record is a tombstone.
    pub deleted: bool,
}

/// `heapless::Vec`, the fixed-capacity buffer that holds each key of the
/// index.
#[verifier::external_type_specification]
#[verifier::external_body]
#[verifier::reject_recursive_types(T)]
pub struct ExKeyBuffer<T, const N: usize>(heapless::Vec<T, N>);

/// The bytes that a key buffer holds.
pub uninterp spec fn key_bytes(k: heapless::Vec<u8, MAX_KEY>) -> Seq<u8>;

/// `heapless::Vec::from_slice`: a buffer of capacity [`MAX_KEY`] holding a
/// copy of `s`. Its source fails, with nothing copied, exactly when `s` is
/// longer than the capacity; this gives `None` there.
#[verifier::external_body]
fn key_from_slice(s: &[u8]) -> (r: Option<heapless::Vec<u8, MAX_KEY>>)
    ensures
        r is Some <==> s@.len() <= MAX_KEY,
        r matches Some(k) ==> key_bytes(k) == s@,
{
    heapless::Vec::from_slice(s).ok()
}

/// `heapless::Vec::as_slice`: the bytes the buffer holds, in order.
#[verifier::external_body]
fn key_as_slice(k: &heapless::Vec<u8, MAX_KEY>) -> (r: &[u8])
    ensures
        r@ == key_bytes(*k),
{
    k.as_slice()
}

/// An index entry: a key and where its latest record lives.
pub struct Entry {
    key: heapless::Vec<u8, MAX_KEY>,
    seq: u32,
    addr: u32,
    val_len: u16,
    deleted: bool,
}

impl View for Entry {
    type V = EntryView;

    closed spec fn view(&self) -> EntryView {
        EntryView { key: key_bytes(self.key), seq: self.seq, addr: self.addr, val_len: self.val_len, deleted: self.deleted }
    }
}

/// The entry is well formed on a medium of `len` bytes with program unit
/// `ps`, below the next sequence number `next`.
pub open spec fn entry_ok(e: EntryView, len: int, ps: int, next: u32) -> bool {
    &&& entry_shape_ok(e, len, ps)
    &&& e.seq < next
}

/// The entry's key and value sizes are in range and its record lies on a
/// medium of `len` bytes with program unit `ps`.
pub open spec fn entry_shape_ok(e: EntryView, len: int, ps: int) -> bool {
    &&& 1 <= e.key.len() <= MAX_KEY
    &&& e.val_len <= MAX_VALUE
    &&& e.addr as int + rec_len(e.key.len() as int, e.val_len as int, ps) <= len
}

/// The index is well formed: entries well formed, keys distinct, at most
/// `cap` of them.
pub open spec fn index_ok(ix: Seq<EntryView>, len: int, ps: int, next: u32, cap: int) -> bool {
    &&& ix.len() <= cap
    &&& forall|i: int| 0 <= i < ix.len() ==> entry_ok(#[trigger] ix[i], len, ps, next)
    &&& forall|i: int, j: int| 0 <= i < ix.len() && 0 <= j < ix.len() && i != j ==> #[trigger] ix[i].key != #[trigger] ix[j].key
}

/// Position in `ix` of the entry of `key`.
pub open spec fn position(ix: Seq<EntryView>, key: Seq<u8>) -> Option<int> {
    if exists|i: int| 0 <= i < ix.len() && #[trigger] ix[i].key == key {
        Some(choose|i: int| 0 <= i < ix.len() && #[trigger] ix[i].key == key)
    } else {
        None
    }
}

/// Key-value store over device `D`, with room for `N` index entries (keys
/// and tombstones).
pub struct Rufs<D: BlockDevice, const N: usize> {
    dev: D,
    index: Vec<Entry>,
    next_seq: u32,
    head: u32,
    active_sec: u32,
    free_sector: u32,
    sector_count: u32,
    esz: u32,
    psz: u32,
}

impl<D: BlockDevice, const N: usize> Rufs<D, N> {
    /// The index as values.
    pub closed spec fn entries(&self) -> Seq<EntryView> {
        self.index@.map_values(|e: Entry| e@)
    }

    /// The device.
    pub closed spec fn device(&self) -> D {
        self.dev
    }

    /// Next sequence number to hand out.
    pub closed spec fn next_seq(&self) -> u32 {
        self.next_seq
    }

    /// Geometry and index are consistent (the invariant of the store).
    pub closed spec fn wf(&self) -> bool {
        let es = self.esz as int;
        let ps = self.psz as int;
        let n = self.sector_count as int;
        let len = self.dev.contents().len() as int;
        &&& ps >= HEADER_SIZE
        &&& es > 0
        &&& es % ps == 0
        &&& n >= 3
        &&& n * es <= len
        &&& n == len / es
        &&& len <= u32::MAX
        &&& self.dev.geometry() == (ps as nat, es as nat)
        &&& index_ok(self.entries(), len, ps, self.next_seq, N as int)
        &&& self.head as int <= len
        &&& self.active_sec < n
        &&& self.free_sector < n
    }

    /// `(sector count, sector size, program unit)`.
    pub closed spec fn geom(&self) -> (u32, u32, u32) {
        (self.sector_count, self.esz, self.psz)
    }

    /// Address where the next record goes.
    pub closed spec fn head_pos(&self) -> u32 {
        self.head
    }

    /// Sector the log is being written in.
    pub closed spec fn active_sector(&self) -> u32 {
        self.active_sec
    }

    /// Erased sector kept in reserve for the next rotation.
    pub closed spec fn spare_sector(&self) -> u32 {
        self.free_sector
    }

    /// Every field but the index and the device is the same in `a` and `b`.
    pub closed spec fn same_frame(a: &Self, b: &Self) -> bool {
        &&& a.next_seq == b.next_seq
        &&& a.head == b.head
        &&& a.active_sec == b.active_sec
        &&& a.free_sector == b.free_sector
        &&& a.sector_count == b.sector_count
        &&& a.esz == b.esz
        &&& a.psz == b.psz
    }

    /// Value bytes of entry `e` on the device.
    pub open spec fn value_of(&self, e: EntryView) -> Seq<u8> {
        let start = e.addr as int + HEADER_SIZE + e.key.len();
        self.device().contents().subrange(start, start + e.val_len as int)
    }

    /// The entry of `key`, when it is live (not a tombstone).
    pub open spec fn live_entry(&self, key: Seq<u8>) -> Option<EntryView> {
        match position(self.entries(), key) {
            Some(i) => if self.entries()[i].deleted { None } else { Some(self.entries()[i]) },
            None => None,
        }
    }

    /// What reading `key` gives: the value of its live entry.
    pub open spec fn reads(&self, key: Seq<u8>) -> Option<Seq<u8>> {
        match self.live_entry(key) {
            Some(e) => Some(self.value_of(e)),
            None => None,
        }
    }

    /// The log is laid out for safe appends: the head is in the active
    /// sector and everything after it there is erased, the spare sector is
    /// another one and wholly erased, and every indexed record lies whole in
    /// one sector, not the spare, and before the head in the active one.
    pub open spec fn clean(&self) -> bool {
        let n = self.geom().0;
        let es = self.geom().1;
        let ps = self.geom().2;
        let c = self.device().contents();
        let a = self.active_sector();
        let f = self.spare_sector();
        let h = self.head_pos();
        &&& self.wf()
        &&& a as int * es as int <= h as int <= a as int * es as int + es as int
        &&& all_erased(c, h as int, a as int * es as int + es as int - h as int)
        &&& f != a
        &&& all_erased(c, f as int * es as int, es as int)
        &&& forall|i: int| 0 <= i < self.entries().len() ==> placed(#[trigger] self.entries()[i], a, f, h, es, ps)
    }

    /// A record of `rec` bytes fits after the head in the active sector.
    pub open spec fn fits_in_place(&self, rec: int) -> bool {
        let es = self.geom().1 as int;
        &&& self.head_pos() as int / es == self.active_sector()
        &&& self.head_pos() as int % es + rec <= es
    }

    /// Sector `s` may become the spare when the one with the head is
    /// `head_sec`: it exists, is neither `exclude` nor `head_sec`, and no
    /// indexed record starts in it.
    pub open spec fn free_candidate(&self, s: u32, exclude: Option<u32>, head_sec: int) -> bool {
        &&& s < self.geom().0
        &&& Some(s) != exclude
        &&& s != head_sec
        &&& !has_entry_in(self.entries(), s, self.geom().1)
    }

    /// Appending a record of `rec` bytes needs no compaction: it fits in
    /// place, or some sector other than the spare holds no record (it
    /// becomes the next spare when the log moves to the current one).
    pub open spec fn appends_without_compaction(&self, rec: int) -> bool {
        ||| self.fits_in_place(rec)
        ||| exists|s: u32| #[trigger] self.free_candidate(s, Some(self.spare_sector()), self.spare_sector() as int)
    }

    /// Appending a record of `rec` bytes compacts: it does not fit in
    /// place and no sector but the spare is free; the log then moves to the
    /// spare, and the records of the sector chosen for compaction (see
    /// [`victim_of`]) are copied there ahead of the new one, which fits after
    /// them.
    pub open spec fn compacts_within(&self, rec: int) -> bool {
        let n = self.geom().0;
        let es = self.geom().1;
        let ps = self.geom().2;
        let sp = self.spare_sector();
        &&& !self.appends_without_compaction(rec)
        &&& victim_of(self.entries(), n, es, Some(sp), sp) matches Some(v) && bytes_in(
            self.entries(),
            v,
            es,
            ps,
            self.entries().len() as int,
        ) + rec <= es
    }

    /// Writing a record of a `klen`-byte key and a `vlen`-byte value needs
    /// no compaction (see [`Self::appends_without_compaction`]).
    pub open spec fn write_needs_no_compaction(&self, klen: int, vlen: int) -> bool {
        self.appends_without_compaction(rec_len(klen, vlen, self.geom().2 as int))
    }

    /// Writing a record of a `klen`-byte key and a `vlen`-byte value
    /// compacts (see [`Self::compacts_within`]).
    pub open spec fn write_compacts(&self, klen: int, vlen: int) -> bool {
        self.compacts_within(rec_len(klen, vlen, self.geom().2 as int))
    }

    /// Writing a record of a `klen`-byte key and a `vlen`-byte value lands
    /// whole in one sector: it needs no compaction, or the one it needs
    /// leaves room for it.
    pub open spec fn write_fits(&self, klen: int, vlen: int) -> bool {
        self.write_needs_no_compaction(klen, vlen) || self.write_compacts(klen, vlen)
    }

    /// The records on the medium, sector after sector.
    pub open spec fn medium_log(&self) -> Seq<EntryView> {
        device_log(self.device().contents(), self.geom().0 as int, self.geom().1 as int, self.geom().2 as int)
    }

    /// The medium agrees with the index: every record on it belongs to an
    /// indexed key and is either older than the indexed record or that very
    /// record, every indexed record is on it, and the log of the active
    /// sector ends at the head.
    pub open spec fn consistent(&self) -> bool {
        let log = self.medium_log();
        let ix = self.entries();
        &&& forall|j: int| 0 <= j < log.len() ==> (position(ix, #[trigger] log[j].key) matches Some(i) && (log[j].seq < ix[i].seq
            || log[j] == ix[i]))
        &&& forall|i: int| 0 <= i < ix.len() ==> log.contains(#[trigger] ix[i])
        &&& sector_log_end(
            self.device().contents(),
            self.active_sector() as int * self.geom().1 as int,
            0,
            self.geom().1 as int,
            self.geom().2 as int,
        ) == self.head_pos() as int - self.active_sector() as int * self.geom().1 as int
    }

    /// The head is in the active sector with the rest of that sector
    /// erased, and every indexed record lies whole in its sector and, in the
    /// active one, before the head.
    pub open spec fn open_layout(&self) -> bool {
        let es = self.geom().1;
        let ps = self.geom().2;
        let a = self.active_sector();
        let h = self.head_pos();
        &&& self.wf()
        &&& a as int * es as int <= h as int <= a as int * es as int + es as int
        &&& all_erased(self.device().contents(), h as int, a as int * es as int + es as int - h as int)
        &&& forall|i: int| 0 <= i < self.entries().len() ==> placed_open(#[trigger] self.entries()[i], a, h, es, ps)
    }

    /// A compaction that keeps clear of `exclude` and of the sector
    /// `head_sec` the head is in finds a victim whose records fit after the
    /// head in the active sector.
    pub open spec fn compaction_fits(&self, exclude: Option<u32>, head_sec: u32) -> bool {
        let n = self.geom().0;
        let es = self.geom().1;
        let ps = self.geom().2;
        let a = self.active_sector();
        &&& self.open_layout()
        &&& head_sec == a
        &&& victim_of(self.entries(), n, es, exclude, head_sec) matches Some(v) && self.head_pos() as int + bytes_in(
            self.entries(),
            v,
            es,
            ps,
            self.entries().len() as int,
        ) < a as int * es as int + es as int
    }

    /// Number of live keys in `ix[0..k]`.
    pub open spec fn live_count(ix: Seq<EntryView>, k: int) -> nat
        decreases k,
    {
        if k <= 0 {
            0
        } else {
            Self::live_count(ix, k - 1) + if ix[k - 1].deleted { 0nat } else { 1nat }
        }
    }
}


/// Logical content of an index entry: all but its address.
pub open spec fn same_record(a: EntryView, b: EntryView) -> bool {
    a.key == b.key && a.seq == b.seq && a.val_len == b.val_len && a.deleted == b.deleted
}

/// `new` holds the same records as `old`, in the same order, wherever they
/// now live.
pub open spec fn same_records(old: Seq<EntryView>, new: Seq<EntryView>) -> bool {
    old.len() == new.len() && forall|i: int| 0 <= i < old.len() ==> same_record(#[trigger] old[i], new[i])
}

/// The live keys of `ix[0..k]`, in index order.
pub open spec fn live_keys(ix: Seq<EntryView>, k: int) -> Seq<Seq<u8>>
    decreases k,
{
    if k <= 0 {
        Seq::empty()
    } else {
        live_keys(ix, k - 1) + if ix[k - 1].deleted { Seq::empty() } else { seq![ix[k - 1].key] }
    }
}

impl<D: BlockDevice, const N: usize> Rufs<D, N> {
    /// Position of the entry of `key` in the index.
    fn find_index(&self, key: &[u8]) -> (r: Option<usize>)
        requires
            forall|i: int, j: int| 0 <= i < self.entries().len() && 0 <= j < self.entries().len() && i != j
                ==> #[trigger] self.entries()[i].key != #[trigger] self.entries()[j].key,
        ensures
            r matches Some(i) ==> position(self.entries(), key@) == Some(i as int),
            r is None ==> position(self.entries(), key@) is None,
    {
        let ghost ix = self.entries();
        let mut i: usize = 0;
        while i < self.index.len()
            invariant
                ix == self.entries(),
                ix.len() == self.index@.len(),
                i <= ix.len(),
                forall|a: int, b: int| 0 <= a < ix.len() && 0 <= b < ix.len() && a != b ==> #[trigger] ix[a].key != #[trigger] ix[b].key,
                forall|j: int| 0 <= j < i ==> ix[j].key != key@,
            decreases ix.len() - i,
        {
            if same_bytes(key_as_slice(&self.index[i].key), key) {
                proof {
                    assert(ix[i as int].key == key@);
                    let c = choose|c: int| 0 <= c < ix.len() && #[trigger] ix[c].key == key@;
                    if c != i {
                        assert(ix[c].key != ix[i as int].key);
                    }
                }
                return Some(i);
            }
            i = i + 1;
        }
        None
    }

    /// `true` when `key` exists (and is not deleted).
    pub fn contains(&self, key: &[u8]) -> (r: bool)
        requires
            self.wf(),
        ensures
            r == self.live_entry(key@) is Some,
    {
        match self.find_index(key) {
            Some(i) => !self.index[i].deleted,
            None => false,
        }
    }

    /// Number of live keys.
    pub fn len(&self) -> (r: usize)
        requires
            self.wf(),
        ensures
            r == Self::live_count(self.entries(), self.entries().len() as int),
    {
        let mut n: usize = 0;
        let mut i: usize = 0;
        while i < self.index.len()
            invariant
                i <= self.index@.len(),
                self.entries().len() == self.index@.len(),
                n == Self::live_count(self.entries(), i as int),
                n <= i,
            decreases self.index@.len() - i,
        {
            if !self.index[i].deleted {
                n = n + 1;
            }
            i = i + 1;
        }
        n
    }

    /// `true` when no key is live.
    pub fn is_empty(&self) -> (r: bool)
        requires
            self.wf(),
        ensures
            r == (Self::live_count(self.entries(), self.entries().len() as int) == 0),
    {
        self.len() == 0
    }

    /// The live keys, in index order.
    pub fn keys(&self) -> (r: Vec<Vec<u8>>)
        requires
            self.wf(),
        ensures
            r@.len() == live_keys(self.entries(), self.entries().len() as int).len(),
            forall|j: int| 0 <= j < r@.len() ==> #[trigger] r@[j]@ == live_keys(self.entries(), self.entries().len() as int)[j],
    {
        let mut out: Vec<Vec<u8>> = Vec::new();
        let mut i: usize = 0;
        while i < self.index.len()
            invariant
                i <= self.index@.len(),
                self.entries().len() == self.index@.len(),
                out@.len() == live_keys(self.entries(), i as int).len(),
                forall|j: int| 0 <= j < out@.len() ==> #[trigger] out@[j]@ == live_keys(self.entries(), i as int)[j],
            decreases self.index@.len() - i,
        {
            if !self.index[i].deleted {
                out.push(copy_bytes(key_as_slice(&self.index[i].key)));
            }
            i = i + 1;
        }
        out
    }

    /// The sequence number the next write gets; `set` and `delete` need it
    /// below `u32::MAX` (the counter would overflow).
    pub fn next_sequence(&self) -> (r: u32)
        ensures
            r == self.next_seq(),
    {
        self.next_seq
    }

    /// Gives the device back.
    pub fn into_device(self) -> (r: D)
        ensures
            r == self.device(),
    {
        self.dev
    }

    /// Reads the value of `key` into `buf`; returns its length.
    pub fn get(&mut self, key: &[u8], buf: &mut [u8]) -> (r: Result<usize, Error<D::Error>>)
        requires
            old(self).wf(),
        ensures
            final(self).wf(),
            final(self).entries() == old(self).entries(),
            final(self).device().contents() == old(self).device().contents(),
            final(self).next_seq() == old(self).next_seq(),
            final(buf)@.len() == old(buf)@.len(),
            old(self).live_entry(key@) is None ==> r == Err::<usize, Error<D::Error>>(Error::NotFound) && final(buf)@ == old(buf)@,
            old(self).live_entry(key@) matches Some(e) ==> {
                if old(buf)@.len() < e.val_len {
                    r == Err::<usize, Error<D::Error>>(Error::BufferTooSmall) && final(buf)@ == old(buf)@
                } else {
                    (r is Ok || r is Err && r->Err_0 is Device) && (r matches Ok(n) ==> n == e.val_len
                        && final(buf)@.subrange(0, n as int) == old(self).value_of(e)
                        && final(buf)@.subrange(n as int, final(buf)@.len() as int) == old(buf)@.subrange(n as int, old(buf)@.len() as int))
                }
            },
            r matches Ok(n) ==> old(self).reads(key@) == Some(final(buf)@.subrange(0, n as int)),
            old(self).reads(key@) is None ==> r == Err::<usize, Error<D::Error>>(Error::NotFound),
            old(self).device().healthy() ==> final(self).device().healthy(),
            old(self).device().healthy() ==> (r matches Err(e) ==> !(e is Device)),
    {
        let i = match self.find_index(key) {
            Some(i) => i,
            None => return Err(Error::NotFound),
        };
        if self.index[i].deleted {
            return Err(Error::NotFound);
        }
        let addr = self.index[i].addr;
        let key_len = key_as_slice(&self.index[i].key).len();
        let val_len = self.index[i].val_len as usize;
        if buf.len() < val_len {
            return Err(Error::BufferTooSmall);
        }
        proof {
            let e = self.entries()[i as int];
            assert(entry_ok(e, self.dev.contents().len() as int, self.psz as int, self.next_seq));
            lemma_round_up(HEADER_SIZE + e.key.len() + e.val_len, self.psz as int);
        }
        let val_off = addr + HEADER_SIZE as u32 + key_len as u32;
        let mut tmp: Vec<u8> = vec![0u8; val_len];
        match self.dev.read(val_off, tmp.as_mut_slice()) {
            Ok(()) => {},
            Err(e) => return Err(Error::Device(e)),
        }
        let mut k: usize = 0;
        while k < val_len
            invariant
                k <= val_len,
                val_len <= buf@.len(),
                tmp@.len() == val_len,
                buf@.len() == old(buf)@.len(),
                forall|j: int| 0 <= j < k ==> buf@[j] == tmp@[j],
                forall|j: int| val_len <= j < buf@.len() ==> buf@[j] == old(buf)@[j],
            decreases val_len - k,
        {
            buf[k] = tmp[k];
            k = k + 1;
        }
        assert(buf@.subrange(0, val_len as int) =~= tmp@);
        assert(buf@.subrange(val_len as int, buf@.len() as int) =~= old(buf)@.subrange(val_len as int, old(buf)@.len() as int));
        Ok(val_len)
    }
}

/// The index `new` after upserting `e` into `old` (room for `cap`
/// entries): a newer record replaces the entry of its key, an older one is
/// ignored, a new key is appended when there is room. `ok` tells whether it
/// went through.
pub open spec fn upserted(old: Seq<EntryView>, new: Seq<EntryView>, e: EntryView, cap: int, ok: bool) -> bool {
    match position(old, e.key) {
        Some(i) => ok && (if old[i].seq >= e.seq { new == old } else { new == old.update(i, e) }),
        None => if old.len() < cap {
            ok && new == old.push(e)
        } else {
            !ok && new == old
        },
    }
}

/// The index after upserting `e` into `ix` (room for `cap` entries), or
/// `None` when the key is new and the index is full (see [`upserted`]).
pub open spec fn upsert_spec(ix: Seq<EntryView>, e: EntryView, cap: int) -> Option<Seq<EntryView>> {
    match position(ix, e.key) {
        Some(i) => Some(if ix[i].seq >= e.seq { ix } else { ix.update(i, e) }),
        None => if ix.len() < cap { Some(ix.push(e)) } else { None },
    }
}

/// The index built by upserting the records of `log` in order into an
/// empty one; `None` when it overflows `cap` entries.
pub open spec fn fold_index(log: Seq<EntryView>, cap: int) -> Option<Seq<EntryView>>
    decreases log.len(),
{
    if log.len() == 0 {
        Some(Seq::empty())
    } else {
        match fold_index(log.drop_last(), cap) {
            Some(ix) => upsert_spec(ix, log.last(), cap),
            None => None,
        }
    }
}

/// `upserted` is the relational form of [`upsert_spec`].
proof fn lemma_upserted_spec(old: Seq<EntryView>, new: Seq<EntryView>, e: EntryView, cap: int, ok: bool)
    requires
        upserted(old, new, e, cap, ok),
    ensures
        ok ==> upsert_spec(old, e, cap) == Some(new),
        !ok ==> upsert_spec(old, e, cap) is None,
{
}

/// Folding one more record.
proof fn lemma_fold_push(log: Seq<EntryView>, e: EntryView, cap: int)
    ensures
        fold_index(log.push(e), cap) == match fold_index(log, cap) {
            Some(ix) => upsert_spec(ix, e, cap),
            None => None,
        },
        max_seq_of(log.push(e)) == (if e.seq >= max_seq_of(log) { e.seq } else { max_seq_of(log) }),
{
    assert(log.push(e).drop_last() =~= log);
}

/// An overflowing fold stays overflowed.
proof fn lemma_fold_none_extends(a: Seq<EntryView>, b: Seq<EntryView>, cap: int)
    requires
        fold_index(a, cap) is None,
    ensures
        fold_index(a + b, cap) is None,
    decreases b.len(),
{
    if b.len() == 0 {
        assert(a + b =~= a);
    } else {
        lemma_fold_none_extends(a, b.drop_last(), cap);
        assert((a + b).drop_last() =~= a + b.drop_last());
    }
}

/// A sector log goes on after a valid record.
proof fn lemma_sector_log_step(c: Seq<u8>, base: int, off: int, es: int, ps: int, e: EntryView)
    requires
        ps > 0,
        rec_at(c, base, off, es, ps) == Some(e),
    ensures
        sector_log(c, base, off, es, ps) == seq![e] + sector_log(c, base, off + rec_len(e.key.len() as int, e.val_len as int, ps), es, ps),
{
}

/// A sector log ends where no valid record is.
proof fn lemma_sector_log_stop(c: Seq<u8>, base: int, off: int, es: int, ps: int)
    requires
        rec_at(c, base, off, es, ps) is None || off + HEADER_SIZE > es,
    ensures
        sector_log(c, base, off, es, ps) == Seq::<EntryView>::empty(),
{
}

/// An overflowing fold of the first `k` sectors overflows for `n >= k`.
proof fn lemma_device_log_none(c: Seq<u8>, k: int, n: int, es: int, ps: int, cap: int)
    requires
        0 <= k <= n,
        fold_index(device_log(c, k, es, ps), cap) is None,
    ensures
        fold_index(device_log(c, n, es, ps), cap) is None,
    decreases n - k,
{
    if k < n {
        lemma_fold_none_extends(device_log(c, k, es, ps), sector_log(c, k * es, 0, es, ps), cap);
        assert(device_log(c, k + 1, es, ps) == device_log(c, k, es, ps) + sector_log(c, k * es, 0, es, ps));
        lemma_device_log_none(c, k + 1, n, es, ps, cap);
    }
}

/// Replacing the entry at `q` by one of the same key moves no key.
proof fn lemma_position_update(ix: Seq<EntryView>, e: EntryView, q: int)
    requires
        distinct_keys(ix),
        0 <= q < ix.len(),
        ix[q].key == e.key,
    ensures
        distinct_keys(ix.update(q, e)),
        forall|k: Seq<u8>| #[trigger] position(ix.update(q, e), k) == position(ix, k),
{
    let f = ix.update(q, e);
    assert forall|a: int, b: int| 0 <= a < f.len() && 0 <= b < f.len() && a != b implies #[trigger] f[a].key != #[trigger] f[b].key by {
        assert(ix[a].key != ix[b].key);
    }
    assert forall|k: Seq<u8>| #[trigger] position(f, k) == position(ix, k) by {
        assert forall|j: int| 0 <= j < f.len() implies (#[trigger] f[j].key == k) == (ix[j].key == k) by {}
        if exists|j: int| 0 <= j < ix.len() && #[trigger] ix[j].key == k {
            let a = choose|j: int| 0 <= j < ix.len() && #[trigger] ix[j].key == k;
            assert(f[a].key == k);
            let b = choose|j: int| 0 <= j < f.len() && #[trigger] f[j].key == k;
            if a != b {
                assert(ix[b].key == k);
                assert(ix[a].key != ix[b].key);
            }
        } else {
            assert forall|j: int| 0 <= j < f.len() implies #[trigger] f[j].key != k by {}
        }
    }
}

/// Appending an entry of a new key moves no other key.
proof fn lemma_position_push(ix: Seq<EntryView>, e: EntryView, k: Seq<u8>)
    requires
        distinct_keys(ix),
        forall|i: int| 0 <= i < ix.len() ==> #[trigger] ix[i].key != e.key,
    ensures
        position(ix.push(e), k) == (if k == e.key { Some(ix.len() as int) } else { position(ix, k) }),
{
    let f = ix.push(e);
    if k == e.key {
        assert(f[ix.len() as int].key == k);
        let b = choose|j: int| 0 <= j < f.len() && #[trigger] f[j].key == k;
        if b != ix.len() {
            assert(f[b] == ix[b]);
        }
    } else {
        if exists|j: int| 0 <= j < ix.len() && #[trigger] ix[j].key == k {
            let a = choose|j: int| 0 <= j < ix.len() && #[trigger] ix[j].key == k;
            assert(f[a] == ix[a]);
            let b = choose|j: int| 0 <= j < f.len() && #[trigger] f[j].key == k;
            if a != b {
                assert(f[b] == ix[b]);
                assert(ix[a].key != ix[b].key);
            }
        } else {
            assert forall|j: int| 0 <= j < f.len() implies #[trigger] f[j].key != k by {
                if j < ix.len() {
                    assert(f[j] == ix[j]);
                }
            }
        }
    }
}

/// A sequence of entries with distinct keys, all of them keys of `b`
/// (distinct too), is no longer than `b`.
proof fn lemma_sub_index_len(a: Seq<EntryView>, b: Seq<EntryView>)
    requires
        distinct_keys(a),
        distinct_keys(b),
        forall|i: int| 0 <= i < a.len() ==> position(b, #[trigger] a[i].key) is Some,
    ensures
        a.len() <= b.len(),
{
    let ka = a.map_values(|e: EntryView| e.key);
    let kb = b.map_values(|e: EntryView| e.key);
    assert(ka.no_duplicates()) by {
        assert forall|i: int, j: int| 0 <= i < ka.len() && 0 <= j < ka.len() && i != j implies ka[i] != ka[j] by {
            assert(a[i].key != a[j].key);
        }
    }
    ka.unique_seq_to_set();
    kb.lemma_cardinality_of_set();
    assert(ka.to_set().subset_of(kb.to_set())) by {
        assert forall|k: Seq<u8>| ka.to_set().contains(k) implies kb.to_set().contains(k) by {
            let i = choose|i: int| 0 <= i < ka.len() && ka[i] == k;
            let p = position(b, a[i].key)->Some_0;
            assert(kb[p] == k);
        }
    }
    vstd::set_lib::lemma_len_subset(ka.to_set(), kb.to_set());
}

/// Folding the records of a log that agrees with index `ix` (each record
/// is of an indexed key and at most as new as its indexed record, which it
/// equals at equal sequence number) builds, for every key met, the newest
/// record met.
proof fn lemma_fold_agrees(log: Seq<EntryView>, ix: Seq<EntryView>, cap: int)
    requires
        distinct_keys(ix),
        ix.len() <= cap,
        forall|j: int| 0 <= j < log.len() ==> position(ix, #[trigger] log[j].key) is Some,
    ensures
        fold_index(log, cap) matches Some(f) && {
            &&& distinct_keys(f)
            &&& forall|i: int| 0 <= i < f.len() ==> log.contains(#[trigger] f[i])
            &&& forall|j: int| 0 <= j < log.len() ==> (position(f, #[trigger] log[j].key) matches Some(q) && log[j].seq <= f[q].seq)
        },
    decreases log.len(),
{
    if log.len() > 0 {
        let l0 = log.drop_last();
        let e = log.last();
        assert forall|j: int| 0 <= j < l0.len() implies position(ix, #[trigger] l0[j].key) is Some by {
            assert(l0[j] == log[j]);
        }
        lemma_fold_agrees(l0, ix, cap);
        let f0 = fold_index(l0, cap)->Some_0;
        assert(position(ix, log[log.len() - 1].key) is Some);
        // Room: every key of `f0` is a key of `ix`.
        assert forall|i: int| 0 <= i < f0.len() implies position(ix, #[trigger] f0[i].key) is Some by {
            assert(l0.contains(f0[i]));
            let j = choose|j: int| 0 <= j < l0.len() && l0[j] == f0[i];
            assert(log[j] == l0[j]);
        }
        match position(f0, e.key) {
            Some(q) => {
                let f = fold_index(log, cap)->Some_0;
                assert(f == (if f0[q].seq >= e.seq { f0 } else { f0.update(q, e) }));
                if f0[q].seq < e.seq {
                    lemma_position_update(f0, e, q);
                }
                assert forall|i: int| 0 <= i < f.len() implies log.contains(#[trigger] f[i]) by {
                    if f[i] == e {
                        assert(log[log.len() - 1] == e);
                    } else {
                        assert(f[i] == f0[i]);
                        assert(l0.contains(f0[i]));
                        let j = choose|j: int| 0 <= j < l0.len() && l0[j] == f0[i];
                        assert(log[j] == l0[j]);
                    }
                }
                assert forall|j: int| 0 <= j < log.len() implies (position(f, #[trigger] log[j].key) matches Some(p) && log[j].seq <= f[p].seq) by {
                    if j < l0.len() {
                        assert(log[j] == l0[j]);
                    }
                }
            },
            None => {
                assert(forall|i: int| 0 <= i < f0.len() ==> #[trigger] f0[i].key != e.key);
                lemma_sub_index_len(f0, ix);
                if f0.len() == ix.len() {
                    // `e`'s key is in `ix` and not in `f0`, whose keys are all
                    // keys of `ix`: `f0` would have fewer keys than `ix`.
                    lemma_sub_index_len(f0.push(e), ix);
                }
                assert(f0.len() < cap);
                let f = f0.push(e);
                assert(fold_index(log, cap) == Some(f));
                assert forall|a: int, b: int| 0 <= a < f.len() && 0 <= b < f.len() && a != b implies #[trigger] f[a].key != #[trigger] f[b].key by {
                    if a < f0.len() && b < f0.len() {
                        assert(f[a] == f0[a] && f[b] == f0[b]);
                    } else if a < f0.len() {
                        assert(f[a] == f0[a]);
                    } else if b < f0.len() {
                        assert(f[b] == f0[b]);
                    }
                }
                assert forall|i: int| 0 <= i < f.len() implies log.contains(#[trigger] f[i]) by {
                    if i == f0.len() {
                        assert(log[log.len() - 1] == e);
                    } else {
                        assert(f[i] == f0[i]);
                        assert(l0.contains(f0[i]));
                        let j = choose|j: int| 0 <= j < l0.len() && l0[j] == f0[i];
                        assert(log[j] == l0[j]);
                    }
                }
                assert forall|j: int| 0 <= j < log.len() implies (position(f, #[trigger] log[j].key) matches Some(p) && log[j].seq <= f[p].seq) by {
                    lemma_position_push(f0, e, log[j].key);
                    if j < l0.len() {
                        assert(log[j] == l0[j]);
                    }
                }
            },
        }
    }
}

/// The valid record at offset `off` of the sector at `base` (`es` bytes,
/// program unit `ps`) of medium `c`: magic, header CRC, sizes in range,
/// record inside the sector, payload CRC.
pub open spec fn rec_at(c: Seq<u8>, base: int, off: int, es: int, ps: int) -> Option<EntryView> {
    let addr = base + off;
    let h = c.subrange(addr, addr + HEADER_SIZE);
    let klen = u16_le(h, 8) as int;
    let vlen = u16_le(h, 10) as int;
    if base < 0 || off < 0 || off + HEADER_SIZE > es || addr + HEADER_SIZE > c.len() {
        None
    } else if u32_le(h, 0) != MAGIC || spec_crc32(h.subrange(0, 16)) != u32_le(h, 16) {
        None
    } else if klen == 0 || klen > MAX_KEY || vlen > MAX_VALUE || off + rec_len(klen, vlen, ps) > es || addr + HEADER_SIZE + klen + vlen > c.len() {
        None
    } else if spec_crc32(c.subrange(addr + HEADER_SIZE, addr + HEADER_SIZE + klen + vlen)) != u32_le(h, 20) {
        None
    } else {
        Some(
            EntryView {
                key: c.subrange(addr + HEADER_SIZE, addr + HEADER_SIZE + klen),
                seq: u32_le(h, 4),
                addr: addr as u32,
                val_len: vlen as u16,
                deleted: u16_le(h, 12) & FLAG_DELETE != 0,
            },
        )
    }
}

/// The records of the sector at `base` from offset `off` on: valid records
/// one after the other, up to the first place that holds none.
pub open spec fn sector_log(c: Seq<u8>, base: int, off: int, es: int, ps: int) -> Seq<EntryView>
    decreases es - off,
{
    if ps <= 0 || off < 0 || off + HEADER_SIZE > es {
        Seq::empty()
    } else {
        match rec_at(c, base, off, es, ps) {
            Some(e) => {
                proof {
                    lemma_round_up(HEADER_SIZE + e.key.len() + e.val_len, ps);
                    let h = c.subrange(base + off, base + off + HEADER_SIZE);
                    assert(e.key.len() == u16_le(h, 8) as int);
                    assert(e.val_len as int == u16_le(h, 10) as int);
                    assert(off + rec_len(e.key.len() as int, e.val_len as int, ps) <= es);
                }
                seq![e] + sector_log(c, base, off + rec_len(e.key.len() as int, e.val_len as int, ps), es, ps)
            },
            None => Seq::empty(),
        }
    }
}

/// The offset where the log of the sector at `base`, read from `off`, ends.
pub open spec fn sector_log_end(c: Seq<u8>, base: int, off: int, es: int, ps: int) -> int
    decreases es - off,
{
    if ps <= 0 || off < 0 || off + HEADER_SIZE > es {
        off
    } else {
        match rec_at(c, base, off, es, ps) {
            Some(e) => {
                proof {
                    lemma_round_up(HEADER_SIZE + e.key.len() + e.val_len, ps);
                    let h = c.subrange(base + off, base + off + HEADER_SIZE);
                    assert(e.key.len() == u16_le(h, 8) as int);
                    assert(e.val_len as int == u16_le(h, 10) as int);
                }
                sector_log_end(c, base, off + rec_len(e.key.len() as int, e.val_len as int, ps), es, ps)
            },
            None => off,
        }
    }
}

/// Whether `c1` and `c2` agree on `[from, to)`.
pub open spec fn same_bytes_in(c1: Seq<u8>, c2: Seq<u8>, from: int, to: int) -> bool {
    forall|j: int| from <= j < to ==> #[trigger] c1[j] == c2[j]
}

/// A valid record reads the same from two media that agree on its bytes.
proof fn lemma_rec_at_same(c1: Seq<u8>, c2: Seq<u8>, base: int, off: int, es: int, ps: int)
    requires
        c1.len() == c2.len(),
        ps > 0,
        base >= 0,
        rec_at(c1, base, off, es, ps) matches Some(e) && same_bytes_in(
            c1,
            c2,
            base + off,
            base + off + rec_len(e.key.len() as int, e.val_len as int, ps),
        ),
    ensures
        rec_at(c2, base, off, es, ps) == rec_at(c1, base, off, es, ps),
{
    let e = rec_at(c1, base, off, es, ps)->Some_0;
    let addr = base + off;
    let h1 = c1.subrange(addr, addr + HEADER_SIZE);
    let h2 = c2.subrange(addr, addr + HEADER_SIZE);
    let klen = u16_le(h1, 8) as int;
    let vlen = u16_le(h1, 10) as int;
    lemma_round_up(HEADER_SIZE + klen + vlen, ps);
    assert(h1 =~= h2);
    assert(c1.subrange(addr + HEADER_SIZE, addr + HEADER_SIZE + klen + vlen) =~= c2.subrange(addr + HEADER_SIZE, addr + HEADER_SIZE + klen + vlen));
    assert(c1.subrange(addr + HEADER_SIZE, addr + HEADER_SIZE + klen) =~= c2.subrange(addr + HEADER_SIZE, addr + HEADER_SIZE + klen));
}

/// The log of a sector, read from `off`, depends only on the bytes before
/// the place it ends: a medium that agrees on them reads the same records
/// up to there, then goes on from there.
proof fn lemma_sector_log_prefix(c1: Seq<u8>, c2: Seq<u8>, base: int, off: int, es: int, ps: int)
    requires
        c1.len() == c2.len(),
        ps > 0,
        base >= 0,
        off >= 0,
        same_bytes_in(c1, c2, base + off, base + sector_log_end(c1, base, off, es, ps)),
    ensures
        sector_log_end(c1, base, off, es, ps) >= off,
        sector_log(c2, base, off, es, ps) == sector_log(c1, base, off, es, ps) + sector_log(
            c2,
            base,
            sector_log_end(c1, base, off, es, ps),
            es,
            ps,
        ),
        sector_log_end(c2, base, off, es, ps) == sector_log_end(c2, base, sector_log_end(c1, base, off, es, ps), es, ps),
    decreases es - off,
{
    if off + HEADER_SIZE > es {
        assert(sector_log(c1, base, off, es, ps) =~= Seq::<EntryView>::empty());
        assert(Seq::<EntryView>::empty() + sector_log(c2, base, off, es, ps) =~= sector_log(c2, base, off, es, ps));
    } else {
        match rec_at(c1, base, off, es, ps) {
            Some(e) => {
                let rec = rec_len(e.key.len() as int, e.val_len as int, ps);
                let h = c1.subrange(base + off, base + off + HEADER_SIZE);
                assert(e.key.len() == u16_le(h, 8) as int);
                assert(e.val_len as int == u16_le(h, 10) as int);
                lemma_round_up(HEADER_SIZE + e.key.len() + e.val_len, ps);
                lemma_sector_log_prefix_end(c1, base, off + rec, es, ps);
                lemma_rec_at_same(c1, c2, base, off, es, ps);
                lemma_sector_log_prefix(c1, c2, base, off + rec, es, ps);
                assert(sector_log(c2, base, off, es, ps) == seq![e] + sector_log(c2, base, off + rec, es, ps));
                assert(sector_log(c1, base, off, es, ps) == seq![e] + sector_log(c1, base, off + rec, es, ps));
                assert(seq![e] + (sector_log(c1, base, off + rec, es, ps) + sector_log(c2, base, sector_log_end(c1, base, off, es, ps), es, ps))
                    =~= (seq![e] + sector_log(c1, base, off + rec, es, ps)) + sector_log(c2, base, sector_log_end(c1, base, off, es, ps), es, ps));
            },
            None => {
                assert(sector_log(c1, base, off, es, ps) =~= Seq::<EntryView>::empty());
                assert(Seq::<EntryView>::empty() + sector_log(c2, base, off, es, ps) =~= sector_log(c2, base, off, es, ps));
            },
        }
    }
}

/// The end of a sector log is not before where it is read from.
proof fn lemma_sector_log_prefix_end(c: Seq<u8>, base: int, off: int, es: int, ps: int)
    requires
        ps > 0,
        off >= 0,
    ensures
        sector_log_end(c, base, off, es, ps) >= off,
    decreases es - off,
{
    if off + HEADER_SIZE <= es {
        if let Some(e) = rec_at(c, base, off, es, ps) {
            let h = c.subrange(base + off, base + off + HEADER_SIZE);
            assert(e.key.len() == u16_le(h, 8) as int);
            assert(e.val_len as int == u16_le(h, 10) as int);
            lemma_round_up(HEADER_SIZE + e.key.len() + e.val_len, ps);
            lemma_sector_log_prefix_end(c, base, off + rec_len(e.key.len() as int, e.val_len as int, ps), es, ps);
        }
    }
}

/// A sector whose bytes are the same on two media has the same log.
proof fn lemma_sector_log_same(c1: Seq<u8>, c2: Seq<u8>, base: int, off: int, es: int, ps: int)
    requires
        c1.len() == c2.len(),
        ps > 0,
        base >= 0,
        off >= 0,
        same_bytes_in(c1, c2, base + off, base + es),
    ensures
        sector_log(c2, base, off, es, ps) == sector_log(c1, base, off, es, ps),
        sector_log_end(c2, base, off, es, ps) == sector_log_end(c1, base, off, es, ps),
    decreases es - off,
{
    if off + HEADER_SIZE <= es {
        if let Some(e) = rec_at(c1, base, off, es, ps) {
            let h = c1.subrange(base + off, base + off + HEADER_SIZE);
            assert(e.key.len() == u16_le(h, 8) as int);
            assert(e.val_len as int == u16_le(h, 10) as int);
            lemma_round_up(HEADER_SIZE + e.key.len() + e.val_len, ps);
            lemma_rec_at_same(c1, c2, base, off, es, ps);
            lemma_sector_log_same(c1, c2, base, off + rec_len(e.key.len() as int, e.val_len as int, ps), es, ps);
        } else if let Some(e) = rec_at(c2, base, off, es, ps) {
            let h = c2.subrange(base + off, base + off + HEADER_SIZE);
            assert(e.key.len() == u16_le(h, 8) as int);
            assert(e.val_len as int == u16_le(h, 10) as int);
            lemma_round_up(HEADER_SIZE + e.key.len() + e.val_len, ps);
            lemma_rec_at_same(c2, c1, base, off, es, ps);
        }
    }
}

/// Every record of a sector log lies in the sector.
proof fn lemma_sector_log_addrs(c: Seq<u8>, base: int, off: int, es: int, ps: int)
    requires
        ps > 0,
        c.len() <= u32::MAX,
    ensures
        forall|j: int| 0 <= j < sector_log(c, base, off, es, ps).len() ==> base <= (#[trigger] sector_log(c, base, off, es, ps)[j]).addr
            < base + es,
    decreases es - off,
{
    if ps <= 0 || off < 0 || off + HEADER_SIZE > es {
    } else {
        if let Some(e) = rec_at(c, base, off, es, ps) {
            let h = c.subrange(base + off, base + off + HEADER_SIZE);
            assert(e.key.len() == u16_le(h, 8) as int);
            assert(e.val_len as int == u16_le(h, 10) as int);
            lemma_round_up(HEADER_SIZE + e.key.len() + e.val_len, ps);
            let next = off + rec_len(e.key.len() as int, e.val_len as int, ps);
            lemma_sector_log_addrs(c, base, next, es, ps);
            let l = sector_log(c, base, off, es, ps);
            let rest = sector_log(c, base, next, es, ps);
            assert(l == seq![e] + rest);
            assert forall|j: int| 0 <= j < l.len() implies base <= (#[trigger] l[j]).addr < base + es by {
                if j > 0 {
                    assert(l[j] == rest[j - 1]);
                }
            }
        }
    }
}

/// A record is in the log of the first `n` sectors exactly when it is in
/// the log of one of them.
proof fn lemma_device_log_mem(c: Seq<u8>, n: int, es: int, ps: int, x: EntryView)
    ensures
        device_log(c, n, es, ps).contains(x) <==> exists|t: int| 0 <= t < n && #[trigger] sector_log(c, t * es, 0, es, ps).contains(x),
    decreases n,
{
    if n > 0 {
        lemma_device_log_mem(c, n - 1, es, ps, x);
        let a = device_log(c, n - 1, es, ps);
        let b = sector_log(c, (n - 1) * es, 0, es, ps);
        assert(device_log(c, n, es, ps) == a + b);
        if (a + b).contains(x) {
            let j = choose|j: int| 0 <= j < (a + b).len() && (a + b)[j] == x;
            if j >= a.len() {
                assert(b[j - a.len()] == x);
                assert(sector_log(c, (n - 1) * es, 0, es, ps).contains(x));
            }
        }
        if exists|t: int| 0 <= t < n && #[trigger] sector_log(c, t * es, 0, es, ps).contains(x) {
            let t = choose|t: int| 0 <= t < n && #[trigger] sector_log(c, t * es, 0, es, ps).contains(x);
            if t == n - 1 {
                let j = choose|j: int| 0 <= j < b.len() && b[j] == x;
                assert((a + b)[a.len() + j] == x);
            } else {
                assert(a.contains(x));
                let j = choose|j: int| 0 <= j < a.len() && a[j] == x;
                assert((a + b)[j] == x);
            }
        }
    }
}

/// Media whose sectors hold the same logs hold the same log.
proof fn lemma_device_log_eq(c1: Seq<u8>, c2: Seq<u8>, n: int, es: int, ps: int)
    requires
        forall|t: int| 0 <= t < n ==> #[trigger] sector_log(c2, t * es, 0, es, ps) == sector_log(c1, t * es, 0, es, ps),
    ensures
        device_log(c2, n, es, ps) == device_log(c1, n, es, ps),
    decreases n,
{
    if n > 0 {
        lemma_device_log_eq(c1, c2, n - 1, es, ps);
        assert(sector_log(c2, (n - 1) * es, 0, es, ps) == sector_log(c1, (n - 1) * es, 0, es, ps));
    }
}

/// An erased medium holds no record.
proof fn lemma_erased_log_empty(c: Seq<u8>, n: int, es: int, ps: int)
    requires
        all_erased(c, 0, c.len() as int),
        n * es <= c.len(),
        es > 0,
        n >= 0,
    ensures
        device_log(c, n, es, ps) == Seq::<EntryView>::empty(),
        forall|t: int| 0 <= t < n ==> #[trigger] sector_log_end(c, t * es, 0, es, ps) == 0,
    decreases n,
{
    if n > 0 {
        lemma_sector_end(n - 1, es, n);
        lemma_erased_log_empty(c, n - 1, es, ps);
        assert(n - 1 >= 0);
        assert((n - 1) * es + es <= c.len());
        if HEADER_SIZE <= es {
            lemma_rec_at_erased(c, (n - 1) * es, 0, es, ps);
        }
        assert(sector_log(c, (n - 1) * es, 0, es, ps) =~= Seq::<EntryView>::empty());
        assert(device_log(c, n, es, ps) =~= Seq::<EntryView>::empty());
        assert forall|t: int| 0 <= t < n implies #[trigger] sector_log_end(c, t * es, 0, es, ps) == 0 by {
            lemma_sector_end(t, es, n);
            if HEADER_SIZE <= es {
                lemma_rec_at_erased(c, t * es, 0, es, ps);
            }
        }
    }
}

/// A `u32` stored little-endian at `i` reads back.
proof fn lemma_u32_at(s: Seq<u8>, i: int, x: u32)
    requires
        0 <= i,
        i + 4 <= s.len(),
        s[i] == le32(x)[0],
        s[i + 1] == le32(x)[1],
        s[i + 2] == le32(x)[2],
        s[i + 3] == le32(x)[3],
    ensures
        u32_le(s, i) == x,
{
    let b0 = s[i];
    let b1 = s[i + 1];
    let b2 = s[i + 2];
    let b3 = s[i + 3];
    assert((b0 as u32) | ((b1 as u32) << 8u32) | ((b2 as u32) << 16u32) | ((b3 as u32) << 24u32) == x) by (bit_vector)
        requires
            b0 == (x & 0xFF) as u8,
            b1 == ((x >> 8u32) & 0xFF) as u8,
            b2 == ((x >> 16u32) & 0xFF) as u8,
            b3 == (x >> 24u32) as u8,
    ;
}

/// A `u16` stored little-endian at `i` reads back.
proof fn lemma_u16_at(s: Seq<u8>, i: int, x: u16)
    requires
        0 <= i,
        i + 2 <= s.len(),
        s[i] == le16(x)[0],
        s[i + 1] == le16(x)[1],
    ensures
        u16_le(s, i) == x,
{
    let b0 = s[i];
    let b1 = s[i + 1];
    assert((b0 as u16) | ((b1 as u16) << 8u16) == x) by (bit_vector)
        requires
            b0 == (x & 0xFF) as u8,
            b1 == (x >> 8u16) as u8,
    ;
}

/// Four erased bytes are no record.
proof fn lemma_rec_at_erased(c: Seq<u8>, base: int, off: int, es: int, ps: int)
    requires
        all_erased(c, base + off, 4),
    ensures
        rec_at(c, base, off, es, ps) is None,
{
    let addr = base + off;
    if base >= 0 && off >= 0 && off + HEADER_SIZE <= es && addr + HEADER_SIZE <= c.len() {
        let h = c.subrange(addr, addr + HEADER_SIZE);
        let b0 = h[0];
        let b1 = h[1];
        let b2 = h[2];
        let b3 = h[3];
        assert(c[addr] == 0xFFu8 && c[addr + 1] == 0xFFu8 && c[addr + 2] == 0xFFu8 && c[addr + 3] == 0xFFu8);
        assert(((b0 as u32) | ((b1 as u32) << 8u32) | ((b2 as u32) << 16u32) | ((b3 as u32) << 24u32)) != MAGIC) by (bit_vector)
            requires
                b0 == 0xFFu8 && b1 == 0xFFu8 && b2 == 0xFFu8 && b3 == 0xFFu8,
        ;
    }
}

/// A record image written at `base + off` reads back as the record.
proof fn lemma_rec_at_image(c: Seq<u8>, base: int, off: int, es: int, ps: int, key: Seq<u8>, value: Seq<u8>, flags: u16, seq: u32)
    requires
        base >= 0,
        off >= 0,
        ps >= HEADER_SIZE,
        1 <= key.len() <= MAX_KEY,
        value.len() <= MAX_VALUE,
        off + rec_len(key.len() as int, value.len() as int, ps) <= es,
        base + off + rec_len(key.len() as int, value.len() as int, ps) <= c.len(),
        base + off <= u32::MAX,
        c.subrange(base + off, base + off + rec_len(key.len() as int, value.len() as int, ps)) == record_image(
            key,
            value,
            flags,
            seq,
            rec_len(key.len() as int, value.len() as int, ps),
        ),
    ensures
        rec_at(c, base, off, es, ps) == Some(
            EntryView { key, seq, addr: (base + off) as u32, val_len: value.len() as u16, deleted: flags & FLAG_DELETE != 0 },
        ),
{
    let rec = rec_len(key.len() as int, value.len() as int, ps);
    lemma_round_up(HEADER_SIZE + key.len() + value.len(), ps);
    let img = record_image(key, value, flags, seq, rec);
    let addr = base + off;
    let hh = header_head(seq, key.len() as u16, value.len() as u16, flags);
    let body = key + value;
    assert(hh.len() == 16);
    assert(img.len() == rec);
    let h = c.subrange(addr, addr + HEADER_SIZE);
    assert forall|j: int| 0 <= j < HEADER_SIZE implies #[trigger] h[j] == img[j] by {
        assert(c.subrange(addr, addr + rec)[j] == c[addr + j]);
    }
    lemma_u32_at(h, 0, MAGIC);
    lemma_u32_at(h, 4, seq);
    lemma_u16_at(h, 8, key.len() as u16);
    lemma_u16_at(h, 10, value.len() as u16);
    lemma_u16_at(h, 12, flags);
    lemma_u32_at(h, 16, spec_crc32(hh));
    lemma_u32_at(h, 20, spec_crc32(body));
    assert(h.subrange(0, 16) =~= hh);
    let pre = hh + le32(spec_crc32(hh)) + le32(spec_crc32(body));
    let fill = Seq::new((rec - HEADER_SIZE - body.len()) as nat, |i: int| 0xFFu8);
    assert(pre.len() == HEADER_SIZE);
    assert(img == pre + body + fill);
    assert forall|j: int| 0 <= j < body.len() implies #[trigger] img[HEADER_SIZE + j] == body[j] by {
        assert((pre + body)[HEADER_SIZE + j] == body[j]);
        assert((pre + body + fill)[HEADER_SIZE + j] == (pre + body)[HEADER_SIZE + j]);
    }
    assert(c.subrange(addr + HEADER_SIZE, addr + HEADER_SIZE + key.len() + value.len()) =~= body) by {
        assert forall|j: int| 0 <= j < body.len() implies #[trigger] c.subrange(addr + HEADER_SIZE, addr + HEADER_SIZE + key.len() + value.len())[j] == body[j] by {
            assert(c.subrange(addr, addr + rec)[HEADER_SIZE + j] == c[addr + HEADER_SIZE + j]);
            assert(img[HEADER_SIZE + j] == body[j]);
        }
    }
    assert(c.subrange(addr + HEADER_SIZE, addr + HEADER_SIZE + key.len()) =~= key) by {
        assert forall|j: int| 0 <= j < key.len() implies #[trigger] c.subrange(addr + HEADER_SIZE, addr + HEADER_SIZE + key.len())[j] == key[j] by {
            assert(c.subrange(addr, addr + rec)[HEADER_SIZE + j] == c[addr + HEADER_SIZE + j]);
            assert(img[HEADER_SIZE + j] == body[j]);
            assert(body[j] == key[j]);
        }
    }
}

/// The records of the first `k` sectors, sector after sector.
pub open spec fn device_log(c: Seq<u8>, k: int, es: int, ps: int) -> Seq<EntryView>
    decreases k,
{
    if k <= 0 {
        Seq::empty()
    } else {
        device_log(c, k - 1, es, ps) + sector_log(c, (k - 1) * es, 0, es, ps)
    }
}

/// Highest sequence number in `log` (0 when empty).
pub open spec fn max_seq_of(log: Seq<EntryView>) -> u32
    decreases log.len(),
{
    if log.len() == 0 {
        0
    } else {
        let m = max_seq_of(log.drop_last());
        if log.last().seq >= m { log.last().seq } else { m }
    }
}

/// Where the log continues after `log`: just past its record with the
/// highest sequence number (the last such one), 0 when empty.
pub open spec fn head_of(log: Seq<EntryView>, ps: int) -> int
    decreases log.len(),
{
    if log.len() == 0 {
        0
    } else {
        let x = log.last();
        if x.seq >= max_seq_of(log.drop_last()) {
            x.addr + rec_len(x.key.len() as int, x.val_len as int, ps)
        } else {
            head_of(log.drop_last(), ps)
        }
    }
}

/// What the index says of `key` (sequence number, value length, tombstone),
/// wherever its record lives.
pub open spec fn record_of(ix: Seq<EntryView>, key: Seq<u8>) -> Option<(u32, u16, bool)> {
    match position(ix, key) {
        Some(i) => Some((ix[i].seq, ix[i].val_len, ix[i].deleted)),
        None => None,
    }
}

/// The entry of `key` in `ix`, if any.
pub open spec fn entry_of(ix: Seq<EntryView>, key: Seq<u8>) -> Option<EntryView> {
    match position(ix, key) {
        Some(i) => Some(ix[i]),
        None => None,
    }
}

/// Keys of `ix` are pairwise distinct.
pub open spec fn distinct_keys(ix: Seq<EntryView>) -> bool {
    forall|i: int, j: int| 0 <= i < ix.len() && 0 <= j < ix.len() && i != j ==> #[trigger] ix[i].key != #[trigger] ix[j].key
}

proof fn lemma_position_same_records(a: Seq<EntryView>, b: Seq<EntryView>, key: Seq<u8>)
    requires
        same_records(a, b),
        distinct_keys(a),
    ensures
        position(a, key) == position(b, key),
        record_of(a, key) == record_of(b, key),
        distinct_keys(b),
{
    assert forall|i: int, j: int| 0 <= i < b.len() && 0 <= j < b.len() && i != j implies #[trigger] b[i].key != #[trigger] b[j].key by {
        assert(same_record(a[i], b[i]));
        assert(same_record(a[j], b[j]));
    }
    if exists|i: int| 0 <= i < a.len() && #[trigger] a[i].key == key {
        let ca = choose|i: int| 0 <= i < a.len() && #[trigger] a[i].key == key;
        assert(same_record(a[ca], b[ca]));
        assert(b[ca].key == key);
        let cb = choose|i: int| 0 <= i < b.len() && #[trigger] b[i].key == key;
        assert(same_record(a[cb], b[cb]));
        if ca != cb {
            assert(a[ca].key != a[cb].key);
        }
    } else {
        assert forall|i: int| 0 <= i < b.len() implies #[trigger] b[i].key != key by {
            assert(same_record(a[i], b[i]));
        }
    }
}

proof fn lemma_sector_end(s: int, es: int, n: int)
    requires
        0 <= s < n,
        es > 0,
    ensures
        s * es + es <= n * es,
        s * es >= 0,
{
    assert(s * es + es <= n * es) by (nonlinear_arith)
        requires
            0 <= s < n,
            es > 0,
    ;
    assert(s * es >= 0) by (nonlinear_arith)
        requires
            0 <= s,
            es > 0,
    ;
}

/// An address inside sector `a` has quotient `a` and the matching
/// remainder.
/// A record of `rec` bytes placed at `h`, inside sector `a` of `n`, ends
/// inside the medium.
proof fn lemma_fits_in_medium(h: int, rec: int, a: int, es: int, n: int, len: int)
    requires
        es > 0,
        h >= 0,
        0 <= a < n,
        n * es <= len,
        h / es == a,
        h % es + rec <= es,
    ensures
        h + rec <= len,
{
    vstd::arithmetic::div_mod::lemma_fundamental_div_mod(h, es);
    vstd::arithmetic::mul::lemma_mul_is_commutative(es, a);
    lemma_sector_end(a, es, n);
}

pub proof fn lemma_within_sector(x: int, a: int, es: int)
    requires
        es > 0,
        a >= 0,
        a * es <= x < a * es + es,
    ensures
        x / es == a,
        x % es == x - a * es,
{
    vstd::arithmetic::div_mod::lemma_fundamental_div_mod(x, es);
    vstd::arithmetic::div_mod::lemma_mod_bound(x, es);
    let q = x / es;
    assert(q * es == es * q) by (nonlinear_arith);
    if q < a {
        assert(q * es + es <= a * es) by (nonlinear_arith)
            requires
                q < a,
                es > 0,
        ;
    } else if q > a {
        assert(a * es + es <= q * es) by (nonlinear_arith)
            requires
                a < q,
                es > 0,
        ;
    }
}

/// The record of `e` still holds the same bytes in `new` as in `old`.
pub open spec fn kept(old: Seq<u8>, new: Seq<u8>, e: EntryView, ps: u32) -> bool {
    forall|j: int| e.addr <= j < e.addr + rec_len(e.key.len() as int, e.val_len as int, ps as int) ==> #[trigger] new[j] == old[j]
}

/// A range starting at `x` that does not run past the end of its sector
/// lies in that sector.
proof fn lemma_in_own_sector(x: int, l: int, es: int)
    requires
        x >= 0,
        l >= 0,
        es > 0,
        x % es + l <= es,
    ensures
        (x / es) * es <= x,
        x + l <= (x / es) * es + es,
        x / es >= 0,
{
    vstd::arithmetic::div_mod::lemma_fundamental_div_mod(x, es);
    vstd::arithmetic::div_mod::lemma_mod_bound(x, es);
    vstd::arithmetic::div_mod::lemma_div_pos_is_pos(x, es);
    assert((x / es) * es == es * (x / es)) by (nonlinear_arith);
}

/// Distinct sectors do not overlap.
proof fn lemma_sectors_disjoint(p: int, q: int, es: int)
    requires
        p >= 0,
        q >= 0,
        p != q,
        es > 0,
    ensures
        p * es + es <= q * es || q * es + es <= p * es,
{
    if p < q {
        assert(p * es + es <= q * es) by (nonlinear_arith)
            requires
                p < q,
                es > 0,
        ;
    } else {
        assert(q * es + es <= p * es) by (nonlinear_arith)
            requires
                q < p,
                es > 0,
        ;
    }
}

/// A record starts in sector `s` exactly when `s` is its sector index.
proof fn lemma_in_sector_div(addr: u32, s: u32, es: u32)
    requires
        es > 0,
    ensures
        in_sector(addr, s, es) <==> addr as int / es as int == s as int,
{
    let a = addr as int;
    let e = es as int;
    vstd::arithmetic::div_mod::lemma_fundamental_div_mod(a, e);
    vstd::arithmetic::div_mod::lemma_mod_bound(a, e);
    let q = a / e;
    assert(q * e == e * q) by (nonlinear_arith);
    if in_sector(addr, s, es) {
        let si = s as int;
        assert(si * e <= a < si * e + e);
        if q < si {
            assert(q * e + e <= si * e) by (nonlinear_arith)
                requires
                    q < si,
                    e > 0,
            ;
        } else if q > si {
            assert(si * e + e <= q * e) by (nonlinear_arith)
                requires
                    si < q,
                    e > 0,
            ;
        }
    }
}

/// Programming `img` over an erased range leaves exactly `img` there and
/// nothing else changed.
proof fn lemma_program_erased(c: Seq<u8>, addr: int, img: Seq<u8>)
    requires
        0 <= addr,
        addr + img.len() <= c.len(),
        all_erased(c, addr, img.len() as int),
    ensures
        nor_program(c, addr, img).len() == c.len(),
        nor_program(c, addr, img).subrange(addr, addr + img.len()) == img,
        forall|j: int| 0 <= j < c.len() && !(addr <= j < addr + img.len()) ==> #[trigger] nor_program(c, addr, img)[j] == c[j],
{
    let p = nor_program(c, addr, img);
    assert forall|j: int| addr <= j < addr + img.len() implies #[trigger] p[j] == img[j - addr] by {
        let x = img[j - addr];
        assert(c[j] == 0xFFu8);
        assert(0xFFu8 & x == x) by (bit_vector);
    }
    assert(p.subrange(addr, addr + img.len()) =~= img);
}

/// The base of sector `s` lies in sector `s`.
proof fn lemma_sector_base(s: int, es: int)
    requires
        s >= 0,
        es > 0,
    ensures
        (s * es) / es == s,
        (s * es) % es == 0,
{
    vstd::arithmetic::div_mod::lemma_div_multiples_vanish(s, es);
    vstd::arithmetic::div_mod::lemma_mod_multiples_basic(s, es);
    assert(s * es == es * s) by (nonlinear_arith);
}

impl<D: BlockDevice, const N: usize> Rufs<D, N> {
    /// Records `(key, seq, addr, val_len, deleted)` in the index (see
    /// [`upserted`]).
    fn upsert_index(&mut self, key: &[u8], seq: u32, addr: u32, val_len: u16, deleted: bool) -> (r: Result<(), Error<D::Error>>)
        requires
            key@.len() <= MAX_KEY,
            forall|i: int, j: int| 0 <= i < old(self).entries().len() && 0 <= j < old(self).entries().len() && i != j
                ==> #[trigger] old(self).entries()[i].key != #[trigger] old(self).entries()[j].key,
        ensures
            r is Ok || r == Err::<(), Error<D::Error>>(Error::IndexFull),
            final(self).device() == old(self).device(),
            Self::same_frame(&*final(self), &*old(self)),
            upserted(
                old(self).entries(),
                final(self).entries(),
                EntryView { key: key@, seq, addr, val_len, deleted },
                N as int,
                r is Ok,
            ),
    {
        let ghost e = EntryView { key: key@, seq, addr, val_len, deleted };
        match self.find_index(key) {
            Some(i) => {
                if self.index[i].seq >= seq {
                    return Ok(());
                }
                let k = match key_from_slice(key) {
                    Some(k) => k,
                    None => return Err(Error::TooLarge),
                };
                let ent = Entry { key: k, seq, addr, val_len, deleted };
                self.index.set(i, ent);
                assert(self.entries() =~= old(self).entries().update(i as int, e));
                Ok(())
            },
            None => {
                if self.index.len() >= N {
                    return Err(Error::IndexFull);
                }
                let k = match key_from_slice(key) {
                    Some(k) => k,
                    None => return Err(Error::TooLarge),
                };
                let ent = Entry { key: k, seq, addr, val_len, deleted };
                self.index.push(ent);
                assert(self.entries() =~= old(self).entries().push(e));
                Ok(())
            },
        }
    }

    /// `true` when some indexed record (live or tombstone) starts in sector
    /// `sector`.
    fn sector_has_entries(&self, sector: u32) -> (r: bool)
        requires
            self.wf(),
            sector < self.sector_count,
        ensures
            r == exists|i: int| 0 <= i < self.entries().len() && #[trigger] in_sector(self.entries()[i].addr, sector, self.esz),
    {
        proof {
            lemma_sector_end(sector as int, self.esz as int, self.sector_count as int);
        }
        let base = sector * self.esz;
        let end = base + self.esz;
        let mut i: usize = 0;
        while i < self.index.len()
            invariant
                i <= self.index@.len(),
                self.entries().len() == self.index@.len(),
                base == sector * self.esz,
                end == base + self.esz,
                forall|j: int| 0 <= j < i ==> !#[trigger] in_sector(self.entries()[j].addr, sector, self.esz),
            decreases self.index@.len() - i,
        {
            let a = self.index[i].addr;
            if a >= base && a < end {
                assert(in_sector(self.entries()[i as int].addr, sector, self.esz));
                return true;
            }
            i = i + 1;
        }
        false
    }

    /// Number of indexed records that start in sector `sector`.
    fn sector_entry_count(&self, sector: u32) -> (r: usize)
        requires
            self.wf(),
            sector < self.sector_count,
        ensures
            r == count_in_sector(self.entries(), sector, self.esz, self.entries().len() as int),
    {
        proof {
            lemma_sector_end(sector as int, self.esz as int, self.sector_count as int);
        }
        let base = sector * self.esz;
        let end = base + self.esz;
        let mut c: usize = 0;
        let mut i: usize = 0;
        while i < self.index.len()
            invariant
                i <= self.index@.len(),
                self.entries().len() == self.index@.len(),
                base == sector * self.esz,
                end == base + self.esz,
                c == count_in_sector(self.entries(), sector, self.esz, i as int),
                c <= i,
            decreases self.index@.len() - i,
        {
            let a = self.index[i].addr;
            if a >= base && a < end {
                c = c + 1;
            }
            i = i + 1;
        }
        c
    }
}

/// The record at `addr` starts in sector `sector` (sectors of `es` bytes).
pub open spec fn in_sector(addr: u32, sector: u32, es: u32) -> bool {
    sector * es <= addr < sector * es + es
}

/// Some record of `ix` starts in sector `sector`.
pub open spec fn has_entry_in(ix: Seq<EntryView>, sector: u32, es: u32) -> bool {
    exists|i: int| 0 <= i < ix.len() && #[trigger] in_sector(ix[i].addr, sector, es)
}

/// The record of `e` lies whole in the sector it starts in, which is not
/// the spare `f`, and, in the active sector `a`, before the head `h`.
pub open spec fn placed(e: EntryView, a: u32, f: u32, h: u32, es: u32, ps: u32) -> bool {
    let s = e.addr as int / es as int;
    &&& e.addr as int % es as int + rec_len(e.key.len() as int, e.val_len as int, ps as int) <= es
    &&& s != f
    &&& s == a ==> e.addr as int + rec_len(e.key.len() as int, e.val_len as int, ps as int) <= h
}

/// Number of records of `ix[0..k]` that start in sector `sector`.
pub open spec fn count_in_sector(ix: Seq<EntryView>, sector: u32, es: u32, k: int) -> nat
    decreases k,
{
    if k <= 0 {
        0
    } else {
        count_in_sector(ix, sector, es, k - 1) + if in_sector(ix[k - 1].addr, sector, es) { 1nat } else { 0nat }
    }
}

/// Total length of the records of `ix[0..k]` that start in sector `sector`.
pub open spec fn bytes_in(ix: Seq<EntryView>, sector: u32, es: u32, ps: u32, k: int) -> int
    decreases k,
{
    if k <= 0 {
        0
    } else {
        bytes_in(ix, sector, es, ps, k - 1) + if in_sector(ix[k - 1].addr, sector, es) {
            rec_len(ix[k - 1].key.len() as int, ix[k - 1].val_len as int, ps as int)
        } else {
            0
        }
    }
}

/// Positions in `ix[0..k]` of the records that start in sector `sector`,
/// ascending.
pub open spec fn sector_indices(ix: Seq<EntryView>, sector: u32, es: u32, k: int) -> Seq<int>
    decreases k,
{
    if k <= 0 {
        Seq::empty()
    } else {
        sector_indices(ix, sector, es, k - 1) + if in_sector(ix[k - 1].addr, sector, es) {
            seq![k - 1]
        } else {
            Seq::empty()
        }
    }
}

/// Total length of the records of `ix` at the positions `ids`.
pub open spec fn sum_lens(ix: Seq<EntryView>, ids: Seq<int>, ps: u32) -> int
    decreases ids.len(),
{
    if ids.len() == 0 {
        0
    } else {
        sum_lens(ix, ids.drop_last(), ps) + rec_len(ix[ids.last()].key.len() as int, ix[ids.last()].val_len as int, ps as int)
    }
}

/// Compaction victim among sectors `0..k` (and the fewest records it
/// holds): the first sector with the fewest records, at least one, other
/// than `head_sec` and `exclude`.
pub open spec fn victim_upto(ix: Seq<EntryView>, es: u32, exclude: Option<u32>, head_sec: u32, k: int) -> (Option<u32>, int)
    decreases k,
{
    if k <= 0 {
        (None, usize::MAX as int)
    } else {
        let prev = victim_upto(ix, es, exclude, head_sec, k - 1);
        let s = (k - 1) as u32;
        let c = count_in_sector(ix, s, es, ix.len() as int) as int;
        if s != head_sec && Some(s) != exclude && c > 0 && c < prev.1 {
            (Some(s), c)
        } else {
            prev
        }
    }
}

/// The sector a compaction empties, among `n` sectors.
pub open spec fn victim_of(ix: Seq<EntryView>, n: u32, es: u32, exclude: Option<u32>, head_sec: u32) -> Option<u32> {
    victim_upto(ix, es, exclude, head_sec, n as int).0
}

/// The record of `e` lies whole in the sector it starts in and, in the
/// active sector `a`, before the head `h`.
pub open spec fn placed_open(e: EntryView, a: u32, h: u32, es: u32, ps: u32) -> bool {
    let s = e.addr as int / es as int;
    &&& e.addr as int % es as int + rec_len(e.key.len() as int, e.val_len as int, ps as int) <= es
    &&& s == a ==> e.addr as int + rec_len(e.key.len() as int, e.val_len as int, ps as int) <= h
}

/// Value bytes of the record of `e` in `c`.
pub open spec fn value_at(c: Seq<u8>, e: EntryView) -> Seq<u8> {
    let start = e.addr as int + HEADER_SIZE + e.key.len();
    c.subrange(start, start + e.val_len as int)
}

/// Entry for entry, the records of `new` in `c1` hold the values that those
/// of `old` hold in `c0`.
pub open spec fn values_kept(c0: Seq<u8>, old: Seq<EntryView>, c1: Seq<u8>, new: Seq<EntryView>) -> bool {
    old.len() == new.len() && forall|i: int| 0 <= i < old.len() ==> #[trigger] value_at(c1, new[i]) == value_at(c0, old[i])
}

proof fn lemma_rec_len_pos(klen: int, vlen: int, ps: int)
    requires
        klen >= 0,
        vlen >= 0,
        ps > 0,
    ensures
        rec_len(klen, vlen, ps) >= HEADER_SIZE + klen + vlen,
{
    lemma_round_up(HEADER_SIZE + klen + vlen, ps);
}

/// `sector_indices` lists, in strictly ascending order, exactly the
/// positions below `k` of records in the sector, and their lengths add up
/// to `bytes_in`.
proof fn lemma_sector_indices(ix: Seq<EntryView>, sector: u32, es: u32, ps: u32, k: int)
    requires
        0 <= k <= ix.len(),
        ps > 0,
    ensures
        ({
            let ids = sector_indices(ix, sector, es, k);
            &&& forall|j: int| 0 <= j < ids.len() ==> 0 <= #[trigger] ids[j] < k && in_sector(ix[ids[j]].addr, sector, es)
            &&& forall|a: int, b: int| 0 <= a < b < ids.len() ==> #[trigger] ids[a] < #[trigger] ids[b]
            &&& forall|i: int| 0 <= i < k && #[trigger] in_sector(ix[i].addr, sector, es) ==> ids.contains(i)
            &&& sum_lens(ix, ids, ps) == bytes_in(ix, sector, es, ps, k)
            &&& bytes_in(ix, sector, es, ps, k) >= 0
        }),
    decreases k,
{
    if k > 0 {
        lemma_sector_indices(ix, sector, es, ps, k - 1);
        let prev = sector_indices(ix, sector, es, k - 1);
        let ids = sector_indices(ix, sector, es, k);
        let e = ix[k - 1];
        lemma_rec_len_pos(e.key.len() as int, e.val_len as int, ps as int);
        if in_sector(e.addr, sector, es) {
            assert(ids == prev.push(k - 1));
            assert(ids.drop_last() =~= prev);
            assert forall|i: int| 0 <= i < k && #[trigger] in_sector(ix[i].addr, sector, es) implies ids.contains(i) by {
                if i < k - 1 {
                    let w = choose|w: int| 0 <= w < prev.len() && prev[w] == i;
                    assert(ids[w] == i);
                } else {
                    assert(ids[prev.len() as int] == i);
                }
            }
        } else {
            assert(ids =~= prev);
        }
    }
}

/// The lengths of the first `m` positions grow by the next one, and never
/// pass the total.
proof fn lemma_sum_lens_take(ix: Seq<EntryView>, ids: Seq<int>, ps: u32, m: int)
    requires
        0 <= m < ids.len(),
        ps > 0,
        forall|j: int| 0 <= j < ids.len() ==> 0 <= #[trigger] ids[j] < ix.len(),
    ensures
        sum_lens(ix, ids.take(m + 1), ps) == sum_lens(ix, ids.take(m), ps) + rec_len(
            ix[ids[m]].key.len() as int,
            ix[ids[m]].val_len as int,
            ps as int,
        ),
        sum_lens(ix, ids.take(m + 1), ps) <= sum_lens(ix, ids, ps),
        sum_lens(ix, ids.take(m), ps) >= 0,
    decreases ids.len() - m,
{
    assert(ids.take(m + 1).drop_last() =~= ids.take(m));
    lemma_sum_lens_nonneg(ix, ids.take(m), ps);
    if m + 1 < ids.len() {
        lemma_sum_lens_take(ix, ids, ps, m + 1);
        let e = ix[ids[m + 1]];
        lemma_rec_len_pos(e.key.len() as int, e.val_len as int, ps as int);
    } else {
        assert(ids.take(m + 1) =~= ids);
    }
}

proof fn lemma_sum_lens_nonneg(ix: Seq<EntryView>, ids: Seq<int>, ps: u32)
    requires
        ps > 0,
    ensures
        sum_lens(ix, ids, ps) >= 0,
    decreases ids.len(),
{
    if ids.len() > 0 {
        lemma_sum_lens_nonneg(ix, ids.drop_last(), ps);
        let e = ix[ids.last()];
        lemma_round_up(HEADER_SIZE + e.key.len() + e.val_len, ps as int);
    }
}

/// The victim, when there is one, is a sector below `k`, neither
/// `head_sec` nor `exclude`.
proof fn lemma_victim_upto(ix: Seq<EntryView>, es: u32, exclude: Option<u32>, head_sec: u32, k: int)
    requires
        k <= u32::MAX + 1,
    ensures
        victim_upto(ix, es, exclude, head_sec, k).0 matches Some(v) ==> v < k && v != head_sec && Some(v) != exclude,
    decreases k,
{
    if k > 0 {
        lemma_victim_upto(ix, es, exclude, head_sec, k - 1);
    }
}

/// The records of `ix` at the positions `ids`, in that order.
pub open spec fn entries_at(ix: Seq<EntryView>, ids: Seq<int>) -> Seq<EntryView> {
    Seq::new(ids.len(), |x: int| ix[ids[x]])
}

/// Each record of `ix` holds its key on `c`, right after its header.
pub open spec fn keys_stored(c: Seq<u8>, ix: Seq<EntryView>) -> bool {
    forall|i: int| 0 <= i < ix.len() ==> c.subrange(
        (#[trigger] ix[i]).addr as int + HEADER_SIZE,
        ix[i].addr as int + HEADER_SIZE + ix[i].key.len(),
    ) == ix[i].key
}

/// The records of a sector log hold their keys right after their headers.
proof fn lemma_sector_log_keys(c: Seq<u8>, base: int, off: int, es: int, ps: int)
    requires
        ps > 0,
        base >= 0,
        c.len() <= u32::MAX,
    ensures
        forall|j: int| 0 <= j < sector_log(c, base, off, es, ps).len() ==> {
            let x = #[trigger] sector_log(c, base, off, es, ps)[j];
            &&& x.addr as int + HEADER_SIZE + x.key.len() <= c.len()
            &&& c.subrange(x.addr as int + HEADER_SIZE, x.addr as int + HEADER_SIZE + x.key.len()) == x.key
        },
    decreases es - off,
{
    if ps <= 0 || off < 0 || off + HEADER_SIZE > es {
    } else {
        if let Some(e) = rec_at(c, base, off, es, ps) {
            let h = c.subrange(base + off, base + off + HEADER_SIZE);
            assert(e.key.len() == u16_le(h, 8) as int);
            assert(e.val_len as int == u16_le(h, 10) as int);
            lemma_round_up(HEADER_SIZE + e.key.len() + e.val_len, ps);
            let next = off + rec_len(e.key.len() as int, e.val_len as int, ps);
            lemma_sector_log_keys(c, base, next, es, ps);
            let l = sector_log(c, base, off, es, ps);
            let rest = sector_log(c, base, next, es, ps);
            assert(l == seq![e] + rest);
            assert(e.addr as int == base + off);
            assert forall|j: int| 0 <= j < l.len() implies {
                let x = #[trigger] l[j];
                &&& x.addr as int + HEADER_SIZE + x.key.len() <= c.len()
                &&& c.subrange(x.addr as int + HEADER_SIZE, x.addr as int + HEADER_SIZE + x.key.len()) == x.key
            } by {
                if j > 0 {
                    assert(l[j] == rest[j - 1]);
                }
            }
        }
    }
}

/// Every record in the log holds its key right after its header.
proof fn lemma_log_keys(c: Seq<u8>, n: int, es: int, ps: int, x: EntryView)
    requires
        ps > 0,
        es > 0,
        c.len() <= u32::MAX,
        device_log(c, n, es, ps).contains(x),
    ensures
        x.addr as int + HEADER_SIZE + x.key.len() <= c.len(),
        c.subrange(x.addr as int + HEADER_SIZE, x.addr as int + HEADER_SIZE + x.key.len()) == x.key,
{
    lemma_device_log_mem(c, n, es, ps, x);
    let t = choose|t: int| 0 <= t < n && #[trigger] sector_log(c, t * es, 0, es, ps).contains(x);
    assert(t * es >= 0) by (nonlinear_arith)
        requires
            t >= 0,
            es > 0,
    ;
    lemma_sector_log_keys(c, t * es, 0, es, ps);
    let l = sector_log(c, t * es, 0, es, ps);
    let j = choose|j: int| 0 <= j < l.len() && l[j] == x;
    assert(l[j] == x);
}

/// The entries of a folded index are records of the log.
proof fn lemma_fold_members(log: Seq<EntryView>, cap: int)
    ensures
        fold_index(log, cap) matches Some(f) ==> forall|i: int| 0 <= i < f.len() ==> log.contains(#[trigger] f[i]),
    decreases log.len(),
{
    if log.len() > 0 {
        let l0 = log.drop_last();
        let e = log.last();
        lemma_fold_members(l0, cap);
        if let Some(f0) = fold_index(l0, cap) {
            if let Some(f) = upsert_spec(f0, e, cap) {
                assert forall|i: int| 0 <= i < f.len() implies log.contains(#[trigger] f[i]) by {
                    if f[i] == e {
                        assert(log[log.len() - 1] == e);
                    } else {
                        match position(f0, e.key) {
                            Some(p) => {
                                assert(f[i] == f0[i]);
                            },
                            None => {
                                assert(f[i] == f0[i]);
                            },
                        }
                        assert(l0.contains(f0[i]));
                        let j = choose|j: int| 0 <= j < l0.len() && l0[j] == f0[i];
                        assert(log[j] == f0[i]);
                    }
                }
            }
        }
    }
}

/// The records of a sector log lie whole in the sector.
proof fn lemma_sector_log_fit(c: Seq<u8>, base: int, off: int, es: int, ps: int)
    requires
        ps > 0,
        base >= 0,
        off >= 0,
        c.len() <= u32::MAX,
    ensures
        forall|j: int| 0 <= j < sector_log(c, base, off, es, ps).len() ==> {
            let x = #[trigger] sector_log(c, base, off, es, ps)[j];
            &&& base <= x.addr
            &&& x.addr as int + rec_len(x.key.len() as int, x.val_len as int, ps) <= base + es
        },
    decreases es - off,
{
    if ps <= 0 || off < 0 || off + HEADER_SIZE > es {
    } else {
        if let Some(e) = rec_at(c, base, off, es, ps) {
            let h = c.subrange(base + off, base + off + HEADER_SIZE);
            assert(e.key.len() == u16_le(h, 8) as int);
            assert(e.val_len as int == u16_le(h, 10) as int);
            lemma_round_up(HEADER_SIZE + e.key.len() + e.val_len, ps);
            let next = off + rec_len(e.key.len() as int, e.val_len as int, ps);
            lemma_sector_log_fit(c, base, next, es, ps);
            let l = sector_log(c, base, off, es, ps);
            let rest = sector_log(c, base, next, es, ps);
            assert(l == seq![e] + rest);
            assert(e.addr as int == base + off);
            assert forall|j: int| 0 <= j < l.len() implies {
                let x = #[trigger] l[j];
                &&& base <= x.addr
                &&& x.addr as int + rec_len(x.key.len() as int, x.val_len as int, ps) <= base + es
            } by {
                if j > 0 {
                    assert(l[j] == rest[j - 1]);
                }
            }
        }
    }
}

/// A record of the log lies whole in one of the `n` sectors.
proof fn lemma_log_fit(c: Seq<u8>, n: int, es: int, ps: int, x: EntryView)
    requires
        ps > 0,
        es > 0,
        c.len() <= u32::MAX,
        device_log(c, n, es, ps).contains(x),
    ensures
        x.addr as int / es < n,
        x.addr as int % es + rec_len(x.key.len() as int, x.val_len as int, ps) <= es,
{
    lemma_device_log_mem(c, n, es, ps, x);
    let t = choose|t: int| 0 <= t < n && #[trigger] sector_log(c, t * es, 0, es, ps).contains(x);
    assert(t * es >= 0) by (nonlinear_arith)
        requires
            t >= 0,
            es > 0,
    ;
    lemma_sector_log_fit(c, t * es, 0, es, ps);
    let l = sector_log(c, t * es, 0, es, ps);
    let j = choose|j: int| 0 <= j < l.len() && l[j] == x;
    assert(l[j] == x);
    lemma_round_up(HEADER_SIZE + x.key.len() + x.val_len, ps);
    lemma_within_sector(x.addr as int, t, es);
}

/// What reading `key` gives on medium `c` with index `ix`.
pub open spec fn reads_in(c: Seq<u8>, ix: Seq<EntryView>, key: Seq<u8>) -> Option<Seq<u8>> {
    match entry_of(ix, key) {
        Some(e) => if e.deleted { None } else { Some(value_at(c, e)) },
        None => None,
    }
}

/// The records of `log` on medium `c` agree with index `ix`: each belongs
/// to an indexed key and is older than its indexed record or a copy of it
/// (same key, sequence number, length and tombstone, same value bytes), and
/// every indexed record is in the log.
pub open spec fn log_agrees(c: Seq<u8>, log: Seq<EntryView>, ix: Seq<EntryView>) -> bool {
    &&& forall|j: int| 0 <= j < log.len() ==> (position(ix, #[trigger] log[j].key) matches Some(i) && (log[j].seq < ix[i].seq || (
        same_record(log[j], ix[i]) && value_at(c, log[j]) == value_at(c, ix[i]))))
    &&& forall|i: int| 0 <= i < ix.len() ==> log.contains(#[trigger] ix[i])
}

/// Law (remount of an agreeing medium): a medium whose log agrees with an
/// index folds, on remount, to an index under which every key reads what it
/// reads under the first.
pub proof fn lemma_remount_agrees(c: Seq<u8>, log: Seq<EntryView>, ix: Seq<EntryView>, cap: int)
    requires
        distinct_keys(ix),
        ix.len() <= cap,
        log_agrees(c, log, ix),
    ensures
        fold_index(log, cap) matches Some(f) && forall|k: Seq<u8>| #[trigger] reads_in(c, f, k) == reads_in(c, ix, k),
{
    assert forall|j: int| 0 <= j < log.len() implies position(ix, #[trigger] log[j].key) is Some by {}
    lemma_fold_agrees(log, ix, cap);
    let f = fold_index(log, cap)->Some_0;
    assert forall|k: Seq<u8>| #[trigger] reads_in(c, f, k) == reads_in(c, ix, k) by {
        match position(ix, k) {
            Some(i) => {
                assert(log.contains(ix[i]));
                let j = choose|j: int| 0 <= j < log.len() && log[j] == ix[i];
                assert(log[j].key == k);
                let q = position(f, log[j].key)->Some_0;
                assert(log[j].seq <= f[q].seq);
                assert(log.contains(f[q]));
                let j2 = choose|j2: int| 0 <= j2 < log.len() && log[j2] == f[q];
                assert(f[q].key == k);
                assert(position(ix, log[j2].key) == Some(i));
                assert(same_record(f[q], ix[i]) && value_at(c, f[q]) == value_at(c, ix[i]));
            },
            None => {
                if let Some(q) = position(f, k) {
                    assert(log.contains(f[q]));
                    let j2 = choose|j2: int| 0 <= j2 < log.len() && log[j2] == f[q];
                    assert(position(ix, log[j2].key) is Some);
                }
            },
        }
    }
}

/// Mounting a medium whose log folds to `ix` and continues at `h` finds its
/// reserve sectors without compacting: some sector other than the one `h`
/// is in holds no record of `ix` when `h` is inside a sector, and two do
/// when it is on a sector boundary.
pub open spec fn mount_needs_no_compaction(ix: Seq<EntryView>, h: int, n: u32, es: u32) -> bool {
    if h != 0 && h % es as int != 0 {
        exists|s: u32| s < n && s as int != h / es as int && !#[trigger] has_entry_in(ix, s, es)
    } else {
        exists|s1: u32, s2: u32| s1 < n && s2 < n && s1 != s2 && !#[trigger] has_entry_in(ix, s1, es) && !#[trigger] has_entry_in(ix, s2, es)
    }
}

/// Mounting a medium whose log folds to `ix` and continues at `h`, inside a
/// sector, has to compact, and the compaction fits: no other sector is free
/// of records of `ix`, the rest of the sector of `h` is erased, every record
/// of `ix` lies whole in its sector and, in the sector of `h`, before `h`,
/// and the records of the sector chosen for compaction (see [`victim_of`])
/// fit after `h` in the sector of `h`.
pub open spec fn mount_compaction_fits(ix: Seq<EntryView>, c: Seq<u8>, h: int, n: u32, es: u32, ps: u32) -> bool {
    let a = h / es as int;
    &&& es > 0
    &&& h != 0 && h % es as int != 0
    &&& !mount_needs_no_compaction(ix, h, n, es)
    &&& all_erased(c, h, a * es as int + es as int - h)
    &&& forall|i: int| 0 <= i < ix.len() ==> placed_open(#[trigger] ix[i], a as u32, h as u32, es, ps)
    &&& victim_of(ix, n, es, Some(a as u32), a as u32) matches Some(v) && h + bytes_in(ix, v, es, ps, ix.len() as int) < a * es as int
        + es as int
}

/// Erasing a sector where no record of `ix` starts keeps the values of
/// `ix`, whose records each lie whole in their sector.
proof fn lemma_erase_keeps_values(c0: Seq<u8>, c1: Seq<u8>, ix: Seq<EntryView>, s: u32, es: u32, ps: u32)
    requires
        es > 0,
        ps > 0,
        !has_entry_in(ix, s, es),
        c1 == erased_range(c0, s as int * es as int, es as int),
        forall|i: int| 0 <= i < ix.len() ==> (#[trigger] ix[i]).addr as int % es as int + rec_len(
            ix[i].key.len() as int,
            ix[i].val_len as int,
            ps as int,
        ) <= es,
        forall|i: int| 0 <= i < ix.len() ==> (#[trigger] ix[i]).addr as int + rec_len(ix[i].key.len() as int, ix[i].val_len as int, ps as int)
            <= c0.len(),
    ensures
        forall|i: int| 0 <= i < ix.len() ==> #[trigger] value_at(c1, ix[i]) == value_at(c0, ix[i]),
{
    assert forall|i: int| 0 <= i < ix.len() implies #[trigger] value_at(c1, ix[i]) == value_at(c0, ix[i]) by {
        let x = ix[i];
        let rx = rec_len(x.key.len() as int, x.val_len as int, ps as int);
        lemma_round_up(HEADER_SIZE + x.key.len() + x.val_len, ps as int);
        assert(!in_sector(x.addr, s, es));
        lemma_in_sector_div(x.addr, s, es);
        lemma_in_own_sector(x.addr as int, rx, es as int);
        let t = x.addr as int / es as int;
        lemma_sectors_disjoint(t, s as int, es as int);
        assert(value_at(c1, x) =~= value_at(c0, x)) by {
            assert forall|j: int| 0 <= j < x.val_len implies #[trigger] value_at(c1, x)[j] == value_at(c0, x)[j] by {
                let y = x.addr + HEADER_SIZE + x.key.len() + j;
                assert(c1[y] == c0[y]);
            }
        }
    }
}

proof fn lemma_same_records_trans(a: Seq<EntryView>, b: Seq<EntryView>, c: Seq<EntryView>)
    requires
        same_records(a, b),
        same_records(b, c),
    ensures
        same_records(a, c),
{
    assert forall|i: int| 0 <= i < a.len() implies same_record(#[trigger] a[i], c[i]) by {
        assert(same_record(a[i], b[i]));
        assert(same_record(b[i], c[i]));
    }
}

impl<D: BlockDevice, const N: usize> Rufs<D, N> {
    /// Makes room for a record of `rec` bytes in the active sector: when it
    /// does not fit, moves to the reserve sector and finds another reserve.
    #[verifier::rlimit(30)]
    #[verifier::spinoff_prover]
    fn ensure_room(&mut self, rec: u32, in_compaction: bool) -> (r: Result<(), Error<D::Error>>)
        requires
            old(self).wf(),
        ensures
            old(self).device().healthy() ==> final(self).device().healthy(),
            r matches Err(e) ==> e is Device || e is NoSpace,
            final(self).wf(),
            same_records(old(self).entries(), final(self).entries()),
            final(self).geom() == old(self).geom(),
            final(self).next_seq() == old(self).next_seq(),
            final(self).device().contents().len() == old(self).device().contents().len(),
            old(self).fits_in_place(rec as int) ==> r is Ok && *final(self) == *old(self),
            !old(self).fits_in_place(rec as int) && (exists|s: u32| #[trigger] old(self).free_candidate(
                s,
                Some(old(self).spare_sector()),
                old(self).spare_sector() as int,
            )) ==> {
                &&& r matches Err(e) ==> e is Device
                &&& old(self).device().healthy() ==> r is Ok
                &&& r is Err ==> final(self).entries() == old(self).entries() && final(self).device().contents() == old(
                    self,
                ).device().contents()
                &&& r is Err && old(self).clean() && old(self).consistent() ==> final(self).consistent()
                &&& r is Ok ==> {
                    &&& final(self).entries() == old(self).entries()
                    &&& final(self).next_seq() == old(self).next_seq()
                    &&& final(self).active_sector() == old(self).spare_sector()
                    &&& final(self).head_pos() as int == old(self).spare_sector() as int * old(self).geom().1 as int
                    &&& old(self).free_candidate(final(self).spare_sector(), Some(old(self).spare_sector()), old(self).spare_sector() as int)
                    &&& final(self).device().contents() == erased_range(
                        old(self).device().contents(),
                        final(self).spare_sector() as int * old(self).geom().1 as int,
                        old(self).geom().1 as int,
                    )
                }
            },
            !in_compaction && rec > 0 && old(self).clean() && old(self).compacts_within(rec as int) ==> {
                &&& r matches Err(e) ==> e is Device
                &&& old(self).device().healthy() ==> r is Ok
                &&& r is Err && old(self).consistent() ==> {
                    let es = old(self).geom().1 as int;
                    let c = final(self).device().contents();
                    let base = final(self).active_sector() as int * es;
                    &&& values_kept(old(self).device().contents(), old(self).entries(), c, final(self).entries())
                    &&& rec_at(c, base, final(self).head_pos() as int - base, es, old(self).geom().2 as int) is None ==> final(self).agrees()
                }
                &&& r is Ok ==> (victim_of(
                    old(self).entries(),
                    old(self).geom().0,
                    old(self).geom().1,
                    Some(old(self).spare_sector()),
                    old(self).spare_sector(),
                ) matches Some(v) ==> {
                    &&& final(self).clean()
                    &&& final(self).active_sector() == old(self).spare_sector()
                    &&& final(self).spare_sector() == v
                    &&& final(self).head_pos() as int == old(self).spare_sector() as int * old(self).geom().1 as int + bytes_in(
                        old(self).entries(),
                        v,
                        old(self).geom().1,
                        old(self).geom().2,
                        old(self).entries().len() as int,
                    )
                    &&& final(self).fits_in_place(rec as int)
                    &&& values_kept(old(self).device().contents(), old(self).entries(), final(self).device().contents(), final(self).entries())
                })
            },
            !in_compaction && rec > 0 && old(self).clean() && old(self).consistent() && old(self).compacts_within(rec as int) && r is Ok
                ==> final(self).consistent(),
        decreases if in_compaction { 1int } else { 5int },
    {
        let ghost cw = !in_compaction && rec > 0 && old(self).clean() && old(self).compacts_within(rec as int);
        let off = self.head % self.esz;
        if self.head / self.esz == self.active_sec && off as u64 + rec as u64 <= self.esz as u64 {
            proof {
                assert(same_records(self.entries(), self.entries()));
            }
            return Ok(());
        }
        let entered = self.free_sector;
        proof {
            lemma_sector_end(entered as int, self.esz as int, self.sector_count as int);
            lemma_sector_base(entered as int, self.esz as int);
        }
        self.head = entered * self.esz;
        self.active_sec = entered;
        let ghost mid = *self;
        proof {
            assert(self.entries() == old(self).entries());
            assert(self.geom() == old(self).geom());
            assert(mid.head_pos() as int / mid.geom().1 as int == entered as int);
            if exists|s: u32| #[trigger] old(self).free_candidate(s, Some(entered), entered as int) {
                let w = choose|s: u32| #[trigger] old(self).free_candidate(s, Some(entered), entered as int);
                assert(mid.free_candidate(w, Some(entered), mid.head_pos() as int / mid.geom().1 as int));
            }
            if cw {
                let es = self.esz as int;
                lemma_sector_end(entered as int, es, self.sector_count as int);
                assert forall|i: int| 0 <= i < mid.entries().len() implies placed_open(#[trigger] mid.entries()[i], mid.active_sector(), mid.head_pos(), mid.geom().1, mid.geom().2) by {
                    assert(placed(old(self).entries()[i], old(self).active_sec, old(self).free_sector, old(self).head, old(self).esz, old(self).psz));
                }
                assert(mid.open_layout());
                let v = victim_of(old(self).entries(), self.sector_count, self.esz, Some(entered), entered)->0;
                lemma_sector_indices(old(self).entries(), v, self.esz, self.psz, old(self).entries().len() as int);
                assert(mid.compaction_fits(Some(entered), mid.active_sector()));
                assert forall|s: u32| !#[trigger] mid.free_candidate(s, Some(entered), mid.head_pos() as int / mid.geom().1 as int) by {
                    assert(!old(self).free_candidate(s, Some(entered), entered as int));
                }
                if old(self).consistent() {
                    assert(self.psz <= self.esz) by (nonlinear_arith)
                        requires
                            self.esz % self.psz == 0,
                            self.esz > 0,
                            self.psz > 0,
                    ;
                    lemma_rec_at_erased(self.dev.contents(), entered as int * es, 0, es, self.psz as int);
                    assert(sector_log_end(self.dev.contents(), entered as int * es, 0, es, self.psz as int) == 0);
                    Self::lemma_consistent_keys(*old(self));
                    assert(mid.consistent());
                    assert(Self::log_ready(mid));
                }
            }
        }
        proof {
            if old(self).clean() && old(self).consistent() {
                let c = self.dev.contents();
                let es = self.esz as int;
                assert(self.psz <= self.esz) by (nonlinear_arith)
                    requires
                        self.esz % self.psz == 0,
                        self.esz > 0,
                        self.psz > 0,
                ;
                lemma_rec_at_erased(c, entered as int * es, 0, es, self.psz as int);
                assert(sector_log_end(c, entered as int * es, 0, es, self.psz as int) == 0);
                assert(mid.medium_log() == old(self).medium_log());
                assert(mid.consistent());
            }
        }
        let s = match self.find_free_sector_inner(Some(entered), in_compaction) {
            Ok(s) => s,
            Err(e) => {
                proof {
                    if exists|t: u32| #[trigger] old(self).free_candidate(t, Some(entered), entered as int) {
                        let w = choose|t: u32| #[trigger] old(self).free_candidate(t, Some(entered), entered as int);
                        assert(mid.free_candidate(w, Some(entered), mid.head_pos() as int / mid.geom().1 as int));
                        assert(self.medium_log() == mid.medium_log());
                    }
                }
                return Err(e);
            },
        };
        let ghost aft = *self;
        self.free_sector = s;
        proof {
            if exists|t: u32| #[trigger] old(self).free_candidate(t, Some(entered), entered as int) {
                assert(mid.free_candidate(s, Some(entered), entered as int));
                assert(old(self).free_candidate(s, Some(entered), entered as int));
            }
            if cw {
                let v = s;
                assert(Self::compacted(mid, aft, v));
                let es = self.esz as int;
                let h = self.head as int;
                let a = entered as int;
                assert(a * es <= h);
                assert(h + rec <= a * es + es);
                lemma_within_sector(h, a, es);
                assert forall|i: int| 0 <= i < self.entries().len() implies placed(#[trigger] self.entries()[i], self.active_sec, self.free_sector, self.head, self.esz, self.psz) by {
                    assert(placed_open(aft.entries()[i], aft.active_sector(), aft.head_pos(), aft.geom().1, aft.geom().2));
                    assert(!in_sector(aft.entries()[i].addr, v, self.esz));
                    lemma_in_sector_div(aft.entries()[i].addr, v, self.esz);
                }
                assert(self.clean());
                if old(self).consistent() {
                    assert(Self::compacted_log(mid, aft, v));
                    Self::lemma_compacted_consistent(mid, aft, v);
                    assert(self.medium_log() == aft.medium_log());
                }
            }
        }
        Ok(())
    }

    /// Looks for a sector with no indexed record (other than `exclude` and
    /// the one `head` is in), erases it and returns it; compacts once when
    /// none is found, unless already compacting.
    #[verifier::rlimit(30)]
    #[verifier::spinoff_prover]
    fn find_free_sector_inner(&mut self, exclude: Option<u32>, in_compaction: bool) -> (r: Result<u32, Error<D::Error>>)
        requires
            old(self).wf(),
        ensures
            old(self).device().healthy() ==> final(self).device().healthy(),
            r matches Err(e) ==> e is Device || e is NoSpace,
            final(self).wf(),
            same_records(old(self).entries(), final(self).entries()),
            final(self).geom() == old(self).geom(),
            final(self).next_seq() == old(self).next_seq(),
            final(self).device().contents().len() == old(self).device().contents().len(),
            r matches Ok(sec) ==> sec < final(self).sector_count && Some(sec) != exclude,
            (exists|s: u32| #[trigger] old(self).free_candidate(s, exclude, old(self).head_pos() as int / old(self).geom().1 as int)) ==> {
                &&& r matches Err(e) ==> e is Device
                &&& old(self).device().healthy() ==> r is Ok
                &&& r is Err ==> final(self).entries() == old(self).entries() && Self::same_frame(&*final(self), &*old(self))
                    && final(self).device().contents() == old(self).device().contents()
                &&& r matches Ok(sec) ==> {
                    &&& old(self).free_candidate(sec, exclude, old(self).head_pos() as int / old(self).geom().1 as int)
                    &&& final(self).entries() == old(self).entries()
                    &&& Self::same_frame(&*final(self), &*old(self))
                    &&& final(self).device().contents() == erased_range(
                        old(self).device().contents(),
                        sec as int * old(self).geom().1 as int,
                        old(self).geom().1 as int,
                    )
                }
            },
            !in_compaction && old(self).compaction_fits(exclude, old(self).active_sector()) && old(self).head_pos() as int
                / old(self).geom().1 as int == old(self).active_sector() && !(exists|s: u32| #[trigger] old(self).free_candidate(
                s,
                exclude,
                old(self).head_pos() as int / old(self).geom().1 as int,
            )) ==> {
                &&& r matches Err(e) ==> e is Device
                &&& old(self).device().healthy() ==> r is Ok
                &&& r is Err && old(self).consistent() ==> {
                    let es = old(self).geom().1 as int;
                    let c = final(self).device().contents();
                    let base = final(self).active_sector() as int * es;
                    &&& values_kept(old(self).device().contents(), old(self).entries(), c, final(self).entries())
                    &&& final(self).active_sector() == old(self).active_sector()
                    &&& rec_at(c, base, final(self).head_pos() as int - base, es, old(self).geom().2 as int) is None ==> final(self).agrees()
                }
                &&& r matches Ok(sec) ==> (victim_of(
                    old(self).entries(),
                    old(self).geom().0,
                    old(self).geom().1,
                    exclude,
                    old(self).active_sector(),
                ) matches Some(v) ==> sec == v && Self::compacted(*old(self), *final(self), v))
            },
            !in_compaction && old(self).compaction_fits(exclude, old(self).active_sector()) && old(self).head_pos() as int
                / old(self).geom().1 as int == old(self).active_sector() && !(exists|s: u32| #[trigger] old(self).free_candidate(
                s,
                exclude,
                old(self).head_pos() as int / old(self).geom().1 as int,
            )) && Self::log_ready(*old(self)) && r is Ok ==> (victim_of(
                old(self).entries(),
                old(self).geom().0,
                old(self).geom().1,
                exclude,
                old(self).active_sector(),
            ) matches Some(v) ==> Self::compacted_log(*old(self), *final(self), v)),
        decreases if in_compaction { 0int } else { 4int },
    {
        let ghost orig = self.entries();
        let ghost start = *self;
        let head_sec = self.head / self.esz;
        let ghost strong = !in_compaction && start.compaction_fits(exclude, start.active_sector()) && start.head_pos() as int
            / start.geom().1 as int == start.active_sector() && !exists|s: u32| #[trigger] start.free_candidate(
            s,
            exclude,
            start.head_pos() as int / start.geom().1 as int,
        );
        let ghost vic: u32 = match victim_of(orig, start.sector_count, start.esz, exclude, head_sec) {
            Some(v) => v,
            None => 0,
        };
        proof {
            if strong {
                lemma_victim_upto(orig, start.esz, exclude, head_sec, start.sector_count as int);
            }
        }
        let mut attempt: u32 = 0;
        while attempt < 2
            invariant_except_break
                attempt == 0 ==> *self == start,
                strong ==> attempt <= 1,
            invariant
                self.wf(),
                same_records(orig, self.entries()),
                self.next_seq == old(self).next_seq,
                self.sector_count == old(self).sector_count,
                self.geom() == old(self).geom(),
                self.dev.contents().len() == old(self).device().contents().len(),
                orig == old(self).entries(),
                start == *old(self),
                start.dev.healthy() ==> self.dev.healthy(),
                head_sec == old(self).head_pos() as int / old(self).geom().1 as int,
                attempt > 0 ==> !exists|s: u32| #[trigger] start.free_candidate(s, exclude, head_sec as int),
                strong ==> victim_of(orig, start.sector_count, start.esz, exclude, head_sec) == Some(vic),
                strong ==> vic < start.sector_count && vic != head_sec && Some(vic) != exclude,
                strong && attempt > 0 ==> Self::compacted(start, *self, vic),
                strong && Self::log_ready(start) && attempt > 0 ==> Self::compacted_log(start, *self, vic),
                strong == (!in_compaction && start.compaction_fits(exclude, start.active_sector()) && start.head_pos() as int
                    / start.geom().1 as int == start.active_sector() && !exists|s: u32| #[trigger] start.free_candidate(
                    s,
                    exclude,
                    start.head_pos() as int / start.geom().1 as int,
                )),
            ensures
                !exists|s: u32| #[trigger] start.free_candidate(s, exclude, head_sec as int),
                !strong,
            decreases 2 - attempt,
        {
            let mut sec: u32 = 0;
            while sec < self.sector_count
                invariant
                    self.wf(),
                    same_records(orig, self.entries()),
                    self.next_seq == old(self).next_seq,
                    self.sector_count == old(self).sector_count,
                    self.geom() == old(self).geom(),
                    self.dev.contents().len() == old(self).device().contents().len(),
                    orig == old(self).entries(),
                    start == *old(self),
                    start.dev.healthy() ==> self.dev.healthy(),
                    head_sec == old(self).head_pos() as int / old(self).geom().1 as int,
                    attempt == 0 ==> *self == start,
                    attempt == 0 ==> forall|t: u32| t < sec ==> !#[trigger] start.free_candidate(t, exclude, head_sec as int),
                    attempt > 0 ==> !exists|s: u32| #[trigger] start.free_candidate(s, exclude, head_sec as int),
                    strong ==> attempt <= 1,
                    strong ==> victim_of(orig, start.sector_count, start.esz, exclude, head_sec) == Some(vic),
                    strong ==> vic < start.sector_count && vic != head_sec && Some(vic) != exclude,
                    strong && attempt > 0 ==> Self::compacted(start, *self, vic),
                    strong && attempt > 0 ==> sec <= vic,
                    strong && Self::log_ready(start) && attempt > 0 ==> Self::compacted_log(start, *self, vic),
                    strong == (!in_compaction && start.compaction_fits(exclude, start.active_sector()) && start.head_pos() as int
                        / start.geom().1 as int == start.active_sector() && !exists|s: u32| #[trigger] start.free_candidate(
                        s,
                        exclude,
                        start.head_pos() as int / start.geom().1 as int,
                    )),
                decreases self.sector_count - sec,
            {
                if exclude == Some(sec) || sec == head_sec {
                    sec = sec + 1;
                    continue;
                }
                if !self.sector_has_entries(sec) {
                    proof {
                        lemma_sector_end(sec as int, self.esz as int, self.sector_count as int);
                        if strong && attempt > 0 && sec != vic {
                            assert(!start.free_candidate(sec, exclude, head_sec as int));
                            let w = choose|w: int| 0 <= w < orig.len() && #[trigger] in_sector(orig[w].addr, sec, start.esz);
                            lemma_in_sector_div(orig[w].addr, sec, start.esz);
                            lemma_in_sector_div(orig[w].addr, vic, start.esz);
                            assert(self.entries()[w] == orig[w]);
                            assert(in_sector(self.entries()[w].addr, sec, self.esz));
                        }
                    }
                    let ghost pre = *self;
                    proof {
                        lemma_sector_base(sec as int, self.esz as int);
                    }
                    match self.dev.erase_sector(sec * self.esz) {
                        Ok(()) => {},
                        Err(e) => {
                            proof {
                                if strong && attempt > 0 && start.consistent() {
                                    Self::lemma_consistent_keys(start);
                                    assert(self.dev.contents() == pre.dev.contents());
                                    assert(Self::compacted(start, *self, vic));
                                    assert(Self::compacted_log(start, *self, vic));
                                    Self::lemma_compacted_consistent(start, *self, vic);
                                    Self::lemma_consistent_agrees(*self);
                                }
                            }
                            return Err(Error::Device(e));
                        },
                    }
                    proof {
                        lemma_sector_base(sec as int, self.esz as int);
                        if attempt == 0 {
                            assert(start.free_candidate(sec, exclude, head_sec as int));
                            assert(self.dev.contents() == erased_range(pre.dev.contents(), sec as int * self.esz as int, self.esz as int));
                            assert(Self::same_frame(&*self, &start));
                        }
                        if strong && attempt > 0 {
                            assert(sec == vic);
                            let c1 = self.dev.contents();
                            assert(all_erased(c1, vic as int * self.esz as int, self.esz as int));
                            assert(Self::compacted(start, pre, vic));
                            assert forall|j: int| 0 <= j < c1.len() implies #[trigger] c1[j] == pre.dev.contents()[j] by {
                                if vic as int * self.esz as int <= j < vic as int * self.esz as int + self.esz as int {
                                    assert(pre.dev.contents()[j] == 0xFFu8);
                                }
                            }
                            assert(c1 =~= pre.dev.contents());
                            assert(Self::compacted(start, *self, vic));
                            if Self::log_ready(start) {
                                assert(Self::compacted_log(start, pre, vic));
                                assert(Self::compacted_log(start, *self, vic));
                            }
                        }
                    }
                    return Ok(sec);
                }
                proof {
                    if strong && attempt > 0 && sec == vic {
                        assert(!has_entry_in(self.entries(), vic, self.esz));
                    }
                }
                sec = sec + 1;
            }
            proof {
                if attempt == 0 {
                    assert forall|s: u32| !#[trigger] start.free_candidate(s, exclude, head_sec as int) by {
                        if s < self.sector_count {
                            assert(!start.free_candidate(s, exclude, head_sec as int));
                        }
                    }
                }
            }
            if in_compaction {
                break;
            }
            proof {
                if strong {
                    assert(*self == start);
                    assert(start.head_pos() as int / start.geom().1 as int == start.active_sector());
                    assert(head_sec as int == start.head_pos() as int / start.geom().1 as int);
                    assert(head_sec == start.active_sector());
                }
            }
            let moved = self.compact(exclude, head_sec)?;
            if !moved {
                break;
            }
            attempt = attempt + 1;
        }
        Err(Error::NoSpace)
    }

    /// `s` is `o` after compacting `victim` into the active sector: the
    /// records of the victim moved after the head, which moved past them,
    /// the others stayed, every record holds the value it held, and the
    /// victim is erased.
    spec fn compacted(o: Self, s: Self, victim: u32) -> bool {
        let es = o.geom().1;
        let ps = o.geom().2;
        let ix0 = o.entries();
        let ix1 = s.entries();
        &&& s.active_sector() == o.active_sector()
        &&& s.spare_sector() == o.spare_sector()
        &&& s.head_pos() as int == o.head_pos() as int + bytes_in(ix0, victim, es, ps, ix0.len() as int)
        &&& s.open_layout()
        &&& values_kept(o.device().contents(), ix0, s.device().contents(), ix1)
        &&& forall|i: int| 0 <= i < ix0.len() && !in_sector(ix0[i].addr, victim, es) ==> #[trigger] ix1[i] == ix0[i]
        &&& forall|i: int| 0 <= i < ix1.len() ==> !in_sector(#[trigger] ix1[i].addr, victim, es)
        &&& all_erased(s.device().contents(), victim as int * es as int, es as int)
    }

    /// The geometry of a well-formed store: a program unit at least a
    /// header long, dividing a nonempty sector.
    pub proof fn lemma_wf_geometry(fs: Self)
        requires
            fs.wf(),
        ensures
            fs.geom().2 >= HEADER_SIZE,
            fs.geom().1 > 0,
            fs.geom().1 % fs.geom().2 == 0,
    {
    }

    /// A consistent store holds each indexed key right after the header of
    /// its record.
    proof fn lemma_consistent_keys(s: Self)
        requires
            s.wf(),
            s.consistent(),
        ensures
            keys_stored(s.dev.contents(), s.entries()),
    {
        assert forall|i: int| 0 <= i < s.entries().len() implies s.dev.contents().subrange(
            (#[trigger] s.entries()[i]).addr as int + HEADER_SIZE,
            s.entries()[i].addr as int + HEADER_SIZE + s.entries()[i].key.len(),
        ) == s.entries()[i].key by {
            lemma_log_keys(s.dev.contents(), s.sector_count as int, s.esz as int, s.psz as int, s.entries()[i]);
        }
    }

    /// The log of the active sector ends at the head, and each indexed key
    /// is on the medium right after the header of its record.
    spec fn log_ready(o: Self) -> bool {
        &&& sector_log_end(
            o.dev.contents(),
            o.active_sec as int * o.esz as int,
            0,
            o.esz as int,
            o.psz as int,
        ) == o.head as int - o.active_sec as int * o.esz as int
        &&& keys_stored(o.dev.contents(), o.entries())
    }

    /// The sector logs during a compaction from `o` after copying the
    /// records at `ids[0..m]`: the active sector holds its old records then
    /// the copies, and ends at the head; the other sectors are as they were.
    spec fn log_progress(o: Self, s: Self, ids: Seq<int>, m: int) -> bool {
        let c0 = o.dev.contents();
        let c = s.dev.contents();
        let es = o.esz as int;
        let ps = o.psz as int;
        let act = o.active_sec as int;
        &&& sector_log(c, act * es, 0, es, ps) == sector_log(c0, act * es, 0, es, ps) + entries_at(s.entries(), ids.take(m))
        &&& sector_log_end(c, act * es, 0, es, ps) == s.head as int - act * es
        &&& forall|t: int| 0 <= t < o.sector_count && t != act ==> #[trigger] sector_log(c, t * es, 0, es, ps) == sector_log(c0, t * es, 0, es, ps)
    }

    /// The sector logs after compacting `victim` from `o` into `s`: the
    /// active sector holds its old records then the copies and ends at the
    /// head, the victim holds none, the others are as they were.
    spec fn compacted_log(o: Self, s: Self, victim: u32) -> bool {
        let c0 = o.dev.contents();
        let c = s.dev.contents();
        let es = o.esz as int;
        let ps = o.psz as int;
        let act = o.active_sec as int;
        let ids = sector_indices(o.entries(), victim, o.esz, o.entries().len() as int);
        &&& sector_log(c, act * es, 0, es, ps) == sector_log(c0, act * es, 0, es, ps) + entries_at(s.entries(), ids)
        &&& sector_log_end(c, act * es, 0, es, ps) == s.head as int - act * es
        &&& sector_log(c, victim as int * es, 0, es, ps) == Seq::<EntryView>::empty()
        &&& forall|t: int| 0 <= t < o.sector_count && t != act && t != victim ==> #[trigger] sector_log(c, t * es, 0, es, ps) == sector_log(
            c0,
            t * es,
            0,
            es,
            ps,
        )
    }

    /// One copy of a compaction keeps [`Self::log_progress`] when the copied
    /// record carries its own key, sequence number and tombstone flag.
    #[verifier::rlimit(40)]
    #[verifier::spinoff_prover]
    proof fn lemma_compact_step_log(
        o: Self,
        p: Self,
        f: Self,
        ids: Seq<int>,
        m: int,
        victim: u32,
        key: Seq<u8>,
        value: Seq<u8>,
        flags: u16,
        seq: u32,
    )
        requires
            Self::compact_progress(o, p, ids, m, victim),
            Self::compact_progress(o, f, ids, m + 1, victim),
            Self::log_progress(o, p, ids, m),
            0 <= m < ids.len(),
            victim < o.sector_count,
            forall|j: int| 0 <= j < ids.len() ==> 0 <= #[trigger] ids[j] < o.entries().len() && in_sector(o.entries()[ids[j]].addr, victim, o.esz),
            forall|x: int, y: int| 0 <= x < y < ids.len() ==> #[trigger] ids[x] < #[trigger] ids[y],
            p.wf(),
            f.wf(),
            p.geom() == o.geom(),
            f.geom() == o.geom(),
            p.dev.contents().len() == o.dev.contents().len(),
            p.entries().len() == o.entries().len(),
            key == o.entries()[ids[m]].key,
            seq == o.entries()[ids[m]].seq,
            (flags & FLAG_DELETE != 0) == o.entries()[ids[m]].deleted,
            value == value_at(o.dev.contents(), o.entries()[ids[m]]),
            f.head as int == p.head as int + rec_len(key.len() as int, value.len() as int, o.psz as int),
            f.dev.contents() == nor_program(
                p.dev.contents(),
                p.head as int,
                record_image(key, value, flags, seq, rec_len(key.len() as int, value.len() as int, o.psz as int)),
            ),
            f.entries() == p.entries().update(ids[m], EntryView { addr: p.head, ..p.entries()[ids[m]] }),
        ensures
            Self::log_progress(o, f, ids, m + 1),
    {
        let es = o.esz as int;
        let ps = o.psz as int;
        let n = o.sector_count as int;
        let act = o.active_sec as int;
        let cp = p.dev.contents();
        let cf = f.dev.contents();
        let i = ids[m];
        let ne = f.entries()[i];
        assert(p.entries()[i] == o.entries()[i]);
        assert(ne == EntryView { addr: p.head, ..o.entries()[i] });
        assert(entry_ok(o.entries()[i], cp.len() as int, ps, o.next_seq));
        lemma_round_up(HEADER_SIZE + o.entries()[i].key.len() + o.entries()[i].val_len, ps);
        assert(value.len() == o.entries()[i].val_len);
        let rec = rec_len(key.len() as int, value.len() as int, ps);
        lemma_round_up(HEADER_SIZE + key.len() + value.len(), ps);
        let img = record_image(key, value, flags, seq, rec);
        lemma_sum_lens_take(o.entries(), ids, o.psz, m);
        lemma_program_erased(cp, p.head as int, img);
        lemma_sector_end(act, es, n);
        assert(o.psz <= o.esz) by (nonlinear_arith)
            requires
                o.esz % o.psz == 0,
                o.esz > 0,
                o.psz > 0,
        ;
        Self::lemma_log_after_write(cp, cf, n, es, ps, act, victim as int, false, ne, value, flags);
        let tk = ids.take(m);
        let tk1 = ids.take(m + 1);
        assert(entries_at(f.entries(), tk1) =~= entries_at(p.entries(), tk).push(ne)) by {
            assert forall|x: int| 0 <= x < m implies f.entries()[tk1[x]] == p.entries()[tk[x]] by {
                assert(ids[x] < ids[m]);
            }
        }
        assert(sector_log(cf, act * es, 0, es, ps) =~= sector_log(o.dev.contents(), act * es, 0, es, ps) + entries_at(f.entries(), tk1));
    }

    /// The end of a compaction for the sector logs: erasing the victim
    /// empties its log and leaves the others.
    #[verifier::rlimit(40)]
    #[verifier::spinoff_prover]
    proof fn lemma_compact_done_log(o: Self, p: Self, f: Self, ids: Seq<int>, victim: u32)
        requires
            Self::compact_progress(o, p, ids, ids.len() as int, victim),
            Self::log_progress(o, p, ids, ids.len() as int),
            ids == sector_indices(o.entries(), victim, o.esz, o.entries().len() as int),
            p.wf(),
            f.wf(),
            p.geom() == o.geom(),
            f.geom() == o.geom(),
            f.entries() == p.entries(),
            f.head == p.head,
            victim < o.sector_count,
            f.dev.contents() == erased_range(p.dev.contents(), victim as int * o.esz as int, o.esz as int),
        ensures
            Self::compacted_log(o, f, victim),
    {
        let es = o.esz as int;
        let ps = o.psz as int;
        let n = o.sector_count as int;
        let act = o.active_sec as int;
        let cp = p.dev.contents();
        let cf = f.dev.contents();
        let vb = victim as int * es;
        assert(ids.take(ids.len() as int) =~= ids);
        lemma_sector_end(victim as int, es, n);
        lemma_sector_end(act, es, n);
        assert(ps <= es) by (nonlinear_arith)
            requires
                o.esz % o.psz == 0,
                o.esz > 0,
                o.psz > 0,
                ps == o.psz,
                es == o.esz,
        ;
        lemma_rec_at_erased(cf, vb, 0, es, ps);
        assert(sector_log(cf, vb, 0, es, ps) =~= Seq::<EntryView>::empty());
        assert forall|t: int| 0 <= t < n && t != victim implies #[trigger] sector_log(cf, t * es, 0, es, ps) == sector_log(cp, t * es, 0, es, ps)
            && sector_log_end(cf, t * es, 0, es, ps) == sector_log_end(cp, t * es, 0, es, ps) by {
            lemma_sector_end(t, es, n);
            lemma_sectors_disjoint(t, victim as int, es);
            assert forall|j: int| t * es <= j < t * es + es implies #[trigger] cp[j] == cf[j] by {}
            lemma_sector_log_same(cp, cf, t * es, 0, es, ps);
        }
        let c0 = o.dev.contents();
        assert(act != victim);
        assert(sector_log(cf, act * es, 0, es, ps) == sector_log(cp, act * es, 0, es, ps));
        assert(sector_log_end(cf, act * es, 0, es, ps) == sector_log_end(cp, act * es, 0, es, ps));
        assert(sector_log(cp, act * es, 0, es, ps) == sector_log(c0, act * es, 0, es, ps) + entries_at(p.entries(), ids));
        assert(sector_log(cf, act * es, 0, es, ps) == sector_log(c0, act * es, 0, es, ps) + entries_at(f.entries(), ids));
        assert(sector_log_end(cf, act * es, 0, es, ps) == f.head as int - act * es);
        assert forall|t: int| 0 <= t < n && t != act && t != victim implies #[trigger] sector_log(cf, t * es, 0, es, ps) == sector_log(
            c0,
            t * es,
            0,
            es,
            ps,
        ) by {
            assert(sector_log(cf, t * es, 0, es, ps) == sector_log(cp, t * es, 0, es, ps));
        }
    }

    /// Compaction keeps the medium consistent with the index.
    #[verifier::rlimit(40)]
    #[verifier::spinoff_prover]
    proof fn lemma_compacted_consistent(o: Self, f: Self, victim: u32)
        requires
            o.wf(),
            f.wf(),
            o.consistent(),
            Self::compacted(o, f, victim),
            Self::compacted_log(o, f, victim),
            same_records(o.entries(), f.entries()),
            f.geom() == o.geom(),
            victim < o.sector_count,
            victim != o.active_sec,
        ensures
            f.consistent(),
    {
        let es = o.esz as int;
        let ps = o.psz as int;
        let n = o.sector_count as int;
        let act = o.active_sec as int;
        let c0 = o.dev.contents();
        let c1 = f.dev.contents();
        let ix0 = o.entries();
        let ix1 = f.entries();
        let log0 = o.medium_log();
        let log1 = f.medium_log();
        let ids = sector_indices(ix0, victim, o.esz, ix0.len() as int);
        lemma_sector_indices(ix0, victim, o.esz, o.psz, ix0.len() as int);
        assert(distinct_keys(ix0));
        let l0 = sector_log(c0, act * es, 0, es, ps);
        let mv = entries_at(ix1, ids);
        assert(sector_log(c1, act * es, 0, es, ps) == l0 + mv);
        // A record of the old log outside the victim.
        assert forall|x: EntryView| log0.contains(x) && !in_sector(x.addr, victim, o.esz) implies (position(ix1, x.key) matches Some(p)
            && (x.seq < ix1[p].seq || x == ix1[p])) by {
            let j = choose|j: int| 0 <= j < log0.len() && log0[j] == x;
            assert(position(ix0, log0[j].key) matches Some(p) && (log0[j].seq < ix0[p].seq || log0[j] == ix0[p]));
            lemma_position_same_records(ix0, ix1, x.key);
            let p = position(ix0, x.key)->0;
            assert(same_record(ix0[p], ix1[p]));
            if x == ix0[p] {
                assert(ix1[p] == ix0[p]);
            }
        }
        // Where a record of a sector log lies.
        assert forall|x: EntryView, t: int| 0 <= t < n && #[trigger] sector_log(c0, t * es, 0, es, ps).contains(x) implies in_sector(
            x.addr,
            t as u32,
            o.esz,
        ) && log0.contains(x) by {
            lemma_sector_log_addrs(c0, t * es, 0, es, ps);
            let l = sector_log(c0, t * es, 0, es, ps);
            let w = choose|w: int| 0 <= w < l.len() && l[w] == x;
            assert(l[w] == x);
            lemma_device_log_mem(c0, n, es, ps, x);
        }
        assert forall|j: int| 0 <= j < log1.len() implies (position(ix1, #[trigger] log1[j].key) matches Some(p) && (log1[j].seq
            < ix1[p].seq || log1[j] == ix1[p])) by {
            let x = log1[j];
            assert(log1.contains(x));
            lemma_device_log_mem(c1, n, es, ps, x);
            let t = choose|t: int| 0 <= t < n && #[trigger] sector_log(c1, t * es, 0, es, ps).contains(x);
            if t == victim {
                assert(false);
            } else if t == act {
                let sl = sector_log(c1, act * es, 0, es, ps);
                let w = choose|w: int| 0 <= w < sl.len() && sl[w] == x;
                if w < l0.len() {
                    assert(l0[w] == x);
                    assert(l0.contains(x));
                    assert(in_sector(x.addr, act as u32, o.esz));
                    lemma_in_sector_div(x.addr, act as u32, o.esz);
                    lemma_in_sector_div(x.addr, victim, o.esz);
                } else {
                    let q = ids[w - l0.len()];
                    assert(mv[w - l0.len()] == ix1[q]);
                    assert(x == ix1[q]);
                    lemma_position_same_records(ix0, ix1, x.key);
                    assert(distinct_keys(ix1));
                    assert(position(ix1, x.key) == Some(q));
                }
            } else {
                assert(sector_log(c1, t * es, 0, es, ps) == sector_log(c0, t * es, 0, es, ps));
                assert(in_sector(x.addr, t as u32, o.esz));
                lemma_in_sector_div(x.addr, t as u32, o.esz);
                lemma_in_sector_div(x.addr, victim, o.esz);
            }
        }
        assert forall|i: int| 0 <= i < ix1.len() implies log1.contains(#[trigger] ix1[i]) by {
            if in_sector(ix0[i].addr, victim, o.esz) {
                assert(ids.contains(i));
                let w = choose|w: int| 0 <= w < ids.len() && ids[w] == i;
                assert(mv[w] == ix1[i]);
                let sl = sector_log(c1, act * es, 0, es, ps);
                assert(sl[l0.len() + w] == ix1[i]);
                assert(sl.contains(ix1[i]));
                lemma_device_log_mem(c1, n, es, ps, ix1[i]);
            } else {
                assert(ix1[i] == ix0[i]);
                assert(log0.contains(ix0[i]));
                lemma_device_log_mem(c0, n, es, ps, ix0[i]);
                let t = choose|t: int| 0 <= t < n && #[trigger] sector_log(c0, t * es, 0, es, ps).contains(ix0[i]);
                assert(in_sector(ix0[i].addr, t as u32, o.esz));
                lemma_in_sector_div(ix0[i].addr, t as u32, o.esz);
                lemma_in_sector_div(ix0[i].addr, victim, o.esz);
                if t == act {
                    let w = choose|w: int| 0 <= w < l0.len() && l0[w] == ix0[i];
                    let sl = sector_log(c1, act * es, 0, es, ps);
                    assert(sl[w] == ix0[i]);
                    assert(sl.contains(ix1[i]));
                } else {
                    assert(sector_log(c1, t * es, 0, es, ps).contains(ix1[i]));
                }
                lemma_device_log_mem(c1, n, es, ps, ix1[i]);
            }
        }
    }

    /// `f` is `s1`, a clean and consistent store, after programming a
    /// record of `rec` bytes that fits in place at its head `a`.
    spec fn appended_in_place(s1: Self, f: Self, a: u32, rec: int) -> bool {
        &&& s1.clean()
        &&& s1.consistent()
        &&& s1.entries() == f.entries()
        &&& s1.geom() == f.geom()
        &&& s1.active_sec == f.active_sec
        &&& s1.free_sector == f.free_sector
        &&& s1.head == a
        &&& s1.fits_in_place(rec)
        &&& s1.dev.contents().len() == f.dev.contents().len()
        &&& forall|j: int| 0 <= j < s1.dev.contents().len() && !(a <= j < a + rec) ==> #[trigger] f.dev.contents()[j] == s1.dev.contents()[j]
    }

    /// Progress of a compaction of `victim` started from `o` after copying
    /// the records at `ids[0..m]`: the head has moved past the copies, only
    /// the bytes from the old head to the new one changed, the records not
    /// yet copied are where they were, the copied ones lie in the active
    /// sector between the old head and the new one, and every record holds
    /// the value it held.
    spec fn compact_progress(o: Self, s: Self, ids: Seq<int>, m: int, victim: u32) -> bool {
        let orig = o.entries();
        let c0 = o.dev.contents();
        let h0 = o.head as int;
        let act = o.active_sec as int;
        let es = o.esz as int;
        let ps = o.psz;
        &&& victim as int != act
        &&& (victim as int * es + es <= act * es || act * es + es <= victim as int * es)
        &&& h0 + sum_lens(orig, ids, ps) < act * es + es
        &&& o.open_layout()
        &&& s.active_sec == o.active_sec
        &&& s.free_sector == o.free_sector
        &&& s.head as int == h0 + sum_lens(orig, ids.take(m), ps)
        &&& all_erased(s.dev.contents(), s.head as int, act * es + es - s.head as int)
        &&& forall|j: int| 0 <= j < c0.len() && !(h0 <= j < s.head) ==> #[trigger] s.dev.contents()[j] == c0[j]
        &&& forall|i: int| 0 <= i < orig.len() && !in_sector(orig[i].addr, victim, o.esz) ==> #[trigger] s.entries()[i] == orig[i]
        &&& forall|x: int| m <= x < ids.len() ==> #[trigger] s.entries()[ids[x]] == orig[ids[x]]
        &&& forall|x: int| 0 <= x < m ==> h0 <= (#[trigger] s.entries()[ids[x]]).addr && s.entries()[ids[x]].addr + rec_len(
            s.entries()[ids[x]].key.len() as int,
            s.entries()[ids[x]].val_len as int,
            ps as int,
        ) <= s.head
        &&& values_kept(c0, orig, s.dev.contents(), s.entries())
    }

    /// One copy of a compaction keeps [`Self::compact_progress`].
    #[verifier::rlimit(40)]
    #[verifier::spinoff_prover]
    proof fn lemma_compact_step(
        o: Self,
        p: Self,
        f: Self,
        ids: Seq<int>,
        m: int,
        victim: u32,
        key: Seq<u8>,
        value: Seq<u8>,
        flags: u16,
        seq: u32,
    )
        requires
            Self::compact_progress(o, p, ids, m, victim),
            0 <= m < ids.len(),
            forall|j: int| 0 <= j < ids.len() ==> 0 <= #[trigger] ids[j] < o.entries().len() && in_sector(o.entries()[ids[j]].addr, victim, o.esz),
            forall|x: int, y: int| 0 <= x < y < ids.len() ==> #[trigger] ids[x] < #[trigger] ids[y],
            forall|i: int| 0 <= i < o.entries().len() && #[trigger] in_sector(o.entries()[i].addr, victim, o.esz) ==> ids.contains(i),
            p.wf(),
            f.wf(),
            p.geom() == o.geom(),
            f.geom() == o.geom(),
            p.dev.contents().len() == o.dev.contents().len(),
            p.entries().len() == o.entries().len(),
            key.len() == o.entries()[ids[m]].key.len(),
            value == value_at(o.dev.contents(), o.entries()[ids[m]]),
            f.head as int == p.head as int + rec_len(key.len() as int, value.len() as int, o.psz as int),
            f.active_sec == p.active_sec,
            f.free_sector == p.free_sector,
            f.dev.contents() == nor_program(
                p.dev.contents(),
                p.head as int,
                record_image(key, value, flags, seq, rec_len(key.len() as int, value.len() as int, o.psz as int)),
            ),
            f.entries() == p.entries().update(ids[m], EntryView { addr: p.head, ..p.entries()[ids[m]] }),
        ensures
            Self::compact_progress(o, f, ids, m + 1, victim),
    {
        let orig = o.entries();
        let c0 = o.dev.contents();
        let h0 = o.head as int;
        let act = o.active_sec as int;
        let es = o.esz as int;
        let ps = o.psz;
        let i = ids[m];
        let e = orig[i];
        let klen = key.len() as int;
        let vlen = value.len() as int;
        let rec = rec_len(klen, vlen, ps as int);
        let cp = p.dev.contents();
        let cf = f.dev.contents();
        let hp = p.head as int;
        assert(p.entries()[ids[m]] == orig[ids[m]]);
        assert(vlen == e.val_len);
        lemma_sum_lens_take(orig, ids, ps, m);
        lemma_round_up(HEADER_SIZE + klen + vlen, ps as int);
        assert(hp + rec < act * es + es);
        let img = record_image(key, value, flags, seq, rec);
        assert(img.len() == rec);
        assert(all_erased(cp, hp, rec));
        lemma_program_erased(cp, hp, img);
        lemma_image_value(key, value, flags, seq, rec);
        // The new entry holds the value it held.
        let ne = f.entries()[i];
        assert(ne.addr == hp && ne.key == e.key && ne.val_len == e.val_len);
        assert(value_at(cf, ne) =~= value) by {
            assert forall|j: int| 0 <= j < vlen implies #[trigger] value_at(cf, ne)[j] == value[j] by {
                assert(cf[hp + HEADER_SIZE + klen + j] == img[HEADER_SIZE + klen + j]);
            }
        }
        // The other entries keep their bytes.
        assert forall|q: int| 0 <= q < orig.len() && q != i implies #[trigger] value_at(cf, f.entries()[q]) == value_at(c0, orig[q]) by {
            let x = p.entries()[q];
            assert(f.entries()[q] == x);
            assert(value_at(cp, x) == value_at(c0, orig[q]));
            let rx = rec_len(x.key.len() as int, x.val_len as int, ps as int);
            assert(entry_ok(x, cp.len() as int, ps as int, p.next_seq));
            lemma_round_up(HEADER_SIZE + x.key.len() + x.val_len, ps as int);
            // Its record lies before the head of `p`, or outside the active sector.
            if in_sector(orig[q].addr, victim, o.esz) {
                let w = choose|w: int| 0 <= w < ids.len() && ids[w] == q;
                if w < m {
                    assert(x.addr + rx <= hp);
                } else {
                    assert(w != m);
                    assert(x == orig[q]);
                    lemma_in_sector_div(x.addr, victim, o.esz);
                    assert(placed_open(orig[q], o.active_sec, o.head, o.esz, o.psz));
                    lemma_in_own_sector(x.addr as int, rx, es);
                }
            } else {
                assert(x == orig[q]);
                assert(placed_open(orig[q], o.active_sec, o.head, o.esz, o.psz));
                lemma_in_own_sector(x.addr as int, rx, es);
                let sx = x.addr as int / es;
                if sx != act {
                    lemma_sectors_disjoint(sx, act, es);
                }
            }
            assert(value_at(cf, x) =~= value_at(cp, x)) by {
                assert forall|j: int| 0 <= j < x.val_len implies #[trigger] value_at(cf, x)[j] == value_at(cp, x)[j] by {
                    let y = x.addr + HEADER_SIZE + x.key.len() + j;
                    assert(!(hp <= y < hp + rec));
                }
            }
        }
        assert(values_kept(c0, orig, cf, f.entries()));
        assert forall|x: int| m + 1 <= x < ids.len() implies #[trigger] f.entries()[ids[x]] == orig[ids[x]] by {
            assert(ids[m] < ids[x]);
            assert(p.entries()[ids[x]] == orig[ids[x]]);
        }
        assert forall|x: int| 0 <= x < m + 1 implies h0 <= (#[trigger] f.entries()[ids[x]]).addr && f.entries()[ids[x]].addr + rec_len(
            f.entries()[ids[x]].key.len() as int,
            f.entries()[ids[x]].val_len as int,
            ps as int,
        ) <= f.head by {
            if x < m {
                assert(ids[x] < ids[m]);
                assert(f.entries()[ids[x]] == p.entries()[ids[x]]);
            }
        }
        assert forall|q: int| 0 <= q < orig.len() && !in_sector(orig[q].addr, victim, o.esz) implies #[trigger] f.entries()[q] == orig[q] by {
            assert(q != i);
        }
        assert forall|j: int| 0 <= j < c0.len() && !(h0 <= j < f.head) implies #[trigger] cf[j] == c0[j] by {
            assert(cf[j] == cp[j]);
        }
        assert(all_erased(cf, f.head as int, act * es + es - f.head as int)) by {
            lemma_sector_end(act, es, o.sector_count as int);
            assert forall|j: int| f.head as int <= j < act * es + es implies #[trigger] cf[j] == 0xFFu8 by {
                assert(cf[j] == cp[j]);
            }
        }
    }

    /// The end of a compaction: with every record of the victim copied and
    /// the victim erased, the layout is open again, the head has moved by
    /// the victim's records and every record holds its value.
    #[verifier::rlimit(40)]
    #[verifier::spinoff_prover]
    proof fn lemma_compact_done(o: Self, p: Self, f: Self, ids: Seq<int>, victim: u32)
        requires
            Self::compact_progress(o, p, ids, ids.len() as int, victim),
            forall|j: int| 0 <= j < ids.len() ==> 0 <= #[trigger] ids[j] < o.entries().len() && in_sector(o.entries()[ids[j]].addr, victim, o.esz),
            forall|i: int| 0 <= i < o.entries().len() && #[trigger] in_sector(o.entries()[i].addr, victim, o.esz) ==> ids.contains(i),
            sum_lens(o.entries(), ids, o.psz) == bytes_in(o.entries(), victim, o.esz, o.psz, o.entries().len() as int),
            p.wf(),
            f.wf(),
            p.geom() == o.geom(),
            f.geom() == o.geom(),
            p.entries().len() == o.entries().len(),
            f.entries() == p.entries(),
            f.head == p.head,
            f.active_sec == p.active_sec,
            f.free_sector == p.free_sector,
            victim < o.sector_count,
            f.dev.contents() == erased_range(p.dev.contents(), victim as int * o.esz as int, o.esz as int),
        ensures
            f.active_sector() == o.active_sector(),
            f.spare_sector() == o.spare_sector(),
            f.head_pos() as int == o.head_pos() as int + bytes_in(o.entries(), victim, o.esz, o.psz, o.entries().len() as int),
            f.open_layout(),
            values_kept(o.dev.contents(), o.entries(), f.dev.contents(), f.entries()),
            forall|i: int| 0 <= i < o.entries().len() && !in_sector(o.entries()[i].addr, victim, o.esz) ==> #[trigger] f.entries()[i] == o.entries()[i],
            forall|i: int| 0 <= i < f.entries().len() ==> !in_sector(#[trigger] f.entries()[i].addr, victim, o.esz),
            all_erased(f.dev.contents(), victim as int * o.esz as int, o.esz as int),
    {
        let orig = o.entries();
        let c0 = o.dev.contents();
        let h0 = o.head as int;
        let act = o.active_sec as int;
        let es = o.esz as int;
        let ps = o.psz;
        let vb = victim as int * es;
        let cp = p.dev.contents();
        let cf = f.dev.contents();
        let hf = f.head as int;
        assert(ids.take(ids.len() as int) =~= ids);
        lemma_sum_lens_nonneg(orig, ids, ps);
        lemma_sector_end(victim as int, es, o.sector_count as int);
        // Where each record now lies.
        assert forall|i: int| 0 <= i < orig.len() implies ({
            let x = #[trigger] f.entries()[i];
            let rx = rec_len(x.key.len() as int, x.val_len as int, ps as int);
            &&& x.addr as int / es != victim as int
            &&& (x.addr as int + rx <= vb || vb + es <= x.addr as int)
            &&& placed_open(x, f.active_sec, f.head, o.esz, o.psz)
            &&& x.addr as int + rx <= cf.len()
        }) by {
            let x = f.entries()[i];
            let rx = rec_len(x.key.len() as int, x.val_len as int, ps as int);
            assert(entry_ok(x, cp.len() as int, ps as int, p.next_seq));
            lemma_round_up(HEADER_SIZE + x.key.len() + x.val_len, ps as int);
            if in_sector(orig[i].addr, victim, o.esz) {
                let w = choose|w: int| 0 <= w < ids.len() && ids[w] == i;
                assert(h0 <= x.addr && x.addr + rx <= hf);
                assert(act * es <= h0);
                lemma_within_sector(x.addr as int, act, es);
            } else {
                assert(x == orig[i]);
                assert(placed_open(orig[i], o.active_sec, o.head, o.esz, o.psz));
                lemma_in_own_sector(x.addr as int, rx, es);
                lemma_in_sector_div(x.addr, victim, o.esz);
                let sx = x.addr as int / es;
                lemma_sectors_disjoint(sx, victim as int, es);
            }
        }
        assert forall|i: int| 0 <= i < f.entries().len() implies !in_sector(#[trigger] f.entries()[i].addr, victim, o.esz) by {
            lemma_in_sector_div(f.entries()[i].addr, victim, o.esz);
        }
        assert forall|i: int| 0 <= i < orig.len() implies #[trigger] value_at(cf, f.entries()[i]) == value_at(c0, orig[i]) by {
            let x = f.entries()[i];
            assert(value_at(cp, x) == value_at(c0, orig[i]));
            let rx = rec_len(x.key.len() as int, x.val_len as int, ps as int);
            lemma_round_up(HEADER_SIZE + x.key.len() + x.val_len, ps as int);
            assert(x.addr as int + rx <= vb || vb + es <= x.addr as int);
            assert(value_at(cf, x) =~= value_at(cp, x)) by {
                assert forall|j: int| 0 <= j < x.val_len implies #[trigger] value_at(cf, x)[j] == value_at(cp, x)[j] by {
                    let y = x.addr + HEADER_SIZE + x.key.len() + j;
                    assert(cf[y] == cp[y]);
                }
            }
        }
        assert(all_erased(cf, hf, act * es + es - hf)) by {
            lemma_sector_end(act, es, o.sector_count as int);
            assert forall|j: int| hf <= j < act * es + es implies #[trigger] cf[j] == 0xFFu8 by {
                assert(cp[j] == 0xFFu8);
                assert(cf[j] == cp[j]);
            }
        }
        assert forall|i: int| 0 <= i < f.entries().len() implies placed_open(#[trigger] f.entries()[i], f.active_sector(), f.head_pos(), f.geom().1, f.geom().2) by {
        }
    }

    /// Compacts the sector (other than the one `head` was in and `exclude`)
    /// holding the fewest indexed records, at least one: copies them to the
    /// head of the log and erases it. `false` when there was no victim.
    #[verifier::rlimit(60)]
    #[verifier::spinoff_prover]
    fn compact(&mut self, exclude: Option<u32>, head_sec: u32) -> (r: Result<bool, Error<D::Error>>)
        requires
            old(self).wf(),
        ensures
            old(self).device().healthy() ==> final(self).device().healthy(),
            r matches Err(e) ==> e is Device || e is NoSpace,
            final(self).wf(),
            same_records(old(self).entries(), final(self).entries()),
            final(self).geom() == old(self).geom(),
            final(self).next_seq() == old(self).next_seq(),
            final(self).device().contents().len() == old(self).device().contents().len(),
            old(self).compaction_fits(exclude, head_sec) ==> (r matches Err(e) ==> e is Device),
            old(self).compaction_fits(exclude, head_sec) && old(self).device().healthy() ==> r is Ok,
            ({
                let es = old(self).geom().1 as int;
                let c = final(self).device().contents();
                let base = final(self).active_sector() as int * es;
                old(self).compaction_fits(exclude, head_sec) && old(self).consistent() && r is Err ==> {
                    &&& values_kept(old(self).device().contents(), old(self).entries(), c, final(self).entries())
                    &&& final(self).active_sector() == old(self).active_sector()
                    &&& rec_at(c, base, final(self).head_pos() as int - base, es, old(self).geom().2 as int) is None ==> final(self).agrees()
                }
            }),
            old(self).compaction_fits(exclude, head_sec) && r is Ok ==> (victim_of(
                old(self).entries(),
                old(self).geom().0,
                old(self).geom().1,
                exclude,
                head_sec,
            ) matches Some(v) ==> r == Ok::<bool, Error<D::Error>>(true) && Self::compacted(*old(self), *final(self), v)),
            old(self).compaction_fits(exclude, head_sec) && Self::log_ready(*old(self)) && r is Ok ==> (victim_of(
                old(self).entries(),
                old(self).geom().0,
                old(self).geom().1,
                exclude,
                head_sec,
            ) matches Some(v) ==> Self::compacted_log(*old(self), *final(self), v)),
        decreases 3int,
    {
        let ghost orig = self.entries();
        let ghost strong = old(self).compaction_fits(exclude, head_sec);
        let ghost cons = strong && Self::log_ready(*old(self));
        let mut victim: Option<u32> = None;
        let mut best: usize = usize::MAX;
        let mut sec: u32 = 0;
        while sec < self.sector_count
            invariant
                self.wf(),
                old(self).device().healthy() ==> self.dev.healthy(),
                *self == *old(self),
                orig == old(self).entries(),
                victim matches Some(v) ==> v < self.sector_count,
                (victim, best as int) == victim_upto(orig, self.esz, exclude, head_sec, sec as int),
                sec <= self.sector_count,
            decreases self.sector_count - sec,
        {
            if sec == head_sec || exclude == Some(sec) {
                sec = sec + 1;
                continue;
            }
            let cnt = self.sector_entry_count(sec);
            if cnt > 0 && cnt < best {
                best = cnt;
                victim = Some(sec);
            }
            sec = sec + 1;
        }
        let victim = match victim {
            Some(v) => v,
            None => {
                proof {
                    assert(same_records(orig, self.entries()));
                }
                return Ok(false);
            },
        };
        proof {
            assert(victim_of(orig, self.sector_count, self.esz, exclude, head_sec) == Some(victim));
            lemma_victim_upto(orig, self.esz, exclude, head_sec, self.sector_count as int);
            lemma_sector_end(victim as int, self.esz as int, self.sector_count as int);
        }
        let base = victim * self.esz;
        let end = base + self.esz;
        let mut idxs: Vec<usize> = Vec::new();
        let mut k: usize = 0;
        while k < self.index.len()
            invariant
                self.wf(),
                old(self).device().healthy() ==> self.dev.healthy(),
                *self == *old(self),
                orig == old(self).entries(),
                k <= self.index@.len(),
                base == victim * self.esz,
                end == base + self.esz,
                idxs@.len() == sector_indices(orig, victim, self.esz, k as int).len(),
                forall|j: int| 0 <= j < idxs@.len() ==> #[trigger] idxs@[j] as int == sector_indices(orig, victim, self.esz, k as int)[j],
                forall|j: int| 0 <= j < idxs@.len() ==> #[trigger] idxs@[j] < self.index@.len(),
            decreases self.index@.len() - k,
        {
            let a = self.index[k].addr;
            proof {
                assert(self.entries()[k as int].addr == a);
            }
            if a >= base && a < end {
                idxs.push(k);
            }
            k = k + 1;
            proof {
                let si = sector_indices(orig, victim, self.esz, k as int);
                let sp = sector_indices(orig, victim, self.esz, k - 1);
                if in_sector(orig[k - 1].addr, victim, self.esz) {
                    assert(si == sp + seq![k - 1]);
                } else {
                    assert(si =~= sp);
                }
            }
        }
        let ghost ids = sector_indices(orig, victim, self.esz, orig.len() as int);
        let ghost c0 = self.dev.contents();
        let ghost h0 = self.head as int;
        let ghost act = self.active_sec as int;
        let ghost es = self.esz as int;
        let ghost ps = self.psz;
        proof {
            assert(orig.len() == self.index@.len());
            lemma_sector_indices(orig, victim, self.esz, self.psz, orig.len() as int);
            if strong {
                assert(victim != act);
                lemma_sectors_disjoint(victim as int, act, es);
                assert(ids.take(0) =~= Seq::<int>::empty());
                assert(values_kept(c0, orig, self.dev.contents(), self.entries()));
                assert(Self::compact_progress(*old(self), *self, ids, 0, victim));
                if cons {
                    assert(entries_at(self.entries(), ids.take(0)) =~= Seq::<EntryView>::empty());
                    assert(sector_log(c0, act * es, 0, es, ps as int) + entries_at(self.entries(), ids.take(0)) =~= sector_log(
                        c0,
                        act * es,
                        0,
                        es,
                        ps as int,
                    ));
                    assert(Self::log_progress(*old(self), *self, ids, 0));
                }
            }
        }
        let mut m: usize = 0;
        while m < idxs.len()
            invariant
                self.wf(),
                old(self).device().healthy() ==> self.dev.healthy(),
                same_records(orig, self.entries()),
                orig == old(self).entries(),
                self.next_seq == old(self).next_seq,
                self.sector_count == old(self).sector_count,
                self.geom() == old(self).geom(),
                self.esz == old(self).esz,
                es == self.esz,
                ps == self.psz,
                self.dev.contents().len() == old(self).device().contents().len(),
                forall|j: int| 0 <= j < idxs@.len() ==> #[trigger] idxs@[j] < self.index@.len(),
                base == victim * self.esz,
                victim < self.sector_count,
                m <= idxs@.len(),
                idxs@.len() == ids.len(),
                forall|j: int| 0 <= j < idxs@.len() ==> #[trigger] idxs@[j] as int == ids[j],
                forall|j: int| 0 <= j < ids.len() ==> 0 <= #[trigger] ids[j] < orig.len() && in_sector(orig[ids[j]].addr, victim, self.esz),
                forall|x: int, y: int| 0 <= x < y < ids.len() ==> #[trigger] ids[x] < #[trigger] ids[y],
                forall|i: int| 0 <= i < orig.len() && #[trigger] in_sector(orig[i].addr, victim, self.esz) ==> ids.contains(i),
                sum_lens(orig, ids, ps) == bytes_in(orig, victim, self.esz, ps, orig.len() as int),
                strong == old(self).compaction_fits(exclude, head_sec),
                c0 == old(self).device().contents(),
                h0 == old(self).head_pos(),
                act == old(self).active_sector(),
                strong ==> victim_of(orig, self.sector_count, self.esz, exclude, head_sec) == Some(victim) && Self::compact_progress(
                    *old(self),
                    *self,
                    ids,
                    m as int,
                    victim,
                ),
                cons == (strong && Self::log_ready(*old(self))),
                cons ==> Self::log_progress(*old(self), *self, ids, m as int),
                ids == sector_indices(orig, victim, self.esz, orig.len() as int),
            decreases idxs@.len() - m,
        {
            let i = idxs[m];
            let seq = self.index[i].seq;
            let addr = self.index[i].addr;
            let key_len = key_as_slice(&self.index[i].key).len();
            let val_len = self.index[i].val_len as usize;
            let deleted = self.index[i].deleted;
            let ghost before = self.entries();
            let ghost c_prev = self.dev.contents();
            let ghost s_prev = *self;
            proof {
                let e = self.entries()[i as int];
                assert(entry_ok(e, self.dev.contents().len() as int, self.psz as int, self.next_seq));
                lemma_round_up(HEADER_SIZE + e.key.len() + e.val_len, self.psz as int);
                lemma_sum_lens_take(orig, ids, ps, m as int);
            }
            let plen = key_len + val_len;
            let mut buf: Vec<u8> = vec![0u8; plen];
            match self.dev.read(addr + HEADER_SIZE as u32, buf.as_mut_slice()) {
                Ok(()) => {},
                Err(e) => {
                    proof {
                        if strong && old(self).consistent() {
                            Self::lemma_consistent_keys(*old(self));
                            Self::lemma_progress_agrees(*old(self), s_prev, self.dev.contents(), ids, m as int, victim, 0);
                            assert(self.medium_log() == s_prev.medium_log());
                        }
                    }
                    return Err(Error::Device(e));
                },
            }
            let ghost s_call = *self;
            let mut key_v: Vec<u8> = Vec::new();
            let mut val_v: Vec<u8> = Vec::new();
            let mut t: usize = 0;
            while t < plen
                invariant
                    t <= plen,
                    plen == key_len + val_len,
                    buf@.len() == plen,
                    t <= key_len ==> key_v@ == buf@.subrange(0, t as int) && val_v@.len() == 0,
                    t > key_len ==> key_v@ == buf@.subrange(0, key_len as int) && val_v@ == buf@.subrange(key_len as int, t as int),
                decreases plen - t,
            {
                if t < key_len {
                    key_v.push(buf[t]);
                } else {
                    val_v.push(buf[t]);
                }
                t = t + 1;
                proof {
                    if t <= key_len {
                        assert(key_v@ =~= buf@.subrange(0, t as int));
                    } else if t == key_len + 1 {
                        assert(key_v@ =~= buf@.subrange(0, key_len as int));
                        assert(val_v@ =~= buf@.subrange(key_len as int, t as int));
                    } else {
                        assert(val_v@ =~= buf@.subrange(key_len as int, t as int));
                    }
                }
            }
            proof {
                if plen == key_len {
                    assert(key_v@ =~= buf@.subrange(0, key_len as int));
                    assert(val_v@ =~= buf@.subrange(key_len as int, plen as int));
                }
                assert(key_v@.len() == key_len && val_v@.len() == val_len);
                if strong {
                    let e = orig[i as int];
                    let rec = rec_len(e.key.len() as int, e.val_len as int, ps as int);
                    assert(self.entries()[ids[m as int]] == orig[ids[m as int]]);
                    assert(in_sector(e.addr, victim, self.esz));
                    assert(placed_open(e, old(self).active_sec, old(self).head, self.esz, self.psz));
                    lemma_in_sector_div(e.addr, victim, self.esz);
                    lemma_in_own_sector(e.addr as int, rec, es);
                    lemma_sum_lens_nonneg(orig, ids.take(m as int), ps);
                    let h = self.head as int;
                    assert(act * es <= h0);
                    assert(h + rec < act * es + es);
                    lemma_within_sector(h, act, es);
                    assert(self.fits_in_place(rec));
                    assert forall|j: int| 0 <= j < plen implies #[trigger] buf@[j] == c0[addr + HEADER_SIZE + j] by {
                        assert(c_prev[addr + HEADER_SIZE + j] == c0[addr + HEADER_SIZE + j]);
                    }
                    assert(val_v@ =~= value_at(c0, e)) by {
                        assert forall|j: int| 0 <= j < val_len implies #[trigger] val_v@[j] == value_at(c0, e)[j] by {
                            assert(val_v@[j] == buf@[key_len + j]);
                        }
                    }
                    if cons {
                        assert(keys_stored(c0, orig));
                        assert(c0.subrange(e.addr as int + HEADER_SIZE, e.addr as int + HEADER_SIZE + e.key.len()) == e.key);
                        assert(key_v@ =~= e.key) by {
                            assert forall|j: int| 0 <= j < key_len implies #[trigger] key_v@[j] == e.key[j] by {
                                assert(key_v@[j] == buf@[j]);
                                assert(c0.subrange(e.addr as int + HEADER_SIZE, e.addr as int + HEADER_SIZE + e.key.len())[j] == c0[e.addr
                                    + HEADER_SIZE + j]);
                            }
                        }
                    }
                }
            }
            let new_addr = match self.append_with_seq(key_v.as_slice(), val_v.as_slice(), deleted, seq, true) {
                Ok(a) => a,
                Err(err) => {
                    proof {
                        if strong && old(self).consistent() {
                            Self::lemma_consistent_keys(*old(self));
                            let rec = rec_len(key_v@.len() as int, val_v@.len() as int, ps as int);
                            let cf = self.dev.contents();
                            let cp = s_prev.dev.contents();
                            let h = s_prev.head as int;
                            lemma_in_own_sector(h, rec, es);
                            Self::lemma_progress_agrees(*old(self), s_prev, cf, ids, m as int, victim, rec);
                            if rec_at(cf, act * es, h - act * es, es, ps as int) is None {
                                Self::lemma_log_after_torn(cp, cf, self.sector_count as int, es, ps as int, act, victim as int, false, h, rec);
                                lemma_device_log_eq(cp, cf, self.sector_count as int, es, ps as int);
                                assert(self.medium_log() == s_prev.medium_log());
                            }
                        }
                    }
                    return Err(err);
                },
            };
            let ghost mid = self.entries();
            let ghost c_mid = self.dev.contents();
            let kcopy = match key_from_slice(key_as_slice(&self.index[i].key)) {
                Some(k) => k,
                None => return Err(Error::TooLarge),
            };
            self.index.set(i, Entry { key: kcopy, seq, addr: new_addr, val_len: val_len as u16, deleted });
            proof {
                assert(same_record(before[i as int], mid[i as int]));
                assert(self.entries() =~= mid.update(i as int, EntryView { addr: new_addr, ..mid[i as int] }));
                assert(same_records(mid, self.entries()));
                lemma_same_records_trans(before, mid, self.entries());
                lemma_same_records_trans(orig, before, self.entries());
                assert forall|j: int| 0 <= j < self.entries().len() implies entry_ok(#[trigger] self.entries()[j], self.dev.contents().len() as int, self.psz as int, self.next_seq) by {
                    if j != i {
                        assert(self.entries()[j] == mid[j]);
                    }
                }
                assert(distinct_keys(self.entries())) by {
                    lemma_position_same_records(orig, self.entries(), seq![]);
                }
                if strong {
                    Self::lemma_compact_step(
                        *old(self),
                        s_prev,
                        *self,
                        ids,
                        m as int,
                        victim,
                        key_v@,
                        val_v@,
                        if deleted { FLAG_DELETE } else { 0u16 },
                        seq,
                    );
                    if cons {
                        let flags: u16 = if deleted { FLAG_DELETE } else { 0u16 };
                        assert(deleted == (flags & FLAG_DELETE != 0)) by {
                            assert((FLAG_DELETE & FLAG_DELETE) != 0u16) by (bit_vector);
                            assert((0u16 & FLAG_DELETE) == 0u16) by (bit_vector);
                        }
                        Self::lemma_compact_step_log(*old(self), s_prev, *self, ids, m as int, victim, key_v@, val_v@, flags, seq);
                    }
                }
            }
            m = m + 1;
        }
        let ghost s_last = *self;
        proof {
            lemma_sector_base(victim as int, es);
        }
        match self.dev.erase_sector(base) {
            Ok(()) => {},
            Err(e) => {
                proof {
                    if strong && old(self).consistent() {
                        Self::lemma_consistent_keys(*old(self));
                        assert(ids.take(ids.len() as int) =~= ids);
                        Self::lemma_progress_agrees(*old(self), s_last, self.dev.contents(), ids, ids.len() as int, victim, 0);
                        assert(self.medium_log() == s_last.medium_log());
                    }
                }
                return Err(Error::Device(e));
            },
        }
        proof {
            lemma_sector_base(victim as int, es);
            if strong {
                Self::lemma_compact_done(*old(self), s_last, *self, ids, victim);
            }
            if cons {
                Self::lemma_compact_done_log(*old(self), s_last, *self, ids, victim);
            }
        }
        Ok(true)
    }

    /// Layout after appending `image` at the head of `s1`, which is `o`
    /// itself when the record fits in place, or `o` moved to its spare with
    /// a new spare erased: the store stays clean, the record holds `image`
    /// and every indexed record keeps its bytes.
    proof fn lemma_append_layout(o: Self, s1: Self, f: Self, rec: int, image: Seq<u8>)
        requires
            o.clean(),
            rec == image.len(),
            0 < rec <= o.esz,
            f.wf(),
            f.entries() == o.entries(),
            s1.entries() == o.entries(),
            f.geom() == o.geom(),
            s1.geom() == o.geom(),
            s1.dev.contents().len() == o.dev.contents().len(),
            s1.head as int + rec <= s1.dev.contents().len(),
            (s1 == o && o.fits_in_place(rec)) || ({
                &&& s1.active_sec == o.free_sector
                &&& s1.head as int == o.free_sector as int * o.esz as int
                &&& o.free_candidate(s1.free_sector, Some(o.free_sector), o.free_sector as int)
                &&& s1.dev.contents() == erased_range(o.dev.contents(), s1.free_sector as int * o.esz as int, o.esz as int)
            }),
            f.head as int == s1.head as int + rec,
            f.active_sec == s1.active_sec,
            f.free_sector == s1.free_sector,
            f.dev.contents() == nor_program(s1.dev.contents(), s1.head as int, image),
        ensures
            f.clean(),
            f.dev.contents().subrange(s1.head as int, s1.head as int + rec) == image,
            forall|i: int| 0 <= i < o.entries().len() ==> #[trigger] kept(o.dev.contents(), f.dev.contents(), o.entries()[i], o.psz),
            s1.head as int % o.esz as int + rec <= o.esz,
            f.active_sec as int == s1.head as int / o.esz as int,
            (f.active_sec == o.active_sec && f.free_sector == o.free_sector && s1.head == o.head) || (f.active_sec == o.free_sector
                && f.active_sec != o.active_sec && s1.head as int == o.free_sector as int * o.esz as int && !has_entry_in(
                o.entries(),
                f.free_sector,
                o.esz,
            ) && f.free_sector != o.free_sector),
            forall|j: int| 0 <= j < o.dev.contents().len() && !(s1.head <= j < s1.head + rec) && !(f.active_sec != o.active_sec && f.free_sector as int
                * o.esz as int <= j < f.free_sector as int * o.esz as int + o.esz as int) ==> #[trigger] f.dev.contents()[j]
                == o.dev.contents()[j],
    {
        let es = o.esz as int;
        let c0 = o.dev.contents();
        let c1 = s1.dev.contents();
        let c2 = f.dev.contents();
        let h = s1.head as int;
        let a = s1.active_sec as int;
        let sp = s1.free_sector as int;
        assert(o.sector_count as int * es <= c0.len());
        lemma_sector_end(a, es, o.sector_count as int);
        lemma_sector_end(sp, es, o.sector_count as int);
        lemma_sector_end(o.free_sector as int, es, o.sector_count as int);
        lemma_sector_end(o.active_sec as int, es, o.sector_count as int);
        // The target range is erased in `c1` and lies in sector `a`.
        if s1 == o && o.fits_in_place(rec) {
            lemma_in_own_sector(h, rec, es);
            assert(h / es == a);
        } else {
            lemma_sector_base(a, es);
            lemma_sectors_disjoint(sp, a, es);
            assert forall|j: int| h <= j < h + rec implies #[trigger] c1[j] == 0xFFu8 by {
                assert(c0[j] == 0xFFu8);
            }
        }
        assert(h / es == a && h % es + rec <= es) by {
            if !(s1 == o && o.fits_in_place(rec)) {
                lemma_sector_base(a, es);
            }
        }
        lemma_in_own_sector(h, rec, es);
        assert(all_erased(c1, h, rec));
        lemma_program_erased(c1, h, image);
        // The tail after the new head is still erased.
        assert forall|j: int| h + rec <= j < a * es + es implies #[trigger] c2[j] == 0xFFu8 by {
            assert(c2[j] == c1[j]);
            if s1 == o && o.fits_in_place(rec) {
                assert(c0[j] == 0xFFu8);
            } else {
                lemma_sectors_disjoint(sp, a, es);
                assert(c0[j] == 0xFFu8);
            }
        }
        // The spare is erased and apart from sector `a`.
        lemma_sectors_disjoint(sp, a, es);
        assert forall|j: int| sp * es <= j < sp * es + es implies #[trigger] c2[j] == 0xFFu8 by {
            assert(c2[j] == c1[j]);
            if s1 == o && o.fits_in_place(rec) {
                assert(c0[j] == 0xFFu8);
            }
        }
        // Every indexed record stays placed and keeps its bytes.
        assert forall|i: int| 0 <= i < o.entries().len() implies placed(#[trigger] f.entries()[i], f.active_sec, f.free_sector, f.head, o.esz, o.psz)
            && kept(c0, c2, o.entries()[i], o.psz) by {
            let e = o.entries()[i];
            assert(placed(e, o.active_sec, o.free_sector, o.head, o.esz, o.psz));
            let re = rec_len(e.key.len() as int, e.val_len as int, o.psz as int);
            let se = e.addr as int / es;
            lemma_in_own_sector(e.addr as int, re, es);
            if !(s1 == o && o.fits_in_place(rec)) {
                assert(!in_sector(e.addr, s1.free_sector, o.esz));
                lemma_in_sector_div(e.addr, s1.free_sector, o.esz);
                assert(se != sp);
                lemma_sectors_disjoint(se, sp, es);
            }
            if se != a {
                lemma_sectors_disjoint(se, a, es);
            }
            assert(entry_ok(e, c0.len() as int, o.psz as int, o.next_seq));
            assert forall|j: int| e.addr <= j < e.addr + re implies #[trigger] c2[j] == c0[j] by {
                assert(c2[j] == c1[j]);
                if !(s1 == o && o.fits_in_place(rec)) {
                    assert(c1[j] == c0[j]);
                }
            }
        }
        assert(f.active_sec as int * es <= f.head as int <= f.active_sec as int * es + es);
        assert forall|j: int| 0 <= j < o.dev.contents().len() && !(s1.head <= j < s1.head + rec) && !(f.active_sec != o.active_sec
            && f.free_sector as int * o.esz as int <= j < f.free_sector as int * o.esz as int + o.esz as int) implies #[trigger] c2[j]
            == c0[j] by {
            assert(c2[j] == c1[j]);
        }
    }

    /// The log of a store agrees with its index.
    pub open spec fn agrees(&self) -> bool {
        log_agrees(self.device().contents(), self.medium_log(), self.entries())
    }

    /// A store consistent with its medium agrees with it.
    proof fn lemma_consistent_agrees(s: Self)
        requires
            s.consistent(),
        ensures
            s.agrees(),
    {
        let l = s.medium_log();
        let ix = s.entries();
        assert forall|j: int| 0 <= j < l.len() implies (position(ix, #[trigger] l[j].key) matches Some(i) && (l[j].seq < ix[i].seq || (
            same_record(l[j], ix[i]) && value_at(s.device().contents(), l[j]) == value_at(s.device().contents(), ix[i])))) by {
            assert(position(ix, l[j].key) matches Some(i) && (l[j].seq < ix[i].seq || l[j] == ix[i]));
        }
    }

    /// A compaction from the consistent `o` stopped after copying the
    /// records at `ids[0..m]` (in `s`), possibly with a further append cut
    /// short at the head (bytes `c`, which differ from those of `s` only in
    /// the `rec` bytes after the head and hold the same log): the medium
    /// still agrees with the index, whose records hold their old values.
    #[verifier::rlimit(60)]
    #[verifier::spinoff_prover]
    proof fn lemma_progress_agrees(o: Self, s: Self, c: Seq<u8>, ids: Seq<int>, m: int, victim: u32, rec: int)
        requires
            o.wf(),
            o.consistent(),
            s.wf(),
            s.geom() == o.geom(),
            same_records(o.entries(), s.entries()),
            Self::compact_progress(o, s, ids, m, victim),
            Self::log_progress(o, s, ids, m),
            0 <= m <= ids.len(),
            forall|j: int| 0 <= j < ids.len() ==> 0 <= #[trigger] ids[j] < o.entries().len() && in_sector(o.entries()[ids[j]].addr, victim, o.esz),
            forall|i: int| 0 <= i < o.entries().len() && #[trigger] in_sector(o.entries()[i].addr, victim, o.esz) ==> ids.contains(i),
            victim < o.sector_count,
            c.len() == s.dev.contents().len(),
            s.dev.contents().len() == o.dev.contents().len(),
            rec >= 0,
            s.head as int + rec <= o.active_sec as int * o.esz as int + o.esz as int,
            forall|j: int| 0 <= j < c.len() && !(s.head <= j < s.head + rec) ==> #[trigger] c[j] == s.dev.contents()[j],
        ensures
            log_agrees(c, s.medium_log(), s.entries()),
            forall|i: int| 0 <= i < s.entries().len() ==> #[trigger] value_at(c, s.entries()[i]) == value_at(o.dev.contents(), o.entries()[i]),
    {
        let es = o.esz as int;
        let ps = o.psz as int;
        let n = o.sector_count as int;
        let orig = o.entries();
        let ix = s.entries();
        let c0 = o.dev.contents();
        let cs = s.dev.contents();
        let act = o.active_sec as int;
        let h0 = o.head as int;
        let lo = o.medium_log();
        let l = s.medium_log();
        lemma_sector_end(act, es, n);
        lemma_sum_lens_nonneg(orig, ids.take(m), o.psz);
        assert(h0 <= s.head);
        // The records of the index before compaction keep their bytes.
        assert forall|i: int| 0 <= i < orig.len() implies #[trigger] value_at(c, orig[i]) == value_at(c0, orig[i]) by {
            let e = orig[i];
            assert(placed_open(e, o.active_sec, o.head, o.esz, o.psz));
            assert(entry_ok(e, c0.len() as int, ps, o.next_seq));
            let re = rec_len(e.key.len() as int, e.val_len as int, ps);
            lemma_round_up(HEADER_SIZE + e.key.len() + e.val_len, ps);
            lemma_in_own_sector(e.addr as int, re, es);
            let se = e.addr as int / es;
            if se != act {
                lemma_sectors_disjoint(se, act, es);
            }
            assert(act * es <= h0);
            assert(e.addr + re <= c0.len());
            if se == act {
                assert(e.addr + re <= h0);
            } else {
                assert(e.addr + re <= act * es || act * es + es <= e.addr);
            }
            assert forall|j: int| e.addr <= j < e.addr + re implies #[trigger] c[j] == c0[j] by {
                assert(!(s.head <= j < s.head + rec));
                assert(!(h0 <= j < s.head));
                assert(c[j] == cs[j]);
            }
            assert(value_at(c, e) =~= value_at(c0, e));
        }
        // Every index entry now holds the value of its entry before.
        assert forall|i: int| 0 <= i < ix.len() implies #[trigger] value_at(c, ix[i]) == value_at(c0, orig[i]) by {
            if ix[i] != orig[i] {
                assert(in_sector(orig[i].addr, victim, o.esz));
                assert(ids.contains(i));
                let y = choose|y: int| 0 <= y < ids.len() && ids[y] == i;
                assert(y < m);
                let e = ix[i];
                assert(h0 <= e.addr && e.addr + rec_len(e.key.len() as int, e.val_len as int, ps) <= s.head);
                assert(same_record(orig[i], ix[i]));
                assert(entry_ok(e, cs.len() as int, ps, s.next_seq));
                lemma_round_up(HEADER_SIZE + e.key.len() + e.val_len, ps);
                assert(value_at(c, e) =~= value_at(cs, e));
                assert(value_at(cs, ix[i]) == value_at(c0, orig[i]));
            }
        }
        let cp = entries_at(ix, ids.take(m));
        assert forall|j: int| 0 <= j < l.len() implies (position(ix, #[trigger] l[j].key) matches Some(i) && (l[j].seq < ix[i].seq || (
            same_record(l[j], ix[i]) && value_at(c, l[j]) == value_at(c, ix[i])))) by {
            let x = l[j];
            assert(l.contains(x));
            lemma_device_log_mem(cs, n, es, ps, x);
            lemma_device_log_mem(c0, n, es, ps, x);
            let t = choose|t: int| 0 <= t < n && #[trigger] sector_log(cs, t * es, 0, es, ps).contains(x);
            let is_copy = t == act && !sector_log(c0, act * es, 0, es, ps).contains(x);
            if is_copy {
                let sl = sector_log(cs, act * es, 0, es, ps);
                let s0 = sector_log(c0, act * es, 0, es, ps);
                let jj = choose|jj: int| 0 <= jj < sl.len() && sl[jj] == x;
                if jj < s0.len() {
                    assert(s0[jj] == x);
                    assert(false);
                }
                let y = jj - s0.len();
                assert(x == cp[y]);
                assert(x == ix[ids[y]]);
                lemma_position_same_records(orig, ix, x.key);
                assert(position(ix, x.key) == Some(ids[y]));
            } else {
                if t != act {
                    assert(sector_log(c0, t * es, 0, es, ps).contains(x));
                }
                assert(lo.contains(x));
                let j0 = choose|j0: int| 0 <= j0 < lo.len() && lo[j0] == x;
                assert(position(orig, lo[j0].key) matches Some(i) && (lo[j0].seq < orig[i].seq || lo[j0] == orig[i]));
                lemma_position_same_records(orig, ix, x.key);
                let i = position(orig, x.key)->Some_0;
                assert(same_record(orig[i], ix[i]));
            }
        }
        assert forall|i: int| 0 <= i < ix.len() implies l.contains(#[trigger] ix[i]) by {
            let x = ix[i];
            lemma_device_log_mem(cs, n, es, ps, x);
            lemma_device_log_mem(c0, n, es, ps, x);
            if x != orig[i] {
                assert(in_sector(orig[i].addr, victim, o.esz));
                assert(ids.contains(i));
                let y = choose|y: int| 0 <= y < ids.len() && ids[y] == i;
                assert(y < m);
                let s0 = sector_log(c0, act * es, 0, es, ps);
                let sl = sector_log(cs, act * es, 0, es, ps);
                assert(cp[y] == x);
                assert(sl[s0.len() + y] == x);
                assert(sl.contains(x));
            } else {
                assert(lo.contains(orig[i]));
                let t = choose|t: int| 0 <= t < n && #[trigger] sector_log(c0, t * es, 0, es, ps).contains(x);
                if t == act {
                    let s0 = sector_log(c0, act * es, 0, es, ps);
                    let sl = sector_log(cs, act * es, 0, es, ps);
                    let jj = choose|jj: int| 0 <= jj < s0.len() && s0[jj] == x;
                    assert(sl[jj] == x);
                    assert(sl.contains(x));
                } else {
                    assert(sector_log(cs, t * es, 0, es, ps).contains(x));
                }
            }
        }
    }

    /// An append of `rec` bytes at the head that failed part way, after
    /// the head stayed in place or moved to the spare sector: every indexed
    /// record keeps its bytes, and when what was left at the head reads as
    /// no record the store still agrees with its medium.
    #[verifier::rlimit(40)]
    #[verifier::spinoff_prover]
    proof fn lemma_torn_layout(o: Self, s1: Self, f: Self, rec: int)
        requires
            o.clean(),
            o.consistent(),
            0 < rec <= o.esz,
            f.wf(),
            f.entries() == o.entries(),
            s1.entries() == o.entries(),
            f.geom() == o.geom(),
            s1.geom() == o.geom(),
            s1.dev.contents().len() == o.dev.contents().len(),
            f.dev.contents().len() == o.dev.contents().len(),
            s1.head as int + rec <= s1.dev.contents().len(),
            (s1 == o && o.fits_in_place(rec)) || ({
                &&& s1.active_sec == o.free_sector
                &&& s1.head as int == o.free_sector as int * o.esz as int
                &&& o.free_candidate(s1.free_sector, Some(o.free_sector), o.free_sector as int)
                &&& s1.dev.contents() == erased_range(o.dev.contents(), s1.free_sector as int * o.esz as int, o.esz as int)
            }),
            f.head == s1.head,
            f.active_sec == s1.active_sec,
            f.free_sector == s1.free_sector,
            forall|j: int| 0 <= j < s1.dev.contents().len() && !(s1.head <= j < s1.head + rec) ==> #[trigger] f.dev.contents()[j]
                == s1.dev.contents()[j],
        ensures
            values_kept(o.dev.contents(), o.entries(), f.dev.contents(), f.entries()),
            rec_at(f.dev.contents(), f.active_sec as int * o.esz as int, f.head as int - f.active_sec as int * o.esz as int, o.esz as int, o.psz as int)
                is None ==> f.consistent(),
    {
        let es = o.esz as int;
        let c0 = o.dev.contents();
        let c1 = s1.dev.contents();
        let c2 = f.dev.contents();
        let h = s1.head as int;
        let a = s1.active_sec as int;
        let sp = s1.free_sector as int;
        let fits = s1 == o && o.fits_in_place(rec);
        assert(o.sector_count as int * es <= c0.len());
        lemma_sector_end(a, es, o.sector_count as int);
        lemma_sector_end(sp, es, o.sector_count as int);
        lemma_sector_end(o.free_sector as int, es, o.sector_count as int);
        lemma_sector_end(o.active_sec as int, es, o.sector_count as int);
        if !fits {
            lemma_sector_base(a, es);
            lemma_sectors_disjoint(sp, a, es);
        }
        assert(h / es == a && h % es + rec <= es) by {
            if !fits {
                lemma_sector_base(a, es);
            }
        }
        lemma_in_own_sector(h, rec, es);
        assert forall|i: int| 0 <= i < o.entries().len() implies kept(c0, c2, #[trigger] o.entries()[i], o.psz) by {
            let e = o.entries()[i];
            assert(placed(e, o.active_sec, o.free_sector, o.head, o.esz, o.psz));
            let re = rec_len(e.key.len() as int, e.val_len as int, o.psz as int);
            let se = e.addr as int / es;
            lemma_in_own_sector(e.addr as int, re, es);
            if !fits {
                assert(!in_sector(e.addr, s1.free_sector, o.esz));
                lemma_in_sector_div(e.addr, s1.free_sector, o.esz);
                assert(se != sp);
                lemma_sectors_disjoint(se, sp, es);
            }
            if se != a {
                lemma_sectors_disjoint(se, a, es);
            }
            assert(entry_ok(e, c0.len() as int, o.psz as int, o.next_seq));
            assert forall|j: int| e.addr <= j < e.addr + re implies #[trigger] c2[j] == c0[j] by {
                assert(c2[j] == c1[j]);
                if !fits {
                    assert(c1[j] == c0[j]);
                }
            }
        }
        assert forall|i: int| 0 <= i < o.entries().len() implies #[trigger] value_at(c2, f.entries()[i]) == value_at(c0, o.entries()[i]) by {
            let e = o.entries()[i];
            assert(kept(c0, c2, e, o.psz));
            assert(entry_ok(e, c0.len() as int, o.psz as int, o.next_seq));
            lemma_round_up(HEADER_SIZE + e.key.len() + e.val_len, o.psz as int);
            assert(value_at(c2, e) =~= value_at(c0, e));
        }
        if rec_at(c2, f.active_sec as int * es, f.head as int - f.active_sec as int * es, es, o.psz as int) is None {
            if !fits {
                assert forall|j: int| sp * es <= j < sp * es + es implies #[trigger] c2[j] == 0xFFu8 by {
                    assert(c2[j] == c1[j]);
                }
            }
            assert forall|j: int| 0 <= j < c0.len() && !(f.head <= j < f.head + rec) && !(f.active_sec != o.active_sec
                && f.free_sector as int * es <= j < f.free_sector as int * es + es) implies #[trigger] c2[j] == c0[j] by {
                assert(c2[j] == c1[j]);
            }
            Self::lemma_torn_consistent(o, f, rec);
        }
    }

    /// Appends a record with sequence number `seq` at the head of the log
    /// (making room first) and returns its address.
    #[verifier::rlimit(30)]
    #[verifier::spinoff_prover]
    fn append_with_seq(&mut self, key: &[u8], value: &[u8], delete: bool, seq: u32, in_compaction: bool) -> (r: Result<u32, Error<D::Error>>)
        requires
            old(self).wf(),
            key@.len() <= MAX_KEY,
            value@.len() <= MAX_VALUE,
        ensures
            old(self).device().healthy() ==> final(self).device().healthy(),
            r matches Err(e) ==> e is Device || e is NoSpace,
            final(self).wf(),
            same_records(old(self).entries(), final(self).entries()),
            final(self).geom() == old(self).geom(),
            final(self).next_seq() == old(self).next_seq(),
            final(self).device().contents().len() == old(self).device().contents().len(),
            r matches Ok(a) ==> a as int + rec_len(key@.len() as int, value@.len() as int, old(self).psz as int) <= final(self).device().contents().len(),
            final(self).psz == old(self).psz,
            ({
                let rec = rec_len(key@.len() as int, value@.len() as int, old(self).geom().2 as int);
                let es = old(self).geom().1 as int;
                let c = final(self).device().contents();
                let base = final(self).active_sector() as int * es;
                !in_compaction && old(self).clean() && old(self).consistent() && old(self).compacts_within(rec) && r is Err ==> {
                    &&& values_kept(old(self).device().contents(), old(self).entries(), c, final(self).entries())
                    &&& rec_at(c, base, final(self).head_pos() as int - base, es, old(self).geom().2 as int) is None ==> final(self).agrees()
                }
            }),
            ({
                let rec = rec_len(key@.len() as int, value@.len() as int, old(self).geom().2 as int);
                old(self).fits_in_place(rec) && r is Err ==> {
                    &&& final(self).entries() == old(self).entries()
                    &&& Self::same_frame(&*final(self), &*old(self))
                    &&& forall|j: int| 0 <= j < old(self).device().contents().len() && !(old(self).head_pos() <= j < old(self).head_pos() + rec)
                        ==> #[trigger] final(self).device().contents()[j] == old(self).device().contents()[j]
                }
            }),
            ({
                let rec = rec_len(key@.len() as int, value@.len() as int, old(self).geom().2 as int);
                let es = old(self).geom().1 as int;
                let c = final(self).device().contents();
                let base = final(self).active_sector() as int * es;
                old(self).clean() && old(self).consistent() && old(self).appends_without_compaction(rec) && rec <= es && r is Err ==> {
                    &&& final(self).entries() == old(self).entries()
                    &&& values_kept(old(self).device().contents(), old(self).entries(), c, final(self).entries())
                    &&& rec_at(c, base, final(self).head_pos() as int - base, es, old(self).geom().2 as int) is None ==> final(self).consistent()
                }
            }),
            ({
                let rec = rec_len(key@.len() as int, value@.len() as int, old(self).geom().2 as int);
                old(self).fits_in_place(rec) ==> {
                    &&& r matches Err(e) ==> e is Device
                &&& old(self).device().healthy() ==> r is Ok
                    &&& old(self).device().healthy() ==> r is Ok
                    &&& r matches Ok(a) ==> {
                        &&& a == old(self).head_pos()
                        &&& final(self).head_pos() as int == a as int + rec
                        &&& final(self).entries() == old(self).entries()
                        &&& final(self).active_sector() == old(self).active_sector()
                        &&& final(self).spare_sector() == old(self).spare_sector()
                        &&& final(self).device().contents() == nor_program(
                            old(self).device().contents(),
                            a as int,
                            record_image(key@, value@, if delete { FLAG_DELETE } else { 0u16 }, seq, rec),
                        )
                    }
                }
            }),
            ({
                let rec = rec_len(key@.len() as int, value@.len() as int, old(self).geom().2 as int);
                old(self).clean() && old(self).appends_without_compaction(rec) && rec <= old(self).geom().1 ==> (r matches Ok(a) ==> {
                    &&& final(self).clean()
                    &&& final(self).entries() == old(self).entries()
                    &&& final(self).head_pos() as int == a as int + rec
                    &&& final(self).active_sector() as int == a as int / old(self).geom().1 as int
                    &&& a as int % old(self).geom().1 as int + rec <= old(self).geom().1
                    &&& final(self).device().contents().subrange(a as int, a as int + rec) == record_image(
                        key@,
                        value@,
                        if delete { FLAG_DELETE } else { 0u16 },
                        seq,
                        rec,
                    )
                    &&& forall|i: int| 0 <= i < old(self).entries().len() ==> #[trigger] kept(
                        old(self).device().contents(),
                        final(self).device().contents(),
                        old(self).entries()[i],
                        old(self).geom().2,
                    )
                    &&& (final(self).active_sector() == old(self).active_sector() && final(self).spare_sector() == old(self).spare_sector()
                        && a == old(self).head_pos()) || (final(self).active_sector() == old(self).spare_sector() && final(self).active_sector()
                        != old(self).active_sector() && a as int == old(self).spare_sector() as int * old(self).geom().1 as int
                        && !has_entry_in(old(self).entries(), final(self).spare_sector(), old(self).geom().1) && final(self).spare_sector()
                        != old(self).spare_sector())
                    &&& forall|j: int| 0 <= j < old(self).device().contents().len() && !(a <= j < a + rec) && !(final(self).active_sector()
                        != old(self).active_sector() && final(self).spare_sector() as int * old(self).geom().1 as int <= j
                        < final(self).spare_sector() as int * old(self).geom().1 as int + old(self).geom().1 as int) ==> #[trigger] final(self).device().contents()[j]
                        == old(self).device().contents()[j]
                })
            }),
            ({
                let rec = rec_len(key@.len() as int, value@.len() as int, old(self).geom().2 as int);
                let es = old(self).geom().1;
                let sp = old(self).spare_sector();
                !in_compaction && old(self).clean() && old(self).compacts_within(rec) ==> {
                    &&& r matches Err(e) ==> e is Device
                &&& old(self).device().healthy() ==> r is Ok
                    &&& old(self).device().healthy() ==> r is Ok
                    &&& r matches Ok(a) ==> (victim_of(old(self).entries(), old(self).geom().0, es, Some(sp), sp) matches Some(v) ==> {
                        &&& final(self).clean()
                        &&& a as int == sp as int * es as int + bytes_in(
                            old(self).entries(),
                            v,
                            es,
                            old(self).geom().2,
                            old(self).entries().len() as int,
                        )
                        &&& final(self).head_pos() as int == a as int + rec
                        &&& final(self).active_sector() == sp
                        &&& final(self).spare_sector() == v
                        &&& final(self).active_sector() as int == a as int / es as int
                        &&& a as int % es as int + rec <= es
                        &&& final(self).device().contents().subrange(a as int, a as int + rec) == record_image(
                            key@,
                            value@,
                            if delete { FLAG_DELETE } else { 0u16 },
                            seq,
                            rec,
                        )
                        &&& values_kept(old(self).device().contents(), old(self).entries(), final(self).device().contents(), final(self).entries())
                    })
                }
            }),
            ({
                let rec = rec_len(key@.len() as int, value@.len() as int, old(self).geom().2 as int);
                !in_compaction && old(self).clean() && old(self).consistent() && old(self).compacts_within(rec) ==> (r matches Ok(a)
                    ==> exists|s1: Self| #[trigger] Self::appended_in_place(s1, *final(self), a, rec) && s1.next_seq() == old(self).next_seq())
            }),
            old(self).appends_without_compaction(rec_len(key@.len() as int, value@.len() as int, old(self).geom().2 as int)) ==> (r matches Err(
                e,
            ) ==> e is Device),
            old(self).appends_without_compaction(rec_len(key@.len() as int, value@.len() as int, old(self).geom().2 as int)) && rec_len(
                key@.len() as int,
                value@.len() as int,
                old(self).geom().2 as int,
            ) <= old(self).geom().1 && old(self).device().healthy() ==> r is Ok,
        decreases if in_compaction { 2int } else { 6int },
    {
        let payload = (key.len() + value.len()) as u32;
        proof {
            assert(self.esz as int * 3 <= u32::MAX) by (nonlinear_arith)
                requires
                    self.sector_count >= 3,
                    self.sector_count as int * self.esz as int <= u32::MAX,
                    self.esz > 0,
            ;
            vstd::arithmetic::div_mod::lemma_mod_pos_bound(self.esz as int, self.psz as int);
            assert(self.psz <= self.esz) by (nonlinear_arith)
                requires
                    self.esz % self.psz == 0,
                    self.esz > 0,
                    self.psz > 0,
            ;
        }
        let rec = round_up_exec(HEADER_SIZE as u32 + payload, self.psz);
        proof {
            lemma_round_up(HEADER_SIZE + payload, self.psz as int);
        }
        self.ensure_room(rec, in_compaction)?;
        let ghost s1 = *self;
        let addr = self.head;
        proof {
            lemma_round_up(HEADER_SIZE + payload, self.psz as int);
        }
        let flags: u16 = if delete { FLAG_DELETE } else { 0 };
        let image = encode_record(key, value, flags, seq, rec as usize);
        proof {
            let o = *old(self);
            if !o.fits_in_place(rec as int) && o.appends_without_compaction(rec as int) && rec <= o.esz {
                let w = choose|t: u32| #[trigger] o.free_candidate(t, Some(o.spare_sector()), o.spare_sector() as int);
                assert(o.free_candidate(w, Some(o.spare_sector()), o.spare_sector() as int));
                lemma_sector_base(self.active_sec as int, self.esz as int);
                assert(self.fits_in_place(rec as int));
            }
            if self.fits_in_place(rec as int) {
                lemma_fits_in_medium(
                    self.head as int,
                    rec as int,
                    self.active_sec as int,
                    self.esz as int,
                    self.sector_count as int,
                    self.dev.contents().len() as int,
                );
            }
        }
        match self.dev.program(addr, image.as_slice()) {
            Ok(()) => {},
            Err(e) => {
                proof {
                    let o = *old(self);
                    if o.clean() && o.consistent() && o.appends_without_compaction(rec as int) && rec <= o.esz {
                        if !o.fits_in_place(rec as int) {
                            let w = choose|t: u32| #[trigger] o.free_candidate(t, Some(o.spare_sector()), o.spare_sector() as int);
                            assert(o.free_candidate(w, Some(o.spare_sector()), o.spare_sector() as int));
                        }
                        lemma_rec_len_pos(key@.len() as int, value@.len() as int, self.psz as int);
                        Self::lemma_torn_layout(o, s1, *self, rec as int);
                    }
                    if !in_compaction && o.clean() && o.consistent() && o.compacts_within(rec as int) {
                        lemma_rec_len_pos(key@.len() as int, value@.len() as int, self.psz as int);
                        assert(s1.clean() && s1.consistent() && s1.fits_in_place(rec as int));
                        Self::lemma_torn_layout(s1, s1, *self, rec as int);
                        let c = self.dev.contents();
                        assert forall|i: int| 0 <= i < o.entries().len() implies #[trigger] value_at(c, self.entries()[i]) == value_at(
                            o.dev.contents(),
                            o.entries()[i],
                        ) by {
                            assert(value_at(c, self.entries()[i]) == value_at(s1.dev.contents(), s1.entries()[i]));
                        }
                        let base = self.active_sec as int * self.esz as int;
                        if rec_at(c, base, self.head as int - base, self.esz as int, self.psz as int) is None {
                            Self::lemma_consistent_agrees(*self);
                        }
                    }
                }
                return Err(Error::Device(e));
            },
        }
        self.head = addr + rec;
        proof {
            let o = *old(self);
            if !in_compaction && o.clean() && o.compacts_within(rec as int) {
                lemma_round_up(HEADER_SIZE + payload, self.psz as int);
                Self::lemma_append_layout(s1, s1, *self, rec as int, image@);
                if o.consistent() {
                    assert(rec as int == rec_len(key@.len() as int, value@.len() as int, o.geom().2 as int));
                    assert(Self::appended_in_place(s1, *self, addr, rec as int));
                    assert(s1.next_seq() == o.next_seq());
                }
                let f = *self;
                assert forall|i: int| 0 <= i < o.entries().len() implies #[trigger] value_at(f.dev.contents(), f.entries()[i])
                    == value_at(o.dev.contents(), o.entries()[i]) by {
                    let x = s1.entries()[i];
                    assert(kept(s1.dev.contents(), f.dev.contents(), x, s1.psz));
                    assert(entry_ok(x, s1.dev.contents().len() as int, s1.psz as int, s1.next_seq));
                    lemma_round_up(HEADER_SIZE + x.key.len() + x.val_len, s1.psz as int);
                    assert(value_at(f.dev.contents(), x) =~= value_at(s1.dev.contents(), x)) by {
                        assert forall|j: int| 0 <= j < x.val_len implies #[trigger] value_at(f.dev.contents(), x)[j] == value_at(s1.dev.contents(), x)[j] by {
                            let y = x.addr + HEADER_SIZE + x.key.len() + j;
                            assert(f.dev.contents()[y] == s1.dev.contents()[y]);
                        }
                    }
                }
            }
            if o.clean() && o.appends_without_compaction(rec as int) && rec <= o.esz {
                if !o.fits_in_place(rec as int) {
                    let w = choose|t: u32| #[trigger] o.free_candidate(t, Some(o.spare_sector()), o.spare_sector() as int);
                    assert(o.free_candidate(w, Some(o.spare_sector()), o.spare_sector() as int));
                }
                Self::lemma_append_layout(o, s1, *self, rec as int, image@);
            }
        }
        Ok(addr)
    }
}

/// The value bytes of a record image are the value.
proof fn lemma_image_value(key: Seq<u8>, value: Seq<u8>, flags: u16, seq: u32, len: int)
    requires
        HEADER_SIZE + key.len() + value.len() <= len,
    ensures
        record_image(key, value, flags, seq, len).len() == len,
        record_image(key, value, flags, seq, len).subrange(
            HEADER_SIZE + key.len(),
            HEADER_SIZE + key.len() + value.len(),
        ) == value,
{
    let h = header_head(seq, key.len() as u16, value.len() as u16, flags);
    assert(h.len() == 16);
    let img = record_image(key, value, flags, seq, len);
    let body = key + value;
    assert forall|i: int| 0 <= i < value.len() implies #[trigger] img[HEADER_SIZE + key.len() + i] == value[i] by {
        assert(img[HEADER_SIZE + key.len() + i] == body[key.len() + i]);
    }
    assert(img.subrange(HEADER_SIZE + key.len(), HEADER_SIZE + key.len() + value.len()) =~= value);
}

/// Upserting `e` leaves the entry of every other key where and as it was.
proof fn lemma_upsert_others(old: Seq<EntryView>, new: Seq<EntryView>, e: EntryView, cap: int, ok: bool, k: Seq<u8>)
    requires
        distinct_keys(old),
        upserted(old, new, e, cap, ok),
        k != e.key,
    ensures
        position(new, k) == position(old, k),
        position(old, k) matches Some(i) ==> new[i] == old[i],
{
    match position(old, e.key) {
        Some(i) => {
            if old[i].seq < e.seq {
                assert(new == old.update(i, e));
                assert forall|j: int| 0 <= j < new.len() implies (#[trigger] new[j].key == k) == (old[j].key == k) by {
                    if j == i {
                        assert(old[i].key == e.key);
                    }
                }
            }
        },
        None => {
            if old.len() < cap {
                assert(new == old.push(e));
                assert forall|j: int| 0 <= j < old.len() implies #[trigger] new[j] == old[j] by {}
            }
        },
    }
    if exists|j: int| 0 <= j < old.len() && #[trigger] old[j].key == k {
        let co = choose|j: int| 0 <= j < old.len() && #[trigger] old[j].key == k;
        assert(new[co] == old[co]) by {
            match position(old, e.key) {
                Some(i) => {
                    if co == i {
                        assert(old[i].key == e.key);
                    }
                },
                None => {},
            }
        }
        assert(new[co].key == k);
        let cn = choose|j: int| 0 <= j < new.len() && #[trigger] new[j].key == k;
        if cn != co {
            match position(old, e.key) {
                Some(i) => {
                    if old[i].seq < e.seq {
                        if cn == i {
                            assert(new[i] == e);
                        } else {
                            assert(new[cn] == old[cn]);
                            assert(old[cn].key != old[co].key);
                        }
                    } else {
                        assert(old[cn].key != old[co].key);
                    }
                },
                None => {
                    if old.len() < cap && cn == old.len() {
                        assert(new[cn] == e);
                    } else {
                        assert(new[cn] == old[cn]);
                        assert(old[cn].key != old[co].key);
                    }
                },
            }
        }
    } else {
        assert forall|j: int| 0 <= j < new.len() implies #[trigger] new[j].key != k by {
            match position(old, e.key) {
                Some(i) => {
                    if old[i].seq < e.seq && j == i {
                        assert(new[i] == e);
                    } else {
                        assert(new[j] == old[j]);
                    }
                },
                None => {
                    if old.len() < cap && j == old.len() {
                        assert(new[j] == e);
                    } else {
                        assert(new[j] == old[j]);
                    }
                },
            }
        }
    }
}

/// Effect of upserting a record newer than every entry of `old`.
proof fn lemma_upsert_newest(old: Seq<EntryView>, new: Seq<EntryView>, e: EntryView, cap: int, ok: bool)
    requires
        distinct_keys(old),
        upserted(old, new, e, cap, ok),
        forall|j: int| 0 <= j < old.len() ==> (#[trigger] old[j]).seq < e.seq,
    ensures
        distinct_keys(new),
        ok ==> (position(new, e.key) matches Some(p) && new[p] == e),
        ok ==> record_of(new, e.key) == Some((e.seq, e.val_len, e.deleted)),
        !ok ==> new == old && position(old, e.key) is None && old.len() >= cap,
        forall|k: Seq<u8>| k != e.key ==> #[trigger] record_of(new, k) == record_of(old, k),
        forall|j: int| 0 <= j < new.len() ==> (#[trigger] new[j] == e || (exists|m: int| 0 <= m < old.len() && new[j] == old[m])),
{
    match position(old, e.key) {
        Some(i) => {
            assert(old[i].seq < e.seq);
            assert(new == old.update(i, e));
            assert forall|a: int, b: int| 0 <= a < new.len() && 0 <= b < new.len() && a != b implies #[trigger] new[a].key != #[trigger] new[b].key by {
                if a == i {
                    assert(old[i].key == e.key);
                }
                if b == i {
                    assert(old[i].key == e.key);
                }
            }
            assert(new[i] == e);
            assert forall|k: Seq<u8>| k != e.key implies #[trigger] record_of(new, k) == record_of(old, k) by {
                assert forall|j: int| 0 <= j < new.len() implies (new[j].key == k) == (old[j].key == k) by {
                    if j == i {
                        assert(old[i].key == e.key);
                    }
                }
                if exists|j: int| 0 <= j < old.len() && #[trigger] old[j].key == k {
                    let co = choose|j: int| 0 <= j < old.len() && #[trigger] old[j].key == k;
                    assert(new[co].key == k);
                    let cn = choose|j: int| 0 <= j < new.len() && #[trigger] new[j].key == k;
                    if co != cn {
                        assert(new[co].key != new[cn].key);
                    }
                    assert(co != i);
                } else {
                    assert forall|j: int| 0 <= j < new.len() implies #[trigger] new[j].key != k by {}
                }
            }
            let cn = choose|j: int| 0 <= j < new.len() && #[trigger] new[j].key == e.key;
            if cn != i {
                assert(new[cn].key != new[i].key);
            }
            assert forall|j: int| 0 <= j < new.len() implies (#[trigger] new[j] == e || (exists|m: int| 0 <= m < old.len() && new[j] == old[m])) by {
                if j != i {
                    assert(new[j] == old[j]);
                }
            }
        },
        None => {
            assert forall|j: int| 0 <= j < old.len() implies #[trigger] old[j].key != e.key by {}
            if old.len() < cap {
                assert(new == old.push(e));
                let l = old.len() as int;
                assert forall|a: int, b: int| 0 <= a < new.len() && 0 <= b < new.len() && a != b implies #[trigger] new[a].key != #[trigger] new[b].key by {
                    if a == l {
                        assert(new[b] == old[b]);
                    } else if b == l {
                        assert(new[a] == old[a]);
                    } else {
                        assert(new[a] == old[a]);
                        assert(new[b] == old[b]);
                    }
                }
                assert(new[l] == e);
                let cn = choose|j: int| 0 <= j < new.len() && #[trigger] new[j].key == e.key;
                if cn != l {
                    assert(new[cn] == old[cn]);
                }
                assert forall|k: Seq<u8>| k != e.key implies #[trigger] record_of(new, k) == record_of(old, k) by {
                    if exists|j: int| 0 <= j < old.len() && #[trigger] old[j].key == k {
                        let co = choose|j: int| 0 <= j < old.len() && #[trigger] old[j].key == k;
                        assert(new[co] == old[co]);
                        let cn2 = choose|j: int| 0 <= j < new.len() && #[trigger] new[j].key == k;
                        if cn2 != co {
                            if cn2 == l {
                            } else {
                                assert(new[cn2] == old[cn2]);
                                assert(old[cn2].key != old[co].key);
                            }
                        }
                    } else {
                        assert forall|j: int| 0 <= j < new.len() implies #[trigger] new[j].key != k by {
                            if j < l {
                                assert(new[j] == old[j]);
                            }
                        }
                    }
                }
                assert forall|j: int| 0 <= j < new.len() implies (#[trigger] new[j] == e || (exists|m: int| 0 <= m < old.len() && new[j] == old[m])) by {
                    if j < l {
                        assert(new[j] == old[j]);
                    }
                }
            }
        },
    }
}

impl<D: BlockDevice, const N: usize> Rufs<D, N> {
    /// Appends a record with the next sequence number; refuses one larger
    /// than a sector.
    #[verifier::spinoff_prover]
    fn append_record(&mut self, key: &[u8], value: &[u8], delete: bool) -> (r: Result<u32, Error<D::Error>>)
        requires
            old(self).wf(),
            key@.len() <= MAX_KEY,
            value@.len() <= MAX_VALUE,
            old(self).next_seq() < u32::MAX,
        ensures
            ({
                let rec = rec_len(key@.len() as int, value@.len() as int, old(self).geom().2 as int);
                let es = old(self).geom().1 as int;
                let c = final(self).device().contents();
                let base = final(self).active_sector() as int * es;
                old(self).clean() && old(self).consistent() && old(self).compacts_within(rec) && r is Err ==> {
                    &&& values_kept(old(self).device().contents(), old(self).entries(), c, final(self).entries())
                    &&& rec_at(c, base, final(self).head_pos() as int - base, es, old(self).geom().2 as int) is None ==> final(self).agrees()
                }
            }),
            ({
                let rec = rec_len(key@.len() as int, value@.len() as int, old(self).geom().2 as int);
                let es = old(self).geom().1 as int;
                let c = final(self).device().contents();
                let base = final(self).active_sector() as int * es;
                old(self).clean() && old(self).consistent() && old(self).appends_without_compaction(rec) && r is Err ==> {
                    &&& final(self).entries() == old(self).entries()
                    &&& values_kept(old(self).device().contents(), old(self).entries(), c, final(self).entries())
                    &&& rec_at(c, base, final(self).head_pos() as int - base, es, old(self).geom().2 as int) is None ==> final(self).consistent()
                }
            }),
            old(self).device().healthy() ==> final(self).device().healthy(),
            r matches Err(e) ==> e is Device || e is NoSpace || e is TooLarge,
            final(self).wf(),
            same_records(old(self).entries(), final(self).entries()),
            final(self).geom() == old(self).geom(),
            final(self).device().contents().len() == old(self).device().contents().len(),
            rec_len(key@.len() as int, value@.len() as int, old(self).psz as int) > old(self).esz ==> r
                == Err::<u32, Error<D::Error>>(Error::TooLarge) && *final(self) == *old(self),
            r is Ok ==> final(self).next_seq() == old(self).next_seq() + 1,
            r is Err ==> final(self).next_seq() == old(self).next_seq(),
            r matches Ok(a) ==> a as int + rec_len(key@.len() as int, value@.len() as int, old(self).psz as int) <= final(self).device().contents().len(),
            ({
                let rec = rec_len(key@.len() as int, value@.len() as int, old(self).geom().2 as int);
                old(self).clean() && old(self).appends_without_compaction(rec) ==> (r matches Ok(a) ==> {
                    &&& final(self).clean()
                    &&& final(self).entries() == old(self).entries()
                    &&& final(self).head_pos() as int == a as int + rec
                    &&& final(self).active_sector() as int == a as int / old(self).geom().1 as int
                    &&& a as int % old(self).geom().1 as int + rec <= old(self).geom().1
                    &&& final(self).device().contents().subrange(a as int, a as int + rec) == record_image(
                        key@,
                        value@,
                        if delete { FLAG_DELETE } else { 0u16 },
                        old(self).next_seq(),
                        rec,
                    )
                    &&& forall|i: int| 0 <= i < old(self).entries().len() ==> #[trigger] kept(
                        old(self).device().contents(),
                        final(self).device().contents(),
                        old(self).entries()[i],
                        old(self).geom().2,
                    )
                    &&& (final(self).active_sector() == old(self).active_sector() && final(self).spare_sector() == old(self).spare_sector()
                        && a == old(self).head_pos()) || (final(self).active_sector() == old(self).spare_sector() && final(self).active_sector()
                        != old(self).active_sector() && a as int == old(self).spare_sector() as int * old(self).geom().1 as int
                        && !has_entry_in(old(self).entries(), final(self).spare_sector(), old(self).geom().1) && final(self).spare_sector()
                        != old(self).spare_sector())
                    &&& forall|j: int| 0 <= j < old(self).device().contents().len() && !(a <= j < a + rec) && !(final(self).active_sector()
                        != old(self).active_sector() && final(self).spare_sector() as int * old(self).geom().1 as int <= j
                        < final(self).spare_sector() as int * old(self).geom().1 as int + old(self).geom().1 as int) ==> #[trigger] final(self).device().contents()[j]
                        == old(self).device().contents()[j]
                })
            }),
            ({
                let rec = rec_len(key@.len() as int, value@.len() as int, old(self).geom().2 as int);
                let es = old(self).geom().1;
                let sp = old(self).spare_sector();
                old(self).clean() && old(self).compacts_within(rec) ==> {
                    &&& r matches Err(e) ==> e is Device
                    &&& old(self).device().healthy() ==> r is Ok
                    &&& r matches Ok(a) ==> (victim_of(old(self).entries(), old(self).geom().0, es, Some(sp), sp) matches Some(v) ==> {
                        &&& final(self).clean()
                        &&& a as int == sp as int * es as int + bytes_in(
                            old(self).entries(),
                            v,
                            es,
                            old(self).geom().2,
                            old(self).entries().len() as int,
                        )
                        &&& final(self).head_pos() as int == a as int + rec
                        &&& final(self).active_sector() == sp
                        &&& final(self).spare_sector() == v
                        &&& final(self).active_sector() as int == a as int / es as int
                        &&& a as int % es as int + rec <= es
                        &&& final(self).device().contents().subrange(a as int, a as int + rec) == record_image(
                            key@,
                            value@,
                            if delete { FLAG_DELETE } else { 0u16 },
                            old(self).next_seq(),
                            rec,
                        )
                        &&& values_kept(old(self).device().contents(), old(self).entries(), final(self).device().contents(), final(self).entries())
                    })
                }
            }),
            ({
                let rec = rec_len(key@.len() as int, value@.len() as int, old(self).geom().2 as int);
                old(self).clean() && old(self).consistent() && old(self).compacts_within(rec) ==> (r matches Ok(a) ==> exists|s1: Self|
                    #[trigger] Self::appended_in_place(s1, *final(self), a, rec) && s1.next_seq() == old(self).next_seq())
            }),
            ({
                let rec = rec_len(key@.len() as int, value@.len() as int, old(self).geom().2 as int);
                old(self).fits_in_place(rec) ==> {
                    &&& r matches Err(e) ==> e is Device
                    &&& old(self).device().healthy() ==> r is Ok
                    &&& r matches Ok(a) ==> {
                        &&& a == old(self).head_pos()
                        &&& final(self).head_pos() as int == a as int + rec
                        &&& final(self).active_sector() == old(self).active_sector()
                        &&& final(self).spare_sector() == old(self).spare_sector()
                    }
                }
            }),
            ({
                let rec = rec_len(key@.len() as int, value@.len() as int, old(self).geom().2 as int);
                old(self).appends_without_compaction(rec) && rec <= old(self).geom().1 ==> (r matches Err(e) ==> e is Device)
            }),
            ({
                let rec = rec_len(key@.len() as int, value@.len() as int, old(self).geom().2 as int);
                old(self).appends_without_compaction(rec) && rec <= old(self).geom().1 && old(self).device().healthy() ==> r is Ok
            }),
    {
        let payload = (key.len() + value.len()) as u32;
        proof {
            assert(self.esz as int * 3 <= u32::MAX) by (nonlinear_arith)
                requires
                    self.sector_count >= 3,
                    self.sector_count as int * self.esz as int <= u32::MAX,
                    self.esz > 0,
            ;
            assert(self.psz <= self.esz) by (nonlinear_arith)
                requires
                    self.esz % self.psz == 0,
                    self.esz > 0,
                    self.psz > 0,
            ;
        }
        let rec = round_up_exec(HEADER_SIZE as u32 + payload, self.psz);
        proof {
            if self.clean() && self.compacts_within(rec as int) {
                let v = victim_of(self.entries(), self.sector_count, self.esz, Some(self.free_sector), self.free_sector)->0;
                lemma_sector_indices(self.entries(), v, self.esz, self.psz, self.entries().len() as int);
            }
        }
        if rec > self.esz {
            proof {
                if self.consistent() {
                    Self::lemma_consistent_agrees(*self);
                }
            }
            return Err(Error::TooLarge);
        }
        let seq = self.next_seq;
        let addr = self.append_with_seq(key, value, delete, seq, false)?;
        let ghost s_seq = *self;
        self.next_seq = seq + 1;
        proof {
            let rec2 = rec_len(key@.len() as int, value@.len() as int, self.psz as int);
            if old(self).clean() && old(self).consistent() && old(self).compacts_within(rec2) {
                let s1 = choose|s1: Self| #[trigger] Self::appended_in_place(s1, s_seq, addr, rec2) && s1.next_seq() == old(self).next_seq();
                assert(Self::appended_in_place(s1, *self, addr, rec2));
            }
            let v = self.entries();
            assert forall|j: int| 0 <= j < v.len() implies entry_ok(#[trigger] v[j], self.dev.contents().len() as int, self.psz as int, self.next_seq) by {
                assert(entry_ok(v[j], self.dev.contents().len() as int, self.psz as int, seq));
            }
        }
        Ok(addr)
    }

    /// Writes (or overwrites) `value` under `key`.
    pub fn set(&mut self, key: &[u8], value: &[u8]) -> (r: Result<(), Error<D::Error>>)
        requires
            old(self).wf(),
            old(self).next_seq() < u32::MAX,
        ensures
            ({
                let es = old(self).geom().1 as int;
                let c = final(self).device().contents();
                let base = final(self).active_sector() as int * es;
                let ges = final(self).device().geometry().1 as int;
                let gps = final(self).device().geometry().0 as int;
                old(self).clean() && old(self).consistent() && old(self).write_fits(key@.len() as int, value@.len() as int) && r is Err
                    && r->Err_0 is Device ==> {
                    &&& same_records(old(self).entries(), final(self).entries())
                    &&& forall|k: Seq<u8>| #[trigger] final(self).reads(k) == old(self).reads(k)
                    &&& rec_at(c, base, final(self).head_pos() as int - base, es, old(self).geom().2 as int) is None ==> (fold_index(
                        device_log(c, c.len() as int / ges, ges, gps),
                        N as int,
                    ) matches Some(ix) && forall|k: Seq<u8>| #[trigger] reads_in(c, ix, k) == old(self).reads(k))
                }
            }),
            ({
                let es = old(self).geom().1 as int;
                let c = final(self).device().contents();
                let base = final(self).active_sector() as int * es;
                old(self).clean() && old(self).consistent() && old(self).write_needs_no_compaction(key@.len() as int, value@.len() as int) && r is Err
                    && r->Err_0 is Device ==> final(self).entries() == old(self).entries() && (rec_at(
                    c,
                    base,
                    final(self).head_pos() as int - base,
                    es,
                    old(self).geom().2 as int,
                ) is None ==> final(self).consistent())
            }),
            old(self).device().healthy() ==> final(self).device().healthy(),
            final(self).wf(),
            final(self).device().contents().len() == old(self).device().contents().len(),
            key@.len() == 0 || key@.len() > MAX_KEY || value@.len() > MAX_VALUE ==> r == Err::<(), Error<D::Error>>(Error::TooLarge)
                && *final(self) == *old(self),
            r is Ok ==> (final(self).live_entry(key@) matches Some(e) && e.seq == old(self).next_seq() && e.val_len == value@.len())
                && final(self).next_seq() == old(self).next_seq() + 1,
            r is Ok ==> record_of(final(self).entries(), key@) == Some((old(self).next_seq(), value@.len() as u16, false)),
            r is Ok || r == Err::<(), Error<D::Error>>(Error::IndexFull) ==> forall|k: Seq<u8>| k != key@ ==> #[trigger] record_of(final(self).entries(), k) == record_of(old(self).entries(), k),
            r == Err::<(), Error<D::Error>>(Error::IndexFull) ==> record_of(final(self).entries(), key@) is None
                && old(self).entries().len() == N,
            !(r is Ok || r == Err::<(), Error<D::Error>>(Error::IndexFull)) ==> forall|k: Seq<u8>| #[trigger] record_of(final(self).entries(), k) == record_of(old(self).entries(), k),
            old(self).clean() && old(self).write_needs_no_compaction(key@.len() as int, value@.len() as int) && r is Ok ==> {
                &&& final(self).clean()
                &&& final(self).live_entry(key@) matches Some(e) && final(self).value_of(e) == value@
                &&& forall|k: Seq<u8>| k != key@ ==> #[trigger] final(self).live_entry(k) == old(self).live_entry(k)
                &&& forall|k: Seq<u8>| k != key@ ==> (#[trigger] old(self).live_entry(k) matches Some(e) ==> final(self).value_of(e) == old(self).value_of(e))
            },
            old(self).clean() && old(self).write_fits(key@.len() as int, value@.len() as int) && r is Ok ==> {
                &&& final(self).clean()
                &&& final(self).reads(key@) == Some(value@)
                &&& forall|k: Seq<u8>| k != key@ ==> #[trigger] final(self).reads(k) == old(self).reads(k)
            },
            old(self).clean() && old(self).consistent() && old(self).write_fits(key@.len() as int, value@.len() as int) && r is Ok
                ==> final(self).consistent(),
            r matches Err(e) ==> e is TooLarge || e is IndexFull || e is NoSpace || e is Device,
            r is Ok ==> final(self).entries().len() == old(self).entries().len() + (if record_of(old(self).entries(), key@) is None {
                1int
            } else {
                0int
            }),
            ({
                let rec = rec_len(key@.len() as int, value@.len() as int, old(self).geom().2 as int);
                1 <= key@.len() <= MAX_KEY && value@.len() <= MAX_VALUE && old(self).fits_in_place(rec) ==> {
                    &&& r matches Err(e) ==> e is Device || e is IndexFull
                    &&& old(self).device().healthy() ==> (r matches Err(e) ==> e is IndexFull)
                    &&& r is Ok ==> final(self).head_pos() as int == old(self).head_pos() as int + rec && final(self).active_sector()
                        == old(self).active_sector()
                }
            }),
            final(self).geom() == old(self).geom(),
            r == Err::<(), Error<D::Error>>(Error::IndexFull) ==> record_of(old(self).entries(), key@) is None,
            ({
                let rec = rec_len(key@.len() as int, value@.len() as int, old(self).geom().2 as int);
                old(self).clean() && 1 <= key@.len() <= MAX_KEY && value@.len() <= MAX_VALUE && rec <= old(self).geom().1 && old(self).write_fits(
                    key@.len() as int,
                    value@.len() as int,
                ) ==> (r matches Err(e) ==> e is Device || e is IndexFull)
            }),
            ({
                let rec = rec_len(key@.len() as int, value@.len() as int, old(self).geom().2 as int);
                old(self).clean() && 1 <= key@.len() <= MAX_KEY && value@.len() <= MAX_VALUE && rec <= old(self).geom().1 && old(self).write_fits(
                    key@.len() as int,
                    value@.len() as int,
                ) && old(self).device().healthy() ==> (r matches Err(e) ==> e is IndexFull)
            }),
    {
        let r = self.write_record(key, value, false);
        proof {
            Self::lemma_power_loss(*old(self), *self, key@, value@.len() as int, r is Err && r->Err_0 is Device);
        }
        r
    }

    /// Deletes `key` (writes a tombstone). Deleting a missing key succeeds.
    pub fn delete(&mut self, key: &[u8]) -> (r: Result<(), Error<D::Error>>)
        requires
            old(self).wf(),
            old(self).next_seq() < u32::MAX,
        ensures
            ({
                let es = old(self).geom().1 as int;
                let c = final(self).device().contents();
                let base = final(self).active_sector() as int * es;
                let ges = final(self).device().geometry().1 as int;
                let gps = final(self).device().geometry().0 as int;
                old(self).clean() && old(self).consistent() && old(self).write_fits(key@.len() as int, 0) && r is Err
                    && r->Err_0 is Device ==> {
                    &&& same_records(old(self).entries(), final(self).entries())
                    &&& forall|k: Seq<u8>| #[trigger] final(self).reads(k) == old(self).reads(k)
                    &&& rec_at(c, base, final(self).head_pos() as int - base, es, old(self).geom().2 as int) is None ==> (fold_index(
                        device_log(c, c.len() as int / ges, ges, gps),
                        N as int,
                    ) matches Some(ix) && forall|k: Seq<u8>| #[trigger] reads_in(c, ix, k) == old(self).reads(k))
                }
            }),
            ({
                let es = old(self).geom().1 as int;
                let c = final(self).device().contents();
                let base = final(self).active_sector() as int * es;
                old(self).clean() && old(self).consistent() && old(self).write_needs_no_compaction(key@.len() as int, 0) && r is Err
                    && r->Err_0 is Device ==> final(self).entries() == old(self).entries() && (rec_at(
                    c,
                    base,
                    final(self).head_pos() as int - base,
                    es,
                    old(self).geom().2 as int,
                ) is None ==> final(self).consistent())
            }),
            old(self).device().healthy() ==> final(self).device().healthy(),
            final(self).wf(),
            final(self).device().contents().len() == old(self).device().contents().len(),
            key@.len() == 0 || key@.len() > MAX_KEY ==> r == Err::<(), Error<D::Error>>(Error::TooLarge) && *final(self) == *old(self),
            r is Ok ==> final(self).live_entry(key@) is None && record_of(final(self).entries(), key@) == Some((old(self).next_seq(), 0u16, true))
                && final(self).next_seq() == old(self).next_seq() + 1,
            r is Ok || r == Err::<(), Error<D::Error>>(Error::IndexFull) ==> forall|k: Seq<u8>| k != key@ ==> #[trigger] record_of(final(self).entries(), k) == record_of(old(self).entries(), k),
            r == Err::<(), Error<D::Error>>(Error::IndexFull) ==> record_of(final(self).entries(), key@) is None
                && old(self).entries().len() == N,
            !(r is Ok || r == Err::<(), Error<D::Error>>(Error::IndexFull)) ==> forall|k: Seq<u8>| #[trigger] record_of(final(self).entries(), k) == record_of(old(self).entries(), k),
            old(self).clean() && old(self).write_needs_no_compaction(key@.len() as int, 0) && r is Ok ==> {
                &&& final(self).clean()
                &&& forall|k: Seq<u8>| k != key@ ==> #[trigger] final(self).live_entry(k) == old(self).live_entry(k)
                &&& forall|k: Seq<u8>| k != key@ ==> (#[trigger] old(self).live_entry(k) matches Some(e) ==> final(self).value_of(e) == old(self).value_of(e))
            },
            old(self).clean() && old(self).write_fits(key@.len() as int, 0) && r is Ok ==> {
                &&& final(self).clean()
                &&& final(self).reads(key@) is None
                &&& forall|k: Seq<u8>| k != key@ ==> #[trigger] final(self).reads(k) == old(self).reads(k)
            },
            old(self).clean() && old(self).consistent() && old(self).write_fits(key@.len() as int, 0) && r is Ok
                ==> final(self).consistent(),
            r matches Err(e) ==> e is TooLarge || e is IndexFull || e is NoSpace || e is Device,
            r is Ok ==> final(self).entries().len() == old(self).entries().len() + (if record_of(old(self).entries(), key@) is None {
                1int
            } else {
                0int
            }),
            ({
                let rec = rec_len(key@.len() as int, 0 as int, old(self).geom().2 as int);
                1 <= key@.len() <= MAX_KEY && 0 <= MAX_VALUE && old(self).fits_in_place(rec) ==> {
                    &&& r matches Err(e) ==> e is Device || e is IndexFull
                    &&& old(self).device().healthy() ==> (r matches Err(e) ==> e is IndexFull)
                    &&& r is Ok ==> final(self).head_pos() as int == old(self).head_pos() as int + rec && final(self).active_sector()
                        == old(self).active_sector()
                }
            }),
            final(self).geom() == old(self).geom(),
            r == Err::<(), Error<D::Error>>(Error::IndexFull) ==> record_of(old(self).entries(), key@) is None,
            ({
                let rec = rec_len(key@.len() as int, 0 as int, old(self).geom().2 as int);
                old(self).clean() && 1 <= key@.len() <= MAX_KEY && 0 <= MAX_VALUE && rec <= old(self).geom().1 && old(self).write_fits(
                    key@.len() as int,
                    0 as int,
                ) ==> (r matches Err(e) ==> e is Device || e is IndexFull)
            }),
            ({
                let rec = rec_len(key@.len() as int, 0 as int, old(self).geom().2 as int);
                old(self).clean() && 1 <= key@.len() <= MAX_KEY && 0 <= MAX_VALUE && rec <= old(self).geom().1 && old(self).write_fits(
                    key@.len() as int,
                    0 as int,
                ) && old(self).device().healthy() ==> (r matches Err(e) ==> e is IndexFull)
            }),
    {
        let empty: Vec<u8> = Vec::new();
        let r = self.write_record(key, empty.as_slice(), true);
        proof {
            Self::lemma_power_loss(*old(self), *self, key@, 0, r is Err && r->Err_0 is Device);
        }
        r
    }

    /// Appends a record (a value, or a tombstone when `delete`) and indexes it.
    #[verifier::rlimit(30)]
    #[verifier::spinoff_prover]
    fn write_record(&mut self, key: &[u8], value: &[u8], delete: bool) -> (r: Result<(), Error<D::Error>>)
        requires
            old(self).wf(),
            old(self).next_seq() < u32::MAX,
            delete ==> value@.len() == 0,
        ensures
            ({
                let es = old(self).geom().1 as int;
                let c = final(self).device().contents();
                let base = final(self).active_sector() as int * es;
                old(self).clean() && old(self).consistent() && old(self).write_compacts(key@.len() as int, value@.len() as int) && r is Err
                    && r->Err_0 is Device ==> {
                    &&& same_records(old(self).entries(), final(self).entries())
                    &&& values_kept(old(self).device().contents(), old(self).entries(), c, final(self).entries())
                    &&& rec_at(c, base, final(self).head_pos() as int - base, es, old(self).geom().2 as int) is None ==> final(self).agrees()
                }
            }),
            ({
                let es = old(self).geom().1 as int;
                let c = final(self).device().contents();
                let base = final(self).active_sector() as int * es;
                old(self).clean() && old(self).consistent() && old(self).write_needs_no_compaction(key@.len() as int, value@.len() as int)
                    && r is Err && r->Err_0 is Device ==> {
                    &&& final(self).entries() == old(self).entries()
                    &&& values_kept(old(self).device().contents(), old(self).entries(), c, final(self).entries())
                    &&& rec_at(c, base, final(self).head_pos() as int - base, es, old(self).geom().2 as int) is None ==> final(self).consistent()
                }
            }),
            old(self).device().healthy() ==> final(self).device().healthy(),
            final(self).wf(),
            final(self).device().contents().len() == old(self).device().contents().len(),
            key@.len() == 0 || key@.len() > MAX_KEY || value@.len() > MAX_VALUE ==> r == Err::<(), Error<D::Error>>(Error::TooLarge)
                && *final(self) == *old(self),
            r is Ok ==> (position(final(self).entries(), key@) matches Some(p) && final(self).entries()[p].seq == old(self).next_seq()
                && final(self).entries()[p].val_len == value@.len() && final(self).entries()[p].deleted == delete
                && final(self).entries()[p].key == key@) && final(self).next_seq() == old(self).next_seq() + 1,
            r is Ok ==> record_of(final(self).entries(), key@) == Some((old(self).next_seq(), value@.len() as u16, delete)),
            r is Ok || r == Err::<(), Error<D::Error>>(Error::IndexFull) ==> forall|k: Seq<u8>| k != key@ ==> #[trigger] record_of(final(self).entries(), k) == record_of(old(self).entries(), k),
            r == Err::<(), Error<D::Error>>(Error::IndexFull) ==> record_of(final(self).entries(), key@) is None
                && old(self).entries().len() == N,
            !(r is Ok || r == Err::<(), Error<D::Error>>(Error::IndexFull)) ==> forall|k: Seq<u8>| #[trigger] record_of(final(self).entries(), k) == record_of(old(self).entries(), k),
            old(self).clean() && old(self).write_needs_no_compaction(key@.len() as int, value@.len() as int) && r is Ok ==> {
                &&& final(self).clean()
                &&& !delete ==> (final(self).live_entry(key@) matches Some(e) && final(self).value_of(e) == value@)
                &&& forall|k: Seq<u8>| k != key@ ==> #[trigger] final(self).live_entry(k) == old(self).live_entry(k)
                &&& forall|k: Seq<u8>| k != key@ ==> (#[trigger] old(self).live_entry(k) matches Some(e) ==> final(self).value_of(e) == old(self).value_of(e))
            },
            old(self).clean() && old(self).write_fits(key@.len() as int, value@.len() as int) && r is Ok ==> {
                &&& final(self).clean()
                &&& !delete ==> final(self).reads(key@) == Some(value@)
                &&& forall|k: Seq<u8>| k != key@ ==> #[trigger] final(self).reads(k) == old(self).reads(k)
            },
            old(self).clean() && old(self).consistent() && old(self).write_fits(key@.len() as int, value@.len() as int) && r is Ok
                ==> final(self).consistent(),
            r matches Err(e) ==> e is TooLarge || e is IndexFull || e is NoSpace || e is Device,
            r is Ok ==> final(self).entries().len() == old(self).entries().len() + (if record_of(old(self).entries(), key@) is None {
                1int
            } else {
                0int
            }),
            ({
                let rec = rec_len(key@.len() as int, value@.len() as int, old(self).geom().2 as int);
                1 <= key@.len() <= MAX_KEY && value@.len() <= MAX_VALUE && old(self).fits_in_place(rec) ==> {
                    &&& r matches Err(e) ==> e is Device || e is IndexFull
                    &&& old(self).device().healthy() ==> (r matches Err(e) ==> e is IndexFull)
                    &&& r is Ok ==> final(self).head_pos() as int == old(self).head_pos() as int + rec && final(self).active_sector()
                        == old(self).active_sector()
                }
            }),
            final(self).geom() == old(self).geom(),
            r == Err::<(), Error<D::Error>>(Error::IndexFull) ==> record_of(old(self).entries(), key@) is None,
            ({
                let rec = rec_len(key@.len() as int, value@.len() as int, old(self).geom().2 as int);
                old(self).clean() && 1 <= key@.len() <= MAX_KEY && value@.len() <= MAX_VALUE && rec <= old(self).geom().1 && old(self).write_fits(
                    key@.len() as int,
                    value@.len() as int,
                ) ==> (r matches Err(e) ==> e is Device || e is IndexFull)
            }),
            ({
                let rec = rec_len(key@.len() as int, value@.len() as int, old(self).geom().2 as int);
                old(self).clean() && 1 <= key@.len() <= MAX_KEY && value@.len() <= MAX_VALUE && rec <= old(self).geom().1 && old(self).write_fits(
                    key@.len() as int,
                    value@.len() as int,
                ) && old(self).device().healthy() ==> (r matches Err(e) ==> e is IndexFull)
            }),
    {
        if key.len() == 0 || key.len() > MAX_KEY || value.len() > MAX_VALUE {
            return Err(Error::TooLarge);
        }
        let ghost old_ix = self.entries();
        let addr = match self.append_record(key, value, delete) {
            Ok(a) => a,
            Err(e) => {
                proof {
                    assert forall|k: Seq<u8>| #[trigger] record_of(self.entries(), k) == record_of(old_ix, k) by {
                        lemma_position_same_records(old_ix, self.entries(), k);
                    }
                }
                return Err(e);
            },
        };
        let ghost mid = self.entries();
        let ghost s_app = *self;
        proof {
            assert forall|k: Seq<u8>| #[trigger] record_of(mid, k) == record_of(old_ix, k) && position(mid, k) == position(old_ix, k) by {
                lemma_position_same_records(old_ix, mid, k);
            }
            lemma_position_same_records(old_ix, mid, key@);
            assert forall|j: int| 0 <= j < mid.len() implies (#[trigger] mid[j]).seq < self.next_seq - 1 by {
                assert(same_record(old_ix[j], mid[j]));
                assert(entry_ok(old_ix[j], old(self).dev.contents().len() as int, old(self).psz as int, old(self).next_seq));
            }
        }
        let seq = self.next_seq - 1;
        let r = self.upsert_index(key, seq, addr, value.len() as u16, delete);
        proof {
            let e = EntryView { key: key@, seq, addr, val_len: value@.len() as u16, deleted: delete };
            lemma_upsert_newest(mid, self.entries(), e, N as int, r is Ok);
            let v = self.entries();
            lemma_round_up(HEADER_SIZE + key@.len() + value@.len(), self.psz as int);
            assert forall|j: int| 0 <= j < v.len() implies entry_ok(#[trigger] v[j], self.dev.contents().len() as int, self.psz as int, self.next_seq) by {
                if v[j] != e {
                    let m = choose|m: int| 0 <= m < mid.len() && v[j] == mid[m];
                    assert(entry_ok(mid[m], self.dev.contents().len() as int, self.psz as int, self.next_seq));
                }
            }
            if old(self).clean() && old(self).write_needs_no_compaction(key@.len() as int, value@.len() as int) && r is Ok {
                Self::lemma_write_layout(*old(self), s_app, *self, e);
                let rec = rec_len(key@.len() as int, value@.len() as int, self.psz as int);
                let img = record_image(key@, value@, if delete { FLAG_DELETE } else { 0u16 }, old(self).next_seq, rec);
                lemma_image_value(key@, value@, if delete { FLAG_DELETE } else { 0u16 }, old(self).next_seq, rec);
                let c = self.dev.contents();
                assert(c.subrange(addr as int, addr as int + rec) == img);
                assert(self.value_of(e) =~= img.subrange(HEADER_SIZE + key@.len(), HEADER_SIZE + key@.len() + value@.len()));
                if old(self).consistent() {
                    let flags: u16 = if delete { FLAG_DELETE } else { 0u16 };
                    assert(delete == (flags & FLAG_DELETE != 0)) by {
                        assert((FLAG_DELETE & FLAG_DELETE) != 0u16) by (bit_vector);
                        assert((0u16 & FLAG_DELETE) == 0u16) by (bit_vector);
                    }
                    Self::lemma_write_consistent(*old(self), s_app, *self, e, value@, flags);
                }
                assert forall|k: Seq<u8>| k != key@ implies #[trigger] self.reads(k) == old(self).reads(k) by {
                    assert(self.live_entry(k) == old(self).live_entry(k));
                }
            }
            if old(self).clean() && old(self).write_compacts(key@.len() as int, value@.len() as int) && r is Ok {
                let rec = rec_len(key@.len() as int, value@.len() as int, self.psz as int);
                let img = record_image(key@, value@, if delete { FLAG_DELETE } else { 0u16 }, old(self).next_seq, rec);
                lemma_image_value(key@, value@, if delete { FLAG_DELETE } else { 0u16 }, old(self).next_seq, rec);
                let c = s_app.dev.contents();
                assert(c.subrange(addr as int, addr as int + rec) == img);
                assert(value_at(c, e) =~= img.subrange(HEADER_SIZE + key@.len(), HEADER_SIZE + key@.len() + value@.len()));
                Self::lemma_write_reads(*old(self), s_app, *self, e, value@);
                if old(self).consistent() {
                    let s1 = choose|s1: Self| #[trigger] Self::appended_in_place(s1, s_app, addr, rec) && s1.next_seq() == old(self).next_seq();
                    let flags: u16 = if delete { FLAG_DELETE } else { 0u16 };
                    assert(delete == (flags & FLAG_DELETE != 0)) by {
                        assert((FLAG_DELETE & FLAG_DELETE) != 0u16) by (bit_vector);
                        assert((0u16 & FLAG_DELETE) == 0u16) by (bit_vector);
                    }
                    Self::lemma_write_consistent(s1, s_app, *self, e, value@, flags);
                }
            }
        }
        r
    }

    /// Layout after indexing `e`, the record just appended to `o` (giving
    /// `s_app`): the store stays clean, the key reads back the value, and the
    /// other keys keep their entries and bytes.
    proof fn lemma_write_layout(o: Self, s_app: Self, f: Self, e: EntryView)
        requires
            o.clean(),
            s_app.clean(),
            f.wf(),
            s_app.entries() == o.entries(),
            f.dev == s_app.dev,
            Self::same_frame(&f, &s_app),
            f.geom() == o.geom(),
            s_app.geom() == o.geom(),
            upserted(s_app.entries(), f.entries(), e, N as int, true),
            forall|j: int| 0 <= j < s_app.entries().len() ==> (#[trigger] s_app.entries()[j]).seq < e.seq,
            1 <= e.key.len() <= MAX_KEY,
            e.val_len <= MAX_VALUE,
            s_app.head as int == e.addr as int + rec_len(e.key.len() as int, e.val_len as int, o.psz as int),
            s_app.active_sec as int == e.addr as int / o.esz as int,
            e.addr as int % o.esz as int + rec_len(e.key.len() as int, e.val_len as int, o.psz as int) <= o.esz,
            forall|i: int| 0 <= i < o.entries().len() ==> #[trigger] kept(o.dev.contents(), s_app.dev.contents(), o.entries()[i], o.psz),
        ensures
            f.clean(),
            !e.deleted ==> (f.live_entry(e.key) matches Some(x) && x == e),
            forall|k: Seq<u8>| k != e.key ==> #[trigger] f.live_entry(k) == o.live_entry(k),
            forall|k: Seq<u8>| k != e.key ==> (#[trigger] o.live_entry(k) matches Some(x) ==> f.value_of(x) == o.value_of(x)),
    {
        let mid = s_app.entries();
        let v = f.entries();
        assert(distinct_keys(mid));
        lemma_upsert_newest(mid, v, e, N as int, true);
        assert forall|j: int| 0 <= j < v.len() implies placed(#[trigger] v[j], f.active_sec, f.free_sector, f.head, f.esz, f.psz) by {
            if v[j] == e {
                assert(e.addr as int / o.esz as int != s_app.free_sector);
            } else {
                let m = choose|m: int| 0 <= m < mid.len() && v[j] == mid[m];
                assert(placed(mid[m], s_app.active_sec, s_app.free_sector, s_app.head, s_app.esz, s_app.psz));
            }
        }
        assert forall|k: Seq<u8>| k != e.key implies #[trigger] f.live_entry(k) == o.live_entry(k) by {
            lemma_upsert_others(mid, v, e, N as int, true, k);
        }
        assert forall|k: Seq<u8>| k != e.key implies (#[trigger] o.live_entry(k) matches Some(x) ==> f.value_of(x) == o.value_of(x)) by {
            lemma_upsert_others(mid, v, e, N as int, true, k);
            match position(o.entries(), k) {
                Some(i) => {
                    if !o.entries()[i].deleted {
                        let x = o.entries()[i];
                        assert(kept(o.dev.contents(), s_app.dev.contents(), o.entries()[i], o.psz));
                        lemma_round_up(HEADER_SIZE + x.key.len() + x.val_len, o.psz as int);
                        let st = x.addr as int + HEADER_SIZE + x.key.len();
                        assert(f.value_of(x) =~= o.value_of(x)) by {
                            assert forall|j: int| 0 <= j < x.val_len implies #[trigger] f.value_of(x)[j] == o.value_of(x)[j] by {
                                assert(s_app.dev.contents()[st + j] == o.dev.contents()[st + j]);
                            }
                        }
                    }
                },
                None => {},
            }
        }
    }

    /// Reads after indexing `e`, the record just appended to `o` (giving
    /// `s_app`, where every record holds the value it held in `o`): the
    /// store stays clean, the key reads back `value` unless `e` is a
    /// tombstone, and the other keys read what they read in `o`.
    #[verifier::rlimit(30)]
    #[verifier::spinoff_prover]
    proof fn lemma_write_reads(o: Self, s_app: Self, f: Self, e: EntryView, value: Seq<u8>)
        requires
            o.clean(),
            s_app.clean(),
            f.wf(),
            f.dev == s_app.dev,
            Self::same_frame(&f, &s_app),
            f.geom() == o.geom(),
            s_app.geom() == o.geom(),
            same_records(o.entries(), s_app.entries()),
            values_kept(o.dev.contents(), o.entries(), s_app.dev.contents(), s_app.entries()),
            upserted(s_app.entries(), f.entries(), e, N as int, true),
            forall|j: int| 0 <= j < s_app.entries().len() ==> (#[trigger] s_app.entries()[j]).seq < e.seq,
            1 <= e.key.len() <= MAX_KEY,
            e.val_len <= MAX_VALUE,
            s_app.head as int == e.addr as int + rec_len(e.key.len() as int, e.val_len as int, o.psz as int),
            s_app.active_sec as int == e.addr as int / o.esz as int,
            e.addr as int % o.esz as int + rec_len(e.key.len() as int, e.val_len as int, o.psz as int) <= o.esz,
            !e.deleted ==> value_at(s_app.dev.contents(), e) == value,
        ensures
            f.clean(),
            !e.deleted ==> f.reads(e.key) == Some(value),
            forall|k: Seq<u8>| k != e.key ==> #[trigger] f.reads(k) == o.reads(k),
    {
        let mid = s_app.entries();
        let v = f.entries();
        assert(distinct_keys(mid));
        lemma_upsert_newest(mid, v, e, N as int, true);
        assert forall|j: int| 0 <= j < v.len() implies placed(#[trigger] v[j], f.active_sec, f.free_sector, f.head, f.esz, f.psz) by {
            if v[j] == e {
                assert(e.addr as int / o.esz as int != s_app.free_sector);
            } else {
                let m = choose|m: int| 0 <= m < mid.len() && v[j] == mid[m];
                assert(placed(mid[m], s_app.active_sec, s_app.free_sector, s_app.head, s_app.esz, s_app.psz));
            }
        }
        assert forall|k: Seq<u8>| k != e.key implies #[trigger] f.reads(k) == o.reads(k) by {
            lemma_upsert_others(mid, v, e, N as int, true, k);
            lemma_position_same_records(o.entries(), mid, k);
            match position(o.entries(), k) {
                Some(i) => {
                    assert(same_record(o.entries()[i], mid[i]));
                    assert(value_at(s_app.dev.contents(), mid[i]) == value_at(o.dev.contents(), o.entries()[i]));
                },
                None => {},
            }
        }
    }

    /// Finds and erases a reserve sector (other than `exclude`).
    fn find_free_sector(&mut self, exclude: Option<u32>) -> (r: Result<u32, Error<D::Error>>)
        requires
            old(self).wf(),
        ensures
            old(self).device().healthy() ==> final(self).device().healthy(),
            r matches Err(e) ==> e is Device || e is NoSpace,
            final(self).wf(),
            same_records(old(self).entries(), final(self).entries()),
            final(self).geom() == old(self).geom(),
            final(self).next_seq() == old(self).next_seq(),
            final(self).device().contents().len() == old(self).device().contents().len(),
            r matches Ok(sec) ==> sec < final(self).sector_count && Some(sec) != exclude,
            (exists|s: u32| #[trigger] old(self).free_candidate(s, exclude, old(self).head_pos() as int / old(self).geom().1 as int)) ==> {
                &&& r matches Err(e) ==> e is Device
                &&& old(self).device().healthy() ==> r is Ok
                &&& r matches Ok(sec) ==> {
                    &&& old(self).free_candidate(sec, exclude, old(self).head_pos() as int / old(self).geom().1 as int)
                    &&& final(self).entries() == old(self).entries()
                    &&& Self::same_frame(&*final(self), &*old(self))
                    &&& final(self).device().contents() == erased_range(
                        old(self).device().contents(),
                        sec as int * old(self).geom().1 as int,
                        old(self).geom().1 as int,
                    )
                }
            },
            old(self).compaction_fits(exclude, old(self).active_sector()) && old(self).head_pos() as int / old(self).geom().1 as int
                == old(self).active_sector() && !(exists|s: u32| #[trigger] old(self).free_candidate(
                s,
                exclude,
                old(self).head_pos() as int / old(self).geom().1 as int,
            )) ==> {
                &&& r matches Err(e) ==> e is Device
                &&& old(self).device().healthy() ==> r is Ok
                &&& r matches Ok(sec) ==> (victim_of(
                    old(self).entries(),
                    old(self).geom().0,
                    old(self).geom().1,
                    exclude,
                    old(self).active_sector(),
                ) matches Some(v) ==> sec == v && Self::compacted(*old(self), *final(self), v))
            },
    {
        self.find_free_sector_inner(exclude, false)
    }
}

/// `u32` from the little-endian bytes `b[i..i+4]`.
fn read_u32_le(b: &Vec<u8>, i: usize) -> (r: u32)
    requires
        i + 4 <= b@.len(),
    ensures
        r == u32_le(b@, i as int),
{
    let _l = b.len();
    (b[i] as u32) | ((b[i + 1] as u32) << 8u32) | ((b[i + 2] as u32) << 16u32) | ((b[i + 3] as u32) << 24u32)
}

/// `u16` from the little-endian bytes `b[i..i+2]`.
fn read_u16_le(b: &Vec<u8>, i: usize) -> (r: u16)
    requires
        i + 2 <= b@.len(),
    ensures
        r == u16_le(b@, i as int),
{
    let _l = b.len();
    (b[i] as u16) | ((b[i + 1] as u16) << 8u16)
}

/// Copy of `v[from..to]`.
fn sub_bytes(v: &Vec<u8>, from: usize, to: usize) -> (r: Vec<u8>)
    requires
        from <= to <= v@.len(),
    ensures
        r@ == v@.subrange(from as int, to as int),
{
    let mut out: Vec<u8> = Vec::new();
    let mut k = from;
    while k < to
        invariant
            from <= k <= to,
            to <= v@.len(),
            out@ == v@.subrange(from as int, k as int),
        decreases to - k,
    {
        out.push(v[k]);
        k = k + 1;
        assert(out@ =~= v@.subrange(from as int, k as int));
    }
    out
}

impl<D: BlockDevice, const N: usize> Rufs<D, N> {
    /// The geometry part of the invariant.
    closed spec fn geometry_ok(&self) -> bool {
        let es = self.esz as int;
        let ps = self.psz as int;
        let n = self.sector_count as int;
        let len = self.dev.contents().len() as int;
        &&& ps >= HEADER_SIZE
        &&& es > 0
        &&& es % ps == 0
        &&& n >= 3
        &&& n * es <= len
        &&& n == len / es
        &&& len <= u32::MAX
        &&& self.dev.geometry() == (ps as nat, es as nat)
        &&& self.active_sec < n
        &&& self.free_sector < n
    }

    /// Scans the whole medium, rebuilding the index from the valid records
    /// and leaving `head` after the record with the highest sequence number.
    #[verifier::rlimit(60)]
    #[verifier::spinoff_prover]
    fn scan(&mut self) -> (r: Result<(), Error<D::Error>>)
        requires
            old(self).geometry_ok(),
            old(self).entries().len() == 0,
        ensures
            old(self).device().healthy() ==> final(self).device().healthy(),
            old(self).device().healthy() ==> (r matches Err(e) ==> !(e is Device)),
            r is Ok ==> final(self).wf() && final(self).head as int <= final(self).sector_count as int * final(self).esz as int,
            final(self).geometry_ok(),
            final(self).geom() == old(self).geom(),
            final(self).device().contents().len() == old(self).device().contents().len(),
            final(self).active_sec == old(self).active_sec,
            final(self).free_sector == old(self).free_sector,
            final(self).device().contents() == old(self).device().contents(),
            r is Ok && all_erased(old(self).device().contents(), 0, old(self).device().contents().len() as int) ==> final(self).entries().len()
                == 0 && final(self).head == 0,
            ({
                let log = device_log(
                    old(self).device().contents(),
                    old(self).geom().0 as int,
                    old(self).geom().1 as int,
                    old(self).geom().2 as int,
                );
                &&& r is Ok ==> fold_index(log, N as int) == Some(final(self).entries())
                    && final(self).next_seq() as int == max_seq_of(log) as int + 1
                    && final(self).head as int == head_of(log, old(self).geom().2 as int)
                &&& r matches Err(e) ==> e is Device || (e is IndexFull && fold_index(log, N as int) is None)
                    || (e is NoSpace && fold_index(log, N as int) is Some && max_seq_of(log) == u32::MAX)
            }),
    {
        let ghost len = self.dev.contents().len() as int;
        let ghost erased = all_erased(self.dev.contents(), 0, len);
        let ghost c = self.dev.contents();
        let ghost es = self.esz as int;
        let ghost ps = self.psz as int;
        proof {
            assert(self.esz as int * 3 <= u32::MAX) by (nonlinear_arith)
                requires
                    self.sector_count >= 3,
                    self.sector_count as int * self.esz as int <= u32::MAX,
                    self.esz > 0,
            ;
            assert(self.psz <= self.esz) by (nonlinear_arith)
                requires
                    self.esz % self.psz == 0,
                    self.esz > 0,
                    self.psz > 0,
            ;
        }
        let mut max_seq: u32 = 0;
        let mut head_after: u32 = 0;
        let mut sec: u32 = 0;
        while sec < self.sector_count
            invariant
                self.geometry_ok(),
                old(self).dev.healthy() ==> self.dev.healthy(),
                self.geom() == old(self).geom(),
                self.dev.contents().len() == len,
                len == old(self).device().contents().len(),
                self.active_sec == old(self).active_sec,
                self.free_sector == old(self).free_sector,
                self.esz as int * 3 <= u32::MAX,
                self.psz <= self.esz,
                self.entries().len() <= N,
                distinct_keys(self.entries()),
                forall|j: int| 0 <= j < self.entries().len() ==> entry_shape_ok(#[trigger] self.entries()[j], len, self.psz as int)
                    && self.entries()[j].seq <= max_seq,
                head_after as int <= self.sector_count as int * self.esz as int,
                self.dev.contents() == old(self).dev.contents(),
                erased == all_erased(old(self).dev.contents(), 0, len),
                erased ==> self.entries().len() == 0 && head_after == 0 && max_seq == 0,
                c == old(self).dev.contents(),
                es == self.esz as int,
                ps == self.psz as int,
                sec <= self.sector_count,
                fold_index(device_log(c, sec as int, es, ps), N as int) == Some(self.entries()),
                max_seq == max_seq_of(device_log(c, sec as int, es, ps)),
                head_after as int == head_of(device_log(c, sec as int, es, ps), ps),
            decreases self.sector_count - sec,
        {
            proof {
                lemma_sector_end(sec as int, self.esz as int, self.sector_count as int);
            }
            let base = sec * self.esz;
            let mut off: u32 = 0;
            let ghost prev = device_log(c, sec as int, es, ps);
            let ghost mut done: Seq<EntryView> = Seq::empty();
            proof {
                assert(prev + done =~= prev);
            }
            loop
                invariant
                    self.geometry_ok(),
                    old(self).dev.healthy() ==> self.dev.healthy(),
                    self.geom() == old(self).geom(),
                    self.dev.contents().len() == len,
                    len == old(self).device().contents().len(),
                    self.active_sec == old(self).active_sec,
                    self.free_sector == old(self).free_sector,
                    self.esz as int * 3 <= u32::MAX,
                    self.psz <= self.esz,
                    sec < self.sector_count,
                    base as int == sec as int * self.esz as int,
                    base as int + self.esz as int <= self.sector_count as int * self.esz as int,
                    off <= self.esz,
                    self.entries().len() <= N,
                    distinct_keys(self.entries()),
                    forall|j: int| 0 <= j < self.entries().len() ==> entry_shape_ok(#[trigger] self.entries()[j], len, self.psz as int)
                        && self.entries()[j].seq <= max_seq,
                    head_after as int <= self.sector_count as int * self.esz as int,
                    self.dev.contents() == old(self).dev.contents(),
                    erased == all_erased(old(self).dev.contents(), 0, len),
                    erased ==> self.entries().len() == 0 && head_after == 0 && max_seq == 0,
                    c == old(self).dev.contents(),
                    es == self.esz as int,
                    ps == self.psz as int,
                    prev == device_log(c, sec as int, es, ps),
                    sector_log(c, base as int, 0, es, ps) == done + sector_log(c, base as int, off as int, es, ps),
                    fold_index(prev + done, N as int) == Some(self.entries()),
                    max_seq == max_seq_of(prev + done),
                    head_after as int == head_of(prev + done, ps),
                ensures
                    self.geometry_ok(),
                    self.geom() == old(self).geom(),
                    self.dev.contents().len() == len,
                    len == old(self).device().contents().len(),
                    self.active_sec == old(self).active_sec,
                    self.free_sector == old(self).free_sector,
                    self.entries().len() <= N,
                    distinct_keys(self.entries()),
                    forall|j: int| 0 <= j < self.entries().len() ==> entry_shape_ok(#[trigger] self.entries()[j], len, self.psz as int)
                        && self.entries()[j].seq <= max_seq,
                    head_after as int <= self.sector_count as int * self.esz as int,
                    self.dev.contents() == old(self).dev.contents(),
                    erased == all_erased(old(self).dev.contents(), 0, len),
                    erased ==> self.entries().len() == 0 && head_after == 0 && max_seq == 0,
                    c == old(self).dev.contents(),
                    es == self.esz as int,
                    ps == self.psz as int,
                    prev == device_log(c, sec as int, es, ps),
                    sector_log(c, base as int, 0, es, ps) == done,
                    fold_index(prev + done, N as int) == Some(self.entries()),
                    max_seq == max_seq_of(prev + done),
                    head_after as int == head_of(prev + done, ps),
                decreases self.esz - off,
            {
                if off + HEADER_SIZE as u32 > self.esz {
                    proof {
                        lemma_sector_log_stop(c, base as int, off as int, es, ps);
                        assert(done + Seq::<EntryView>::empty() =~= done);
                    }
                    break;
                }
                let addr = base + off;
                let mut hdr: Vec<u8> = vec![0u8; HEADER_SIZE];
                match self.dev.read(addr, hdr.as_mut_slice()) {
                    Ok(()) => {},
                    Err(e) => return Err(Error::Device(e)),
                }
                let ghost h = c.subrange(addr as int, addr as int + HEADER_SIZE);
                assert(hdr@ == h);
                let magic = read_u32_le(&hdr, 0);
                proof {
                    if erased {
                        let b0 = hdr@[0];
                        let b1 = hdr@[1];
                        let b2 = hdr@[2];
                        let b3 = hdr@[3];
                        assert(b0 == 0xFFu8 && b1 == 0xFFu8 && b2 == 0xFFu8 && b3 == 0xFFu8) by {
                            assert(self.dev.contents()[addr as int] == 0xFFu8);
                            assert(self.dev.contents()[addr as int + 1] == 0xFFu8);
                            assert(self.dev.contents()[addr as int + 2] == 0xFFu8);
                            assert(self.dev.contents()[addr as int + 3] == 0xFFu8);
                        }
                        assert(((b0 as u32) | ((b1 as u32) << 8u32) | ((b2 as u32) << 16u32) | ((b3 as u32) << 24u32)) != MAGIC) by (bit_vector)
                            requires
                                b0 == 0xFFu8 && b1 == 0xFFu8 && b2 == 0xFFu8 && b3 == 0xFFu8,
                        ;
                    }
                }
                if magic != MAGIC {
                    proof {
                        assert(rec_at(c, base as int, off as int, es, ps) is None);
                        lemma_sector_log_stop(c, base as int, off as int, es, ps);
                        assert(done + Seq::<EntryView>::empty() =~= done);
                    }
                    break;
                }
                let stored_hcrc = read_u32_le(&hdr, 16);
                let head16 = sub_bytes(&hdr, 0, 16);
                if crc32(head16.as_slice()) != stored_hcrc {
                    proof {
                        assert(rec_at(c, base as int, off as int, es, ps) is None);
                        lemma_sector_log_stop(c, base as int, off as int, es, ps);
                        assert(done + Seq::<EntryView>::empty() =~= done);
                    }
                    break;
                }
                let seq = read_u32_le(&hdr, 4);
                let key_len = read_u16_le(&hdr, 8) as usize;
                let val_len = read_u16_le(&hdr, 10) as usize;
                let flags = read_u16_le(&hdr, 12);
                let data_crc = read_u32_le(&hdr, 20);
                if key_len == 0 || key_len > MAX_KEY || val_len > MAX_VALUE {
                    proof {
                        assert(rec_at(c, base as int, off as int, es, ps) is None);
                        lemma_sector_log_stop(c, base as int, off as int, es, ps);
                        assert(done + Seq::<EntryView>::empty() =~= done);
                    }
                    break;
                }
                let payload = key_len + val_len;
                let rec = round_up_exec(HEADER_SIZE as u32 + payload as u32, self.psz);
                proof {
                    lemma_round_up(HEADER_SIZE + payload, self.psz as int);
                }
                if off as u64 + rec as u64 > self.esz as u64 {
                    proof {
                        assert(rec_at(c, base as int, off as int, es, ps) is None);
                        lemma_sector_log_stop(c, base as int, off as int, es, ps);
                        assert(done + Seq::<EntryView>::empty() =~= done);
                    }
                    break;
                }
                let mut pbuf: Vec<u8> = vec![0u8; payload];
                match self.dev.read(addr + HEADER_SIZE as u32, pbuf.as_mut_slice()) {
                    Ok(()) => {},
                    Err(e) => return Err(Error::Device(e)),
                }
                assert(pbuf@ == c.subrange(addr as int + HEADER_SIZE, addr as int + HEADER_SIZE + payload));
                if crc32(pbuf.as_slice()) != data_crc {
                    proof {
                        assert(rec_at(c, base as int, off as int, es, ps) is None);
                        lemma_sector_log_stop(c, base as int, off as int, es, ps);
                        assert(done + Seq::<EntryView>::empty() =~= done);
                    }
                    break;
                }
                let deleted = flags & FLAG_DELETE != 0;
                let key = sub_bytes(&pbuf, 0, key_len);
                let ghost before = self.entries();
                let ghost e = EntryView { key: key@, seq, addr, val_len: val_len as u16, deleted };
                proof {
                    assert(key@ =~= c.subrange(addr as int + HEADER_SIZE, addr as int + HEADER_SIZE + key_len));
                    assert(rec_at(c, base as int, off as int, es, ps) == Some(e));
                    lemma_sector_log_step(c, base as int, off as int, es, ps, e);
                    lemma_fold_push(prev + done, e, N as int);
                    assert((prev + done).push(e) =~= prev + done.push(e));
                }
                match self.upsert_index(key.as_slice(), seq, addr, val_len as u16, deleted) {
                    Ok(()) => {},
                    Err(err) => {
                        proof {
                            lemma_upserted_spec(before, self.entries(), e, N as int, false);
                            let rest = sector_log(c, base as int, off as int + rec as int, es, ps);
                            lemma_fold_none_extends(prev + done.push(e), rest, N as int);
                            assert(prev + done.push(e) + rest =~= prev + sector_log(c, base as int, 0, es, ps));
                            assert(device_log(c, sec as int + 1, es, ps) == prev + sector_log(c, sec as int * es, 0, es, ps));
                            lemma_device_log_none(c, sec as int + 1, self.sector_count as int, es, ps, N as int);
                        }
                        return Err(err);
                    },
                }
                proof {
                    lemma_upserted_spec(before, self.entries(), e, N as int, true);
                }
                let new_max = if seq >= max_seq { seq } else { max_seq };
                proof {
                    let v = self.entries();
                    assert(entry_shape_ok(e, len, self.psz as int));
                    match position(before, key@) {
                        Some(p) => {
                            assert forall|a: int, b: int| 0 <= a < v.len() && 0 <= b < v.len() && a != b implies #[trigger] v[a].key != #[trigger] v[b].key by {
                                if a == p {
                                    assert(before[p].key == key@);
                                }
                                if b == p {
                                    assert(before[p].key == key@);
                                }
                            }
                            assert forall|j: int| 0 <= j < v.len() implies entry_shape_ok(#[trigger] v[j], len, self.psz as int) && v[j].seq <= new_max by {
                                if j != p {
                                    assert(v[j] == before[j]);
                                }
                            }
                        },
                        None => {
                            assert forall|j: int| 0 <= j < before.len() implies #[trigger] before[j].key != key@ by {}
                            assert forall|a: int, b: int| 0 <= a < v.len() && 0 <= b < v.len() && a != b implies #[trigger] v[a].key != #[trigger] v[b].key by {
                                if a < before.len() {
                                    assert(v[a] == before[a]);
                                }
                                if b < before.len() {
                                    assert(v[b] == before[b]);
                                }
                            }
                            assert forall|j: int| 0 <= j < v.len() implies entry_shape_ok(#[trigger] v[j], len, self.psz as int) && v[j].seq <= new_max by {
                                if j < before.len() {
                                    assert(v[j] == before[j]);
                                }
                            }
                        },
                    }
                }
                let ghost m0 = max_seq;
                if seq >= max_seq {
                    max_seq = seq;
                    head_after = addr + rec;
                }
                off = off + rec;
                proof {
                    let nl = prev + done.push(e);
                    assert(nl.drop_last() =~= prev + done);
                    assert(nl.last() == e);
                    assert(m0 == max_seq_of(prev + done));
                    assert(e.addr as int + rec_len(e.key.len() as int, e.val_len as int, ps) == addr as int + rec as int);
                    assert(head_after as int == head_of(nl, ps));
                    assert(done + (seq![e] + sector_log(c, base as int, off as int, es, ps)) =~= done.push(e) + sector_log(c, base as int, off as int, es, ps));
                    done = done.push(e);
                }
            }
            proof {
                assert(device_log(c, sec as int + 1, es, ps) == prev + sector_log(c, sec as int * es, 0, es, ps));
            }
            sec = sec + 1;
        }
        if max_seq == u32::MAX {
            return Err(Error::NoSpace);
        }
        self.next_seq = max_seq + 1;
        self.head = head_after;
        Ok(())
    }

    /// Mounts the store: scans the medium, rebuilds the index and keeps a
    /// reserve sector. Records broken by a power loss are skipped.
    #[verifier::rlimit(30)]
    #[verifier::spinoff_prover]
    pub fn mount(dev: D) -> (r: Result<Self, Error<D::Error>>)
        requires
            dev.contents().len() <= u32::MAX,
        ensures
            ({
                let ps = dev.geometry().0;
                let es = dev.geometry().1;
                (es == 0 || ps == 0 || ps < HEADER_SIZE || es % ps != 0 || dev.contents().len() / es < 3) <==> r matches Err(
                    Error::BadGeometry,
                )
            }),
            r matches Err(e) ==> e is BadGeometry || e is Device || e is IndexFull || e is NoSpace,
            ({
                let ps = dev.geometry().0 as int;
                let es = dev.geometry().1 as int;
                let n = dev.contents().len() as int / es;
                let log = device_log(dev.contents(), n, es, ps);
                r == Err::<Self, Error<D::Error>>(Error::NoSpace) ==> (fold_index(log, N as int) matches Some(ix) && (max_seq_of(log)
                    == u32::MAX || !mount_needs_no_compaction(ix, head_of(log, ps), n as u32, es as u32)))
            }),
            r matches Ok(fs) ==> fs.wf() && fs.device().geometry() == dev.geometry()
                && fs.device().contents().len() == dev.contents().len(),
            dev.healthy() ==> (r matches Ok(fs) ==> fs.device().healthy()),
            ({
                let ps = dev.geometry().0 as int;
                let es = dev.geometry().1 as int;
                let n = dev.contents().len() as int / es;
                let log = device_log(dev.contents(), n, es, ps);
                let h = head_of(log, ps);
                fold_index(log, N as int) matches Some(ix) ==> (mount_compaction_fits(
                    ix,
                    dev.contents(),
                    h,
                    n as u32,
                    es as u32,
                    ps as u32,
                ) ==> {
                    &&& r matches Ok(fs) ==> forall|k: Seq<u8>| #[trigger] fs.reads(k) == reads_in(dev.contents(), ix, k)
                    &&& dev.healthy() && max_seq_of(log) < u32::MAX && !(es == 0 || ps == 0 || ps < HEADER_SIZE || es % ps != 0 || n < 3)
                        ==> r is Ok
                })
            }),
            ({
                let ps = dev.geometry().0 as int;
                let es = dev.geometry().1 as int;
                let n = dev.contents().len() as int / es;
                let log = device_log(dev.contents(), n, es, ps);
                dev.healthy() ==> (fold_index(log, N as int) matches Some(ix) ==> (mount_needs_no_compaction(
                    ix,
                    head_of(log, ps),
                    n as u32,
                    es as u32,
                ) ==> (r matches Err(e) ==> !(e is Device))))
            }),
            ({
                let ps = dev.geometry().0;
                let es = dev.geometry().1;
                dev.healthy() && all_erased(dev.contents(), 0, dev.contents().len() as int) && !(es == 0 || ps == 0 || ps < HEADER_SIZE
                    || es % ps != 0 || dev.contents().len() / es < 3) ==> r is Ok
            }),
            all_erased(dev.contents(), 0, dev.contents().len() as int) ==> (r matches Ok(fs) ==> fs.clean() && fs.consistent()
                && fs.entries().len() == 0 && fs.head_pos() as int == fs.active_sector() as int * fs.geom().1 as int
                && fs.geom().1 == dev.geometry().1 && fs.geom().2 == dev.geometry().0 && fs.next_seq() == 1),
            ({
                let es = dev.geometry().1 as int;
                let log = device_log(dev.contents(), dev.contents().len() as int / es, es, dev.geometry().0 as int);
                &&& r matches Ok(fs) ==> (fold_index(log, N as int) matches Some(ix) && forall|k: Seq<u8>| #[trigger] record_of(fs.entries(), k)
                    == record_of(ix, k)) && fs.next_seq() as int == max_seq_of(log) as int + 1
                &&& r == Err::<Self, Error<D::Error>>(Error::IndexFull) ==> fold_index(log, N as int) is None
            }),
            ({
                let ps = dev.geometry().0 as int;
                let es = dev.geometry().1 as int;
                let n = dev.contents().len() as int / es;
                let log = device_log(dev.contents(), n, es, ps);
                r matches Ok(fs) ==> (fold_index(log, N as int) matches Some(ix) ==> (mount_needs_no_compaction(
                    ix,
                    head_of(log, ps),
                    n as u32,
                    es as u32,
                ) ==> {
                    &&& fs.entries() == ix
                    &&& forall|k: Seq<u8>| #[trigger] fs.reads(k) == reads_in(dev.contents(), ix, k)
                }))
            }),
    {
        let cap = dev.capacity();
        let esz = dev.erase_size();
        let psz = dev.prog_size();
        if esz == 0 || psz == 0 || psz < HEADER_SIZE || esz % psz != 0 {
            return Err(Error::BadGeometry);
        }
        let count64 = cap / (esz as u64);
        if count64 < 3 {
            return Err(Error::BadGeometry);
        }
        proof {
            assert(count64 * esz <= cap) by (nonlinear_arith)
                requires
                    count64 == cap / (esz as u64),
                    esz > 0,
            ;
            assert(esz <= cap) by (nonlinear_arith)
                requires
                    count64 >= 3,
                    count64 * esz <= cap,
            ;
            assert(psz <= esz) by (nonlinear_arith)
                requires
                    esz % psz == 0,
                    esz > 0,
                    psz > 0,
            ;
        }
        let sector_count = count64 as u32;
        let mut fs = Rufs::<D, N> {
            dev,
            index: Vec::new(),
            next_seq: 1,
            head: 0,
            active_sec: 0,
            free_sector: 0,
            sector_count,
            esz: esz as u32,
            psz: psz as u32,
        };
        assert(fs.entries() =~= Seq::<EntryView>::empty());
        proof {
            assert(fs.sector_count as int * fs.esz as int <= fs.dev.contents().len());
            assert(fs.esz % fs.psz == esz % psz);
        }
        let ghost c0 = fs.dev.contents();
        proof {
            if all_erased(c0, 0, c0.len() as int) {
                lemma_erased_log_empty(c0, fs.sector_count as int, fs.esz as int, fs.psz as int);
            }
        }
        match fs.scan() {
            Ok(()) => {},
            Err(e) => return Err(e),
        }
        let ghost scanned = fs.entries();
        let ghost quiet = mount_needs_no_compaction(scanned, fs.head as int, fs.sector_count, fs.esz);
        proof {
            let log = device_log(c0, fs.sector_count as int, fs.esz as int, fs.psz as int);
            lemma_fold_members(log, N as int);
            assert forall|i: int| 0 <= i < scanned.len() implies (#[trigger] scanned[i]).addr as int % fs.esz as int + rec_len(
                scanned[i].key.len() as int,
                scanned[i].val_len as int,
                fs.psz as int,
            ) <= fs.esz by {
                lemma_log_fit(c0, fs.sector_count as int, fs.esz as int, fs.psz as int, scanned[i]);
            }
        }
        proof {
            assert(fs.geom().0 as int == c0.len() as int / esz as int);
        }
        let n = fs.sector_count;
        let es = fs.esz;
        if fs.head != 0 && fs.head % es != 0 {
            proof {
                let h = fs.head as int;
                let e = es as int;
                vstd::arithmetic::div_mod::lemma_fundamental_div_mod(h, e);
                vstd::arithmetic::div_mod::lemma_mod_bound(h, e);
                assert(h / e < n as int) by (nonlinear_arith)
                    requires
                        h <= n as int * e,
                        h == e * (h / e) + h % e,
                        0 < h % e < e,
                        e > 0,
                ;
            }
            fs.active_sec = fs.head / es;
            let active = fs.active_sec;
            proof {
                if quiet {
                    let w = choose|w: u32| w < fs.sector_count && w as int != fs.head as int / fs.esz as int && !#[trigger] has_entry_in(
                        scanned,
                        w,
                        fs.esz,
                    );
                    assert(fs.free_candidate(w, Some(active), fs.head_pos() as int / fs.geom().1 as int));
                }
            }
            let ghost packs = mount_compaction_fits(scanned, c0, fs.head as int, n, es, fs.psz);
            let ghost before = fs;
            proof {
                if packs {
                    let h = fs.head as int;
                    let e = es as int;
                    vstd::arithmetic::div_mod::lemma_fundamental_div_mod(h, e);
                    assert(active as int * e == e * active as int) by (nonlinear_arith);
                    assert(fs.open_layout());
                    assert(fs.compaction_fits(Some(active), fs.active_sector()));
                    assert forall|t: u32| !#[trigger] fs.free_candidate(t, Some(active), fs.head_pos() as int / fs.geom().1 as int) by {
                        if fs.free_candidate(t, Some(active), fs.head_pos() as int / fs.geom().1 as int) {
                            assert(t < fs.sector_count && t as int != fs.head as int / fs.esz as int && !has_entry_in(scanned, t, fs.esz));
                            assert(mount_needs_no_compaction(scanned, fs.head as int, fs.sector_count, fs.esz));
                        }
                    }
                }
            }
            let free = match fs.find_free_sector(Some(active)) {
                Ok(f) => f,
                Err(e) => return Err(e),
            };
            fs.free_sector = free;
            proof {
                if quiet {
                    lemma_erase_keeps_values(c0, fs.dev.contents(), scanned, free, fs.esz, fs.psz);
                }
                if packs {
                    let c = fs.dev.contents();
                    assert forall|k: Seq<u8>| #[trigger] fs.reads(k) == reads_in(c0, scanned, k) by {
                        lemma_position_same_records(scanned, fs.entries(), k);
                        match position(scanned, k) {
                            Some(i) => {
                                assert(same_record(scanned[i], fs.entries()[i]));
                                assert(value_at(c, fs.entries()[i]) == value_at(c0, scanned[i]));
                            },
                            None => {},
                        }
                    }
                }
            }
        } else {
            let ghost erased0 = all_erased(fs.dev.contents(), 0, fs.dev.contents().len() as int);
            proof {
                if erased0 {
                    lemma_sector_base(0, fs.esz as int);
                    assert(fs.free_candidate(1, None, fs.head_pos() as int / fs.geom().1 as int));
                }
            }
            proof {
                if quiet {
                    let (w1, w2) = choose|w1: u32, w2: u32| w1 < fs.sector_count && w2 < fs.sector_count && w1 != w2
                        && !#[trigger] has_entry_in(scanned, w1, fs.esz) && !#[trigger] has_entry_in(scanned, w2, fs.esz);
                    if w1 as int != fs.head as int / fs.esz as int {
                        assert(fs.free_candidate(w1, None, fs.head_pos() as int / fs.geom().1 as int));
                    } else {
                        assert(fs.free_candidate(w2, None, fs.head_pos() as int / fs.geom().1 as int));
                    }
                }
            }
            let ghost c_a = fs.dev.contents();
            let first = match fs.find_free_sector(None) {
                Ok(f) => f,
                Err(e) => return Err(e),
            };
            let ghost c_b = fs.dev.contents();
            proof {
                lemma_sector_end(first as int, fs.esz as int, fs.sector_count as int);
                lemma_sector_base(first as int, fs.esz as int);
            }
            fs.head = first * fs.esz;
            fs.active_sec = first;
            proof {
                if erased0 {
                    assert(all_erased(fs.dev.contents(), 0, fs.dev.contents().len() as int));
                    let w: u32 = if first == 0 { 1 } else { 0 };
                    assert(fs.free_candidate(w, Some(first), fs.head_pos() as int / fs.geom().1 as int));
                }
            }
            proof {
                if quiet {
                    assert(fs.entries() == scanned);
                    let (w1, w2) = choose|w1: u32, w2: u32| w1 < fs.sector_count && w2 < fs.sector_count && w1 != w2
                        && !#[trigger] has_entry_in(scanned, w1, fs.esz) && !#[trigger] has_entry_in(scanned, w2, fs.esz);
                    if w1 != first {
                        assert(fs.free_candidate(w1, Some(first), fs.head_pos() as int / fs.geom().1 as int));
                    } else {
                        assert(fs.free_candidate(w2, Some(first), fs.head_pos() as int / fs.geom().1 as int));
                    }
                }
            }
            let free = match fs.find_free_sector(Some(first)) {
                Ok(f) => f,
                Err(e) => return Err(e),
            };
            fs.free_sector = free;
            proof {
                if quiet {
                    lemma_erase_keeps_values(c_a, c_b, scanned, first, fs.esz, fs.psz);
                    lemma_erase_keeps_values(c_b, fs.dev.contents(), scanned, free, fs.esz, fs.psz);
                }
            }
            proof {
                if erased0 {
                    assert(all_erased(fs.dev.contents(), 0, fs.dev.contents().len() as int));
                    lemma_sector_end(free as int, fs.esz as int, fs.sector_count as int);
                    lemma_erased_log_empty(fs.dev.contents(), fs.sector_count as int, fs.esz as int, fs.psz as int);
                    assert(sector_log_end(fs.dev.contents(), first as int * fs.esz as int, 0, fs.esz as int, fs.psz as int) == 0);
                }
            }
        }
        proof {
            assert forall|k: Seq<u8>| #[trigger] record_of(fs.entries(), k) == record_of(scanned, k) by {
                lemma_position_same_records(scanned, fs.entries(), k);
            }
            if quiet {
                assert(fs.entries() == scanned);
                assert forall|k: Seq<u8>| #[trigger] fs.reads(k) == reads_in(c0, scanned, k) by {
                    match position(scanned, k) {
                        Some(i) => {
                            assert(value_at(fs.dev.contents(), scanned[i]) == value_at(c0, scanned[i]));
                        },
                        None => {},
                    }
                }
            }
        }
        Ok(fs)
    }
}
/// An index and a log that agree (see [`Rufs::consistent`]) still agree
/// once `e`, newer than every indexed record, is logged and indexed.
proof fn lemma_index_after_write(log0: Seq<EntryView>, log2: Seq<EntryView>, ix0: Seq<EntryView>, ix2: Seq<EntryView>, e: EntryView, cap: int)
    requires
        distinct_keys(ix0),
        upserted(ix0, ix2, e, cap, true),
        forall|i: int| 0 <= i < ix0.len() ==> (#[trigger] ix0[i]).seq < e.seq,
        forall|j: int| 0 <= j < log0.len() ==> (position(ix0, #[trigger] log0[j].key) matches Some(i) && (log0[j].seq < ix0[i].seq
            || log0[j] == ix0[i])),
        log2.contains(e),
        forall|x: EntryView| log2.contains(x) ==> x == e || log0.contains(x),
        forall|i: int| 0 <= i < ix0.len() && ix0[i].key != e.key ==> log2.contains(#[trigger] ix0[i]),
    ensures
        forall|j: int| 0 <= j < log2.len() ==> (position(ix2, #[trigger] log2[j].key) matches Some(i) && (log2[j].seq < ix2[i].seq
            || log2[j] == ix2[i])),
        forall|i: int| 0 <= i < ix2.len() ==> log2.contains(#[trigger] ix2[i]),
{
    lemma_upsert_newest(ix0, ix2, e, cap, true);
    assert forall|j: int| 0 <= j < log2.len() implies (position(ix2, #[trigger] log2[j].key) matches Some(i) && (log2[j].seq
        < ix2[i].seq || log2[j] == ix2[i])) by {
        let x = log2[j];
        assert(log2.contains(x));
        if x != e {
            assert(log0.contains(x));
            let j0 = choose|j0: int| 0 <= j0 < log0.len() && log0[j0] == x;
            let i0 = position(ix0, log0[j0].key)->Some_0;
            assert(ix0[i0].seq < e.seq);
            if x.key != e.key {
                lemma_upsert_others(ix0, ix2, e, cap, true, x.key);
            }
        }
    }
    assert forall|i: int| 0 <= i < ix2.len() implies log2.contains(#[trigger] ix2[i]) by {
        if ix2[i] != e {
            let m = choose|m: int| 0 <= m < ix0.len() && ix2[i] == ix0[m];
            if ix0[m].key == e.key {
                let p = position(ix2, e.key)->Some_0;
                assert(ix2[p] == e);
                assert(ix2[i].key == e.key);
            }
        }
    }
}

impl<D: BlockDevice, const N: usize> Rufs<D, N> {
    /// A clean, consistent store stays consistent when `e` (its next
    /// record, whose image went to `e.addr`) is appended without compaction
    /// and indexed: `s_app` is the store after the append, `f` after the
    /// indexing.
    #[verifier::rlimit(80)]
    #[verifier::spinoff_prover]
    proof fn lemma_write_consistent(o: Self, s_app: Self, f: Self, e: EntryView, value: Seq<u8>, flags: u16)
        requires
            o.clean(),
            o.consistent(),
            s_app.clean(),
            f.clean(),
            s_app.entries() == o.entries(),
            f.dev == s_app.dev,
            Self::same_frame(&f, &s_app),
            f.geom() == o.geom(),
            s_app.geom() == o.geom(),
            f.dev.contents().len() == o.dev.contents().len(),
            upserted(o.entries(), f.entries(), e, N as int, true),
            e.seq == o.next_seq,
            1 <= e.key.len() <= MAX_KEY,
            value.len() <= MAX_VALUE,
            e.val_len as int == value.len(),
            e.deleted == (flags & FLAG_DELETE != 0),
            s_app.head as int == e.addr as int + rec_len(e.key.len() as int, value.len() as int, o.psz as int),
            s_app.active_sec as int == e.addr as int / o.esz as int,
            e.addr as int % o.esz as int + rec_len(e.key.len() as int, value.len() as int, o.psz as int) <= o.esz,
            s_app.dev.contents().subrange(e.addr as int, e.addr as int + rec_len(e.key.len() as int, value.len() as int, o.psz as int))
                == record_image(e.key, value, flags, e.seq, rec_len(e.key.len() as int, value.len() as int, o.psz as int)),
            (s_app.active_sec == o.active_sec && s_app.free_sector == o.free_sector && e.addr == o.head) || (s_app.active_sec
                == o.free_sector && s_app.active_sec != o.active_sec && e.addr as int == o.free_sector as int * o.esz as int
                && !has_entry_in(o.entries(), s_app.free_sector, o.esz) && s_app.free_sector != o.free_sector),
            forall|j: int| 0 <= j < o.dev.contents().len() && !(e.addr <= j < e.addr + rec_len(e.key.len() as int, value.len() as int, o.psz as int))
                && !(s_app.active_sec != o.active_sec && s_app.free_sector as int * o.esz as int <= j < s_app.free_sector as int * o.esz as int
                + o.esz as int) ==> #[trigger] s_app.dev.contents()[j] == o.dev.contents()[j],
        ensures
            f.consistent(),
    {
        let es = o.esz as int;
        let ps = o.psz as int;
        let n = o.sector_count as int;
        let c0 = o.dev.contents();
        let c2 = f.dev.contents();
        let fa = f.active_sec as int;
        let sp = f.free_sector as int;
        let rot = f.active_sec != o.active_sec;
        let rec = rec_len(e.key.len() as int, value.len() as int, ps);
        let a = e.addr as int;
        lemma_round_up(HEADER_SIZE + e.key.len() + value.len(), ps);
        lemma_sector_end(fa, es, n);
        vstd::arithmetic::div_mod::lemma_fundamental_div_mod(a, es);
        assert(fa * es == es * fa) by (nonlinear_arith);
        if rot {
            assert(all_erased(c0, o.free_sector as int * es, es));
        } else {
            assert(sector_log_end(c0, fa * es, 0, es, ps) == a - fa * es);
        }
        Self::lemma_log_after_write(c0, c2, n, es, ps, fa, sp, rot, e, value, flags);
        Self::lemma_log_members(c0, c2, n, es, ps, fa, sp, rot, e);
        let log0 = o.medium_log();
        let log2 = f.medium_log();
        let ix0 = o.entries();
        let ix2 = f.entries();
        assert(distinct_keys(ix0));
        assert forall|i: int| 0 <= i < ix0.len() implies (#[trigger] ix0[i]).seq < o.next_seq by {
            assert(entry_ok(ix0[i], c0.len() as int, ps, o.next_seq));
        }
        assert forall|i: int| 0 <= i < ix0.len() && ix0[i].key != e.key implies log2.contains(#[trigger] ix0[i]) by {
            let x = ix0[i];
            assert(log0.contains(x));
            if rot {
                if exists|t: int| t == sp && #[trigger] sector_log(c0, t * es, 0, es, ps).contains(x) {
                    lemma_sector_log_addrs(c0, sp * es, 0, es, ps);
                    let sl = sector_log(c0, sp * es, 0, es, ps);
                    let jj = choose|jj: int| 0 <= jj < sl.len() && #[trigger] sl[jj] == x;
                    assert(sp * es <= x.addr < sp * es + es);
                    assert(in_sector(ix0[i].addr, f.free_sector, o.esz));
                    assert(has_entry_in(ix0, f.free_sector, o.esz));
                }
            }
        }
        lemma_index_after_write(log0, log2, ix0, ix2, e, N as int);
    }

    /// Sector by sector, the log after an append at `e.addr` in sector `fa`
    /// (a move from a full sector to the erased `fa` when `rot`, with sector
    /// `sp` erased anew): `e` follows the old records of `fa`, the log of
    /// `fa` ends right after it, `sp` holds none, and the other sectors are
    /// as they were.
    #[verifier::rlimit(40)]
    #[verifier::spinoff_prover]
    proof fn lemma_log_after_write(c0: Seq<u8>, c2: Seq<u8>, n: int, es: int, ps: int, fa: int, sp: int, rot: bool, e: EntryView, value: Seq<u8>, flags: u16)
        requires
            es > 0,
            ps >= HEADER_SIZE,
            0 <= fa < n,
            0 <= sp < n,
            fa != sp,
            n * es <= c0.len(),
            c0.len() == c2.len(),
            c0.len() <= u32::MAX,
            1 <= e.key.len() <= MAX_KEY,
            value.len() <= MAX_VALUE,
            e.val_len as int == value.len(),
            e.deleted == (flags & FLAG_DELETE != 0),
            fa * es <= e.addr,
            e.addr + rec_len(e.key.len() as int, value.len() as int, ps) <= fa * es + es,
            c2.subrange(e.addr as int, e.addr as int + rec_len(e.key.len() as int, value.len() as int, ps)) == record_image(
                e.key,
                value,
                flags,
                e.seq,
                rec_len(e.key.len() as int, value.len() as int, ps),
            ),
            all_erased(
                c2,
                e.addr as int + rec_len(e.key.len() as int, value.len() as int, ps),
                fa * es + es - (e.addr as int + rec_len(e.key.len() as int, value.len() as int, ps)),
            ),
            !rot ==> sector_log_end(c0, fa * es, 0, es, ps) == e.addr - fa * es,
            rot ==> all_erased(c0, fa * es, es) && e.addr == fa * es && all_erased(c2, sp * es, es),
            forall|j: int| 0 <= j < c0.len() && !(e.addr <= j < e.addr + rec_len(e.key.len() as int, value.len() as int, ps)) && !(rot
                && sp * es <= j < sp * es + es) ==> #[trigger] c2[j] == c0[j],
        ensures
            sector_log(c2, fa * es, 0, es, ps) == (if rot { Seq::<EntryView>::empty() } else { sector_log(c0, fa * es, 0, es, ps) }).push(e),
            rot ==> sector_log(c0, fa * es, 0, es, ps) == Seq::<EntryView>::empty(),
            sector_log_end(c2, fa * es, 0, es, ps) == e.addr + rec_len(e.key.len() as int, value.len() as int, ps) - fa * es,
            rot ==> sector_log(c2, sp * es, 0, es, ps) == Seq::<EntryView>::empty(),
            forall|t: int| 0 <= t < n && t != fa && !(rot && t == sp) ==> #[trigger] sector_log(c2, t * es, 0, es, ps) == sector_log(
                c0,
                t * es,
                0,
                es,
                ps,
            ),
    {
        let rec = rec_len(e.key.len() as int, value.len() as int, ps);
        let a = e.addr as int;
        lemma_round_up(HEADER_SIZE + e.key.len() + value.len(), ps);
        lemma_sector_end(fa, es, n);
        lemma_sector_end(sp, es, n);
        let off_e = a - fa * es;
        lemma_rec_at_image(c2, fa * es, off_e, es, ps, e.key, value, flags, e.seq);
        assert(rec_at(c2, fa * es, off_e, es, ps) == Some(e));
        lemma_sector_log_step(c2, fa * es, off_e, es, ps, e);
        if off_e + rec + HEADER_SIZE <= es {
            lemma_rec_at_erased(c2, fa * es, off_e + rec, es, ps);
        }
        assert(sector_log(c2, fa * es, off_e + rec, es, ps) =~= Seq::<EntryView>::empty());
        assert(sector_log_end(c2, fa * es, off_e + rec, es, ps) == off_e + rec);
        if !rot {
            assert forall|j: int| fa * es <= j < fa * es + off_e implies #[trigger] c0[j] == c2[j] by {}
            lemma_sector_log_prefix(c0, c2, fa * es, 0, es, ps);
            assert(sector_log(c2, fa * es, 0, es, ps) =~= sector_log(c0, fa * es, 0, es, ps).push(e));
        } else {
            if HEADER_SIZE <= es {
                lemma_rec_at_erased(c0, fa * es, 0, es, ps);
                lemma_rec_at_erased(c2, sp * es, 0, es, ps);
            }
            assert(sector_log(c0, fa * es, 0, es, ps) =~= Seq::<EntryView>::empty());
            assert(sector_log(c2, sp * es, 0, es, ps) =~= Seq::<EntryView>::empty());
            assert(sector_log(c2, fa * es, 0, es, ps) =~= Seq::<EntryView>::empty().push(e));
        }
        assert forall|t: int| 0 <= t < n && t != fa && !(rot && t == sp) implies #[trigger] sector_log(c2, t * es, 0, es, ps)
            == sector_log(c0, t * es, 0, es, ps) by {
            lemma_sector_end(t, es, n);
            lemma_sectors_disjoint(t, fa, es);
            if rot {
                lemma_sectors_disjoint(t, sp, es);
            }
            assert forall|j: int| t * es <= j < t * es + es implies #[trigger] c0[j] == c2[j] by {}
            lemma_sector_log_same(c0, c2, t * es, 0, es, ps);
        }
    }

    /// What the sector logs say of the whole log: the records on `c2` are
    /// `e` and records of `c0`, and `e` is on `c2`.
    proof fn lemma_log_members(c0: Seq<u8>, c2: Seq<u8>, n: int, es: int, ps: int, fa: int, sp: int, rot: bool, e: EntryView)
        requires
            0 <= fa < n,
            sector_log(c2, fa * es, 0, es, ps) == (if rot { Seq::<EntryView>::empty() } else { sector_log(c0, fa * es, 0, es, ps) }).push(e),
            rot ==> sector_log(c2, sp * es, 0, es, ps) == Seq::<EntryView>::empty(),
            forall|t: int| 0 <= t < n && t != fa && !(rot && t == sp) ==> #[trigger] sector_log(c2, t * es, 0, es, ps) == sector_log(
                c0,
                t * es,
                0,
                es,
                ps,
            ),
        ensures
            device_log(c2, n, es, ps).contains(e),
            forall|x: EntryView| device_log(c2, n, es, ps).contains(x) ==> x == e || device_log(c0, n, es, ps).contains(x),
            forall|x: EntryView| device_log(c0, n, es, ps).contains(x) && !(rot && exists|t: int| t == sp && #[trigger] sector_log(c0, t * es, 0, es, ps).contains(x))
                && !(rot && sector_log(c0, fa * es, 0, es, ps).contains(x)) ==> device_log(c2, n, es, ps).contains(x),
    {
        let sf = sector_log(c2, fa * es, 0, es, ps);
        lemma_device_log_mem(c2, n, es, ps, e);
        assert(sf[sf.len() - 1] == e);
        assert(sf.contains(e));
        assert forall|x: EntryView| device_log(c2, n, es, ps).contains(x) implies x == e || device_log(c0, n, es, ps).contains(x) by {
            lemma_device_log_mem(c2, n, es, ps, x);
            lemma_device_log_mem(c0, n, es, ps, x);
            let t = choose|t: int| 0 <= t < n && #[trigger] sector_log(c2, t * es, 0, es, ps).contains(x);
            if t == fa {
                if x != e {
                    let j = choose|j: int| 0 <= j < sf.len() && sf[j] == x;
                    assert(j < sf.len() - 1);
                    assert(!rot);
                    assert(sector_log(c0, fa * es, 0, es, ps)[j] == x);
                    assert(sector_log(c0, fa * es, 0, es, ps).contains(x));
                }
            } else if rot && t == sp {
                assert(false);
            } else {
                assert(sector_log(c0, t * es, 0, es, ps).contains(x));
            }
        }
        assert forall|x: EntryView| device_log(c0, n, es, ps).contains(x) && !(rot && exists|t: int| t == sp && #[trigger] sector_log(c0, t * es, 0, es, ps).contains(x))
            && !(rot && sector_log(c0, fa * es, 0, es, ps).contains(x)) implies device_log(c2, n, es, ps).contains(x) by {
            lemma_device_log_mem(c2, n, es, ps, x);
            lemma_device_log_mem(c0, n, es, ps, x);
            let t = choose|t: int| 0 <= t < n && #[trigger] sector_log(c0, t * es, 0, es, ps).contains(x);
            if t == fa {
                let s0 = sector_log(c0, fa * es, 0, es, ps);
                let j = choose|j: int| 0 <= j < s0.len() && s0[j] == x;
                assert(sf[j] == x);
                assert(sf.contains(x));
            } else if rot && t == sp {
                assert(false);
            } else {
                assert(sector_log(c2, t * es, 0, es, ps).contains(x));
            }
        }
    }

    /// Sector by sector, the log after an append at `a` in sector `fa` that
    /// was cut short (what was left at `a` reads as no record): the log of
    /// `fa` is what it was and ends at `a`, the sector `sp` erased anew by a
    /// move (`rot`) holds none, and the other sectors are as they were.
    #[verifier::rlimit(40)]
    #[verifier::spinoff_prover]
    proof fn lemma_log_after_torn(c0: Seq<u8>, c2: Seq<u8>, n: int, es: int, ps: int, fa: int, sp: int, rot: bool, a: int, rec: int)
        requires
            es > 0,
            ps >= HEADER_SIZE,
            0 <= fa < n,
            0 <= sp < n,
            fa != sp,
            n * es <= c0.len(),
            c0.len() == c2.len(),
            rec >= 0,
            fa * es <= a,
            a + rec <= fa * es + es,
            rec_at(c2, fa * es, a - fa * es, es, ps) is None,
            !rot ==> sector_log_end(c0, fa * es, 0, es, ps) == a - fa * es,
            rot ==> all_erased(c0, fa * es, es) && a == fa * es && all_erased(c2, sp * es, es),
            forall|j: int| 0 <= j < c0.len() && !(a <= j < a + rec) && !(rot && sp * es <= j < sp * es + es) ==> #[trigger] c2[j] == c0[j],
        ensures
            sector_log(c2, fa * es, 0, es, ps) == (if rot { Seq::<EntryView>::empty() } else { sector_log(c0, fa * es, 0, es, ps) }),
            rot ==> sector_log(c0, fa * es, 0, es, ps) == Seq::<EntryView>::empty(),
            sector_log_end(c2, fa * es, 0, es, ps) == a - fa * es,
            rot ==> sector_log(c2, sp * es, 0, es, ps) == Seq::<EntryView>::empty(),
            forall|t: int| 0 <= t < n && t != fa && !(rot && t == sp) ==> #[trigger] sector_log(c2, t * es, 0, es, ps) == sector_log(
                c0,
                t * es,
                0,
                es,
                ps,
            ),
    {
        lemma_sector_end(fa, es, n);
        lemma_sector_end(sp, es, n);
        let off = a - fa * es;
        assert(sector_log(c2, fa * es, off, es, ps) =~= Seq::<EntryView>::empty());
        assert(sector_log_end(c2, fa * es, off, es, ps) == off);
        if !rot {
            assert forall|j: int| fa * es <= j < fa * es + off implies #[trigger] c0[j] == c2[j] by {}
            lemma_sector_log_prefix(c0, c2, fa * es, 0, es, ps);
            assert(sector_log(c2, fa * es, 0, es, ps) =~= sector_log(c0, fa * es, 0, es, ps));
        } else {
            if HEADER_SIZE <= es {
                lemma_rec_at_erased(c0, fa * es, 0, es, ps);
                lemma_rec_at_erased(c2, sp * es, 0, es, ps);
            }
            assert(sector_log(c0, fa * es, 0, es, ps) =~= Seq::<EntryView>::empty());
            assert(sector_log(c2, sp * es, 0, es, ps) =~= Seq::<EntryView>::empty());
        }
        assert forall|t: int| 0 <= t < n && t != fa && !(rot && t == sp) implies #[trigger] sector_log(c2, t * es, 0, es, ps)
            == sector_log(c0, t * es, 0, es, ps) by {
            lemma_sector_end(t, es, n);
            lemma_sectors_disjoint(t, fa, es);
            if rot {
                lemma_sectors_disjoint(t, sp, es);
            }
            assert forall|j: int| t * es <= j < t * es + es implies #[trigger] c0[j] == c2[j] by {}
            lemma_sector_log_same(c0, c2, t * es, 0, es, ps);
        }
    }

    /// A store whose last append was cut short, leaving at the head bytes
    /// that read as no record, still agrees with its medium: the index is
    /// the one before the append, after it stayed in place or moved to the
    /// spare sector (and erased a sector holding no indexed record).
    #[verifier::rlimit(40)]
    #[verifier::spinoff_prover]
    proof fn lemma_torn_consistent(o: Self, f: Self, rec: int)
        requires
            o.clean(),
            o.consistent(),
            f.wf(),
            f.entries() == o.entries(),
            f.geom() == o.geom(),
            f.dev.contents().len() == o.dev.contents().len(),
            rec >= 0,
            f.head as int % o.esz as int + rec <= o.esz,
            f.head as int / o.esz as int == f.active_sec,
            rec_at(f.dev.contents(), f.active_sec as int * o.esz as int, f.head as int - f.active_sec as int * o.esz as int, o.esz as int, o.psz as int) is None,
            (f.active_sec == o.active_sec && f.head == o.head && f.free_sector == o.free_sector) || (f.active_sec == o.free_sector && f.head as int == o.free_sector as int
                * o.esz as int && !has_entry_in(o.entries(), f.free_sector, o.esz) && f.free_sector != o.free_sector && all_erased(
                f.dev.contents(),
                f.free_sector as int * o.esz as int,
                o.esz as int,
            )),
            forall|j: int| 0 <= j < o.dev.contents().len() && !(f.head <= j < f.head + rec) && !(f.active_sec != o.active_sec
                && f.free_sector as int * o.esz as int <= j < f.free_sector as int * o.esz as int + o.esz as int) ==> #[trigger] f.dev.contents()[j]
                == o.dev.contents()[j],
        ensures
            f.consistent(),
    {
        let es = o.esz as int;
        let ps = o.psz as int;
        let n = o.sector_count as int;
        let c0 = o.dev.contents();
        let c2 = f.dev.contents();
        let fa = f.active_sec as int;
        let sp = f.free_sector as int;
        let rot = f.active_sec != o.active_sec;
        let a = f.head as int;
        lemma_sector_end(fa, es, n);
        vstd::arithmetic::div_mod::lemma_fundamental_div_mod(a, es);
        assert(fa * es == es * fa) by (nonlinear_arith);
        if rot {
            assert(all_erased(c0, o.free_sector as int * es, es));
        } else {
            assert(sector_log_end(c0, fa * es, 0, es, ps) == a - fa * es);
        }
        Self::lemma_log_after_torn(c0, c2, n, es, ps, fa, sp, rot, a, rec);
        let log0 = o.medium_log();
        let log2 = f.medium_log();
        let ix = o.entries();
        assert forall|x: EntryView| log2.contains(x) implies log0.contains(x) by {
            lemma_device_log_mem(c2, n, es, ps, x);
            lemma_device_log_mem(c0, n, es, ps, x);
            let t = choose|t: int| 0 <= t < n && #[trigger] sector_log(c2, t * es, 0, es, ps).contains(x);
            if rot && t == sp {
                assert(false);
            }
            if rot && t == fa {
                assert(false);
            }
            assert(sector_log(c0, t * es, 0, es, ps).contains(x));
        }
        assert forall|j: int| 0 <= j < log2.len() implies (position(ix, #[trigger] log2[j].key) matches Some(i) && (log2[j].seq < ix[i].seq
            || log2[j] == ix[i])) by {
            assert(log2.contains(log2[j]));
            let j0 = choose|j0: int| 0 <= j0 < log0.len() && log0[j0] == log2[j];
            assert(position(ix, log0[j0].key) matches Some(i) && (log0[j0].seq < ix[i].seq || log0[j0] == ix[i]));
        }
        assert forall|i: int| 0 <= i < ix.len() implies log2.contains(#[trigger] ix[i]) by {
            let x = ix[i];
            assert(log0.contains(x));
            lemma_device_log_mem(c2, n, es, ps, x);
            lemma_device_log_mem(c0, n, es, ps, x);
            let t = choose|t: int| 0 <= t < n && #[trigger] sector_log(c0, t * es, 0, es, ps).contains(x);
            if rot && t == sp {
                lemma_sector_log_addrs(c0, sp * es, 0, es, ps);
                let sl = sector_log(c0, sp * es, 0, es, ps);
                let jj = choose|jj: int| 0 <= jj < sl.len() && #[trigger] sl[jj] == x;
                assert(sp * es <= x.addr < sp * es + es);
                assert(in_sector(ix[i].addr, f.free_sector, o.esz));
                assert(has_entry_in(ix, f.free_sector, o.esz));
            }
            if rot && t == fa {
                assert(false);
            }
            assert(sector_log(c2, t * es, 0, es, ps).contains(x));
        }
    }

    /// A write that failed on the device, needing no compaction or a
    /// compaction that fits, left the store reading as before, and, when the
    /// cut-short record reads as no record, a medium whose remount reads as
    /// before too.
    proof fn lemma_power_loss(o: Self, f: Self, key: Seq<u8>, vlen: int, failed: bool)
        requires
            f.wf(),
            f.geom() == o.geom(),
            o.clean() && o.consistent() && o.write_needs_no_compaction(key.len() as int, vlen) && failed ==> {
                let es = o.geom().1 as int;
                let c = f.device().contents();
                let base = f.active_sector() as int * es;
                &&& f.entries() == o.entries()
                &&& values_kept(o.device().contents(), o.entries(), c, f.entries())
                &&& rec_at(c, base, f.head_pos() as int - base, es, o.geom().2 as int) is None ==> f.consistent()
            },
            o.clean() && o.consistent() && o.write_compacts(key.len() as int, vlen) && failed ==> {
                let es = o.geom().1 as int;
                let c = f.device().contents();
                let base = f.active_sector() as int * es;
                &&& same_records(o.entries(), f.entries())
                &&& values_kept(o.device().contents(), o.entries(), c, f.entries())
                &&& rec_at(c, base, f.head_pos() as int - base, es, o.geom().2 as int) is None ==> f.agrees()
            },
        ensures
            ({
                let es = o.geom().1 as int;
                let c = f.device().contents();
                let base = f.active_sector() as int * es;
                let ges = f.device().geometry().1 as int;
                let gps = f.device().geometry().0 as int;
                o.clean() && o.consistent() && o.write_fits(key.len() as int, vlen) && failed ==> {
                    &&& same_records(o.entries(), f.entries())
                    &&& forall|k: Seq<u8>| #[trigger] f.reads(k) == o.reads(k)
                    &&& rec_at(c, base, f.head_pos() as int - base, es, o.geom().2 as int) is None ==> (fold_index(
                        device_log(c, c.len() as int / ges, ges, gps),
                        N as int,
                    ) matches Some(ix) && forall|k: Seq<u8>| #[trigger] reads_in(c, ix, k) == o.reads(k))
                }
            }),
    {
        if o.clean() && o.consistent() && o.write_fits(key.len() as int, vlen) && failed {
            let c0 = o.device().contents();
            let c = f.device().contents();
            if o.write_needs_no_compaction(key.len() as int, vlen) {
                assert(same_records(o.entries(), f.entries()));
            }
            assert forall|k: Seq<u8>| #[trigger] f.reads(k) == o.reads(k) by {
                lemma_position_same_records(o.entries(), f.entries(), k);
                match position(o.entries(), k) {
                    Some(i) => {
                        assert(same_record(o.entries()[i], f.entries()[i]));
                        assert(value_at(c, f.entries()[i]) == value_at(c0, o.entries()[i]));
                    },
                    None => {},
                }
            }
            let es = o.geom().1 as int;
            let base = f.active_sector() as int * es;
            if rec_at(c, base, f.head_pos() as int - base, es, o.geom().2 as int) is None {
                if o.write_needs_no_compaction(key.len() as int, vlen) {
                    Self::lemma_consistent_agrees(f);
                }
                assert(f.agrees());
                assert(f.medium_log() == device_log(c, c.len() as int / f.device().geometry().1 as int, f.device().geometry().1 as int, f.device().geometry().0 as int));
                lemma_remount_agrees(c, f.medium_log(), f.entries(), N as int);
                let ix = fold_index(f.medium_log(), N as int)->Some_0;
                assert forall|k: Seq<u8>| #[trigger] reads_in(c, ix, k) == o.reads(k) by {
                    assert(reads_in(c, ix, k) == reads_in(c, f.entries(), k));
                    assert(f.reads(k) == o.reads(k));
                }
            }
        }
    }

    /// Law (persistence): the index that mounting rebuilds from the medium
    /// of a consistent store (the fold of its records, see
    /// [`Self::mount`]) holds, key by key, the very entries of the store:
    /// same sequence number, length, tombstone and address. With the
    /// contract of `mount`, a remount of the store's device indexes every
    /// key as the store did.
    pub proof fn lemma_remount_index(fs: Self)
        requires
            fs.wf(),
            fs.consistent(),
        ensures
            fs.medium_log() == device_log(
                fs.device().contents(),
                fs.device().contents().len() as int / fs.device().geometry().1 as int,
                fs.device().geometry().1 as int,
                fs.device().geometry().0 as int,
            ),
            fold_index(fs.medium_log(), N as int) matches Some(ix) && forall|k: Seq<u8>| #[trigger] entry_of(ix, k) == entry_of(fs.entries(), k),
    {
        let log = fs.medium_log();
        let ix = fs.entries();
        lemma_fold_agrees(log, ix, N as int);
        let f = fold_index(log, N as int)->Some_0;
        assert forall|k: Seq<u8>| #[trigger] entry_of(f, k) == entry_of(ix, k) by {
            match position(ix, k) {
                Some(i) => {
                    assert(log.contains(ix[i]));
                    let j = choose|j: int| 0 <= j < log.len() && log[j] == ix[i];
                    assert(log[j].key == k);
                    let q = position(f, log[j].key)->Some_0;
                    assert(log[j].seq <= f[q].seq);
                    assert(log.contains(f[q]));
                    let j2 = choose|j2: int| 0 <= j2 < log.len() && log[j2] == f[q];
                    assert(f[q].key == k);
                    assert(position(ix, log[j2].key) == Some(i));
                },
                None => {
                    if let Some(q) = position(f, k) {
                        assert(log.contains(f[q]));
                        let j2 = choose|j2: int| 0 <= j2 < log.len() && log[j2] == f[q];
                        assert(position(ix, log[j2].key) is Some);
                    }
                },
            }
        }
    }

    /// Remounting gives back what was read: the log on the medium of a
    /// store that agrees with it folds to an index under which every key
    /// reads, on that medium, what it reads in the store (`mount` reads
    /// under the folded index, see its contract).
    pub proof fn lemma_remount_reads(fs: Self)
        requires
            fs.wf(),
            fs.consistent(),
        ensures
            ({
                let c = fs.device().contents();
                let es = fs.device().geometry().1 as int;
                let ps = fs.device().geometry().0 as int;
                fold_index(device_log(c, c.len() as int / es, es, ps), N as int) matches Some(ix) && forall|k: Seq<u8>| #[trigger] reads_in(
                    c,
                    ix,
                    k,
                ) == fs.reads(k)
            }),
    {
        Self::lemma_remount_index(fs);
        let ix = fold_index(fs.medium_log(), N as int)->Some_0;
        assert forall|k: Seq<u8>| #[trigger] reads_in(fs.device().contents(), ix, k) == fs.reads(k) by {
            assert(entry_of(ix, k) == entry_of(fs.entries(), k));
        }
    }
}

} // verus!
