//! Message authentication (HMAC-SHA256, constant-time comparison) and a
//! software random generator (xoshiro256** seeded by splitmix64).
//!
//! SHA-256 itself comes from the `sha2` crate.
use vstd::prelude::*;

verus! {

/// SHA-256 digest (32 bytes).
pub type Digest256 = [u8; 32];

/// Block size of SHA-256 in bytes.
pub const BLOCK: usize = 64;

/// The SHA-256 digest of `data`, as `sha2` computes it.
pub uninterp spec fn sha256_of(data: Seq<u8>) -> Seq<u8>;

/// SHA-256 of `data`, one shot.
///
/// Calls `sha2::Sha256::digest` (through `sha2::Digest`). Trusted: the
/// result is the digest of exactly the bytes given, the same for the same
/// bytes.
#[verifier::external_body]
fn sha256(data: &[u8]) -> (r: Digest256)
    ensures
        r@ == sha256_of(data@),
{
    let out = <sha2::Sha256 as sha2::Digest>::digest(data);
    let mut d = [0u8; 32];
    d.copy_from_slice(out.as_slice());
    d
}

/// Incremental SHA-256: the bytes given to [`Sha256::update`] are kept and
/// hashed when the digest is asked for.
pub struct Sha256 {
    data: Vec<u8>,
}

impl View for Sha256 {
    type V = Seq<u8>;

    /// The bytes absorbed so far.
    closed spec fn view(&self) -> Seq<u8> {
        self.data@
    }
}

impl Sha256 {
    /// A hasher that has absorbed nothing.
    pub fn new() -> (r: Self)
        ensures
            r@ == Seq::<u8>::empty(),
    {
        Sha256 { data: Vec::new() }
    }

    /// Absorbs `data`.
    pub fn update(&mut self, data: &[u8])
        ensures
            final(self)@ == old(self)@ + data@,
    {
        let mut i: usize = 0;
        while i < data.len()
            invariant
                i <= data@.len(),
                self@ == old(self)@ + data@.subrange(0, i as int),
            decreases data@.len() - i,
        {
            self.data.push(data[i]);
            i = i + 1;
            assert(self@ =~= old(self)@ + data@.subrange(0, i as int));
        }
        assert(data@.subrange(0, data@.len() as int) =~= data@);
    }

    /// The digest of everything absorbed.
    pub fn finalize(self) -> (r: Digest256)
        ensures
            r@ == sha256_of(self@),
    {
        sha256(self.data.as_slice())
    }
}

impl Default for Sha256 {
    fn default() -> (r: Self)
        ensures
            r@ == Seq::<u8>::empty(),
    {
        Sha256::new()
    }
}

/// The key of HMAC brought to one block: hashed when longer than a block,
/// then padded with zeros (RFC 2104).
pub open spec fn hmac_key_block(key: Seq<u8>) -> Seq<u8> {
    let k = if key.len() > BLOCK { sha256_of(key) } else { key };
    Seq::new(BLOCK as nat, |i: int| if i < k.len() { k[i] } else { 0u8 })
}

/// Each byte of `s` XOR `pad`.
pub open spec fn xor_pad(s: Seq<u8>, pad: u8) -> Seq<u8> {
    Seq::new(s.len(), |i: int| s[i] ^ pad)
}

/// `HMAC-SHA256(key, msg)` per RFC 2104:
/// `H((K0 ^ opad) || H((K0 ^ ipad) || msg))`.
pub open spec fn hmac_spec(key: Seq<u8>, msg: Seq<u8>) -> Seq<u8> {
    let k0 = hmac_key_block(key);
    sha256_of(xor_pad(k0, 0x5cu8) + sha256_of(xor_pad(k0, 0x36u8) + msg))
}

/// Computes `HMAC-SHA256(key, msg)` (RFC 2104). A key longer than a block
/// is replaced by its hash.
pub fn hmac_sha256(key: &[u8], msg: &[u8]) -> (r: Digest256)
    ensures
        r@ == hmac_spec(key@, msg@),
{
    let ghost kk: Seq<u8> = if key@.len() > BLOCK { sha256_of(key@) } else { key@ };
    let mut k0: Vec<u8> = Vec::new();
    if key.len() > BLOCK {
        let kh = sha256(key);
        let mut i: usize = 0;
        while i < BLOCK
            invariant
                i <= BLOCK,
                k0@.len() == i,
                kk == kh@,
                kh@.len() == 32,
                forall|j: int| 0 <= j < i ==> #[trigger] k0@[j] == (if j < kk.len() { kk[j] } else { 0u8 }),
            decreases BLOCK - i,
        {
            if i < 32 {
                k0.push(kh[i]);
            } else {
                k0.push(0u8);
            }
            i = i + 1;
        }
    } else {
        let mut i: usize = 0;
        while i < BLOCK
            invariant
                i <= BLOCK,
                k0@.len() == i,
                kk == key@,
                forall|j: int| 0 <= j < i ==> #[trigger] k0@[j] == (if j < kk.len() { kk[j] } else { 0u8 }),
            decreases BLOCK - i,
        {
            if i < key.len() {
                k0.push(key[i]);
            } else {
                k0.push(0u8);
            }
            i = i + 1;
        }
    }
    assert(k0@ =~= hmac_key_block(key@));
    let mut inner_in: Vec<u8> = Vec::new();
    let mut outer_in: Vec<u8> = Vec::new();
    let mut i: usize = 0;
    while i < BLOCK
        invariant
            i <= BLOCK,
            k0@.len() == BLOCK,
            inner_in@ =~= xor_pad(k0@, 0x36u8).subrange(0, i as int),
            outer_in@ =~= xor_pad(k0@, 0x5cu8).subrange(0, i as int),
        decreases BLOCK - i,
    {
        inner_in.push(k0[i] ^ 0x36u8);
        outer_in.push(k0[i] ^ 0x5cu8);
        i = i + 1;
    }
    let mut j: usize = 0;
    while j < msg.len()
        invariant
            j <= msg@.len(),
            inner_in@ =~= xor_pad(k0@, 0x36u8) + msg@.subrange(0, j as int),
        decreases msg@.len() - j,
    {
        inner_in.push(msg[j]);
        j = j + 1;
    }
    let inner = sha256(inner_in.as_slice());
    let mut j: usize = 0;
    while j < 32
        invariant
            j <= 32,
            outer_in@ =~= xor_pad(k0@, 0x5cu8) + inner@.subrange(0, j as int),
        decreases 32 - j,
    {
        outer_in.push(inner[j]);
        j = j + 1;
    }
    proof {
        assert(inner@.subrange(0, 32) =~= inner@);
        assert(msg@.subrange(0, msg@.len() as int) =~= msg@);
    }
    sha256(outer_in.as_slice())
}

proof fn lemma_or_xor_zero(d: u8, x: u8, y: u8)
    ensures
        ((d | (x ^ y)) == 0u8) == (d == 0u8 && x == y),
{
    assert(((d | (x ^ y)) == 0u8) == (d == 0u8 && x == y)) by (bit_vector);
}

/// Compares two byte strings in time independent of where they differ:
/// `true` exactly when they are equal.
pub fn ct_eq(a: &[u8], b: &[u8]) -> (r: bool)
    ensures
        r == (a@ == b@),
{
    if a.len() != b.len() {
        return false;
    }
    let mut diff: u8 = 0;
    let mut i: usize = 0;
    while i < a.len()
        invariant
            i <= a@.len(),
            a@.len() == b@.len(),
            (diff == 0) == (forall|j: int| 0 <= j < i ==> a@[j] == b@[j]),
        decreases a@.len() - i,
    {
        proof {
            lemma_or_xor_zero(diff, a@[i as int], b@[i as int]);
        }
        diff = diff | (a[i] ^ b[i]);
        i = i + 1;
    }
    proof {
        if diff == 0 {
            assert(a@ =~= b@);
        }
    }
    diff == 0
}

/// Rotation of `x` left by `k` bits (`0 < k < 64`).
pub open spec fn rotl(x: u64, k: u64) -> u64 {
    (x << k) | (x >> ((64 - k) as u64))
}

/// One splitmix64 output for the counter `z`.
pub open spec fn splitmix(z: u64) -> u64 {
    let x1 = (z ^ (z >> 30u64)).wrapping_mul(0xBF58476D1CE4E5B9u64);
    let x2 = (x1 ^ (x1 >> 27u64)).wrapping_mul(0x94D049BB133111EBu64);
    x2 ^ (x2 >> 31u64)
}

/// The splitmix64 counter after `k + 1` steps from `seed`.
pub open spec fn splitmix_counter(seed: u64, k: nat) -> u64
    decreases k,
{
    if k == 0 {
        seed.wrapping_add(0x9E3779B97F4A7C15u64)
    } else {
        splitmix_counter(seed, (k - 1) as nat).wrapping_add(0x9E3779B97F4A7C15u64)
    }
}

/// The generator state seeded from `seed`: four splitmix64 outputs.
pub open spec fn seeded(seed: u64) -> [u64; 4] {
    [
        splitmix(splitmix_counter(seed, 0)),
        splitmix(splitmix_counter(seed, 1)),
        splitmix(splitmix_counter(seed, 2)),
        splitmix(splitmix_counter(seed, 3)),
    ]
}

/// The xoshiro256** output for state `s`.
pub open spec fn xoshiro_out(s: [u64; 4]) -> u64 {
    rotl(s[1].wrapping_mul(5u64), 7u64).wrapping_mul(9u64)
}

/// The xoshiro256** state after one step from `s`.
pub open spec fn xoshiro_next(s: [u64; 4]) -> [u64; 4] {
    let t = s[1] << 17u64;
    let s2 = s[2] ^ s[0];
    let s3 = s[3] ^ s[1];
    let s1 = s[1] ^ s2;
    let s0 = s[0] ^ s3;
    [s0, s1, s2 ^ t, rotl(s3, 45u64)]
}

/// The state after `k` steps from `s`.
pub open spec fn xoshiro_after(s: [u64; 4], k: nat) -> [u64; 4]
    decreases k,
{
    if k == 0 { s } else { xoshiro_next(xoshiro_after(s, (k - 1) as nat)) }
}

/// The first `n` bytes of the little-endian outputs of the generator from
/// state `s`.
pub open spec fn stream_bytes(s: [u64; 4], n: nat) -> Seq<u8> {
    Seq::new(n, |i: int| le_byte(xoshiro_out(xoshiro_after(s, (i / 8) as nat)), i % 8))
}

/// Byte `k` (0 = least significant) of `x`.
pub open spec fn le_byte(x: u64, k: int) -> u8 {
    ((x >> ((8 * k) as u64)) & 0xFFu64) as u8
}

/// Software random generator (xoshiro256**), seeded once at boot.
pub struct SoftwareRng {
    s: [u64; 4],
}

impl View for SoftwareRng {
    type V = [u64; 4];

    /// The generator state.
    closed spec fn view(&self) -> [u64; 4] {
        self.s
    }
}

fn rotl_exec(x: u64, k: u64) -> (r: u64)
    requires
        0 < k < 64,
    ensures
        r == rotl(x, k),
{
    (x << k) | (x >> (64 - k))
}

impl SoftwareRng {
    /// Seeds the generator from a 64-bit value with splitmix64.
    pub fn seed_from_u64(seed: u64) -> (r: Self)
        ensures
            r@ == seeded(seed),
    {
        let mut s = [0u64; 4];
        let mut z = seed;
        let mut i: usize = 0;
        while i < 4
            invariant
                i <= 4,
                i > 0 ==> z == splitmix_counter(seed, (i - 1) as nat),
                i == 0 ==> z == seed,
                forall|j: int| 0 <= j < i ==> #[trigger] s[j] == splitmix(splitmix_counter(seed, j as nat)),
            decreases 4 - i,
        {
            z = z.wrapping_add(0x9E3779B97F4A7C15u64);
            let mut x = z;
            x = (x ^ (x >> 30u64)).wrapping_mul(0xBF58476D1CE4E5B9u64);
            x = (x ^ (x >> 27u64)).wrapping_mul(0x94D049BB133111EBu64);
            s[i] = x ^ (x >> 31u64);
            i = i + 1;
        }
        let r = SoftwareRng { s };
        assert(r@ =~= seeded(seed));
        r
    }

    /// Next 64-bit output; the state advances one step.
    pub fn next_u64(&mut self) -> (r: u64)
        ensures
            r == xoshiro_out(old(self)@),
            final(self)@ == xoshiro_next(old(self)@),
    {
        let result = rotl_exec(self.s[1].wrapping_mul(5u64), 7).wrapping_mul(9u64);
        let t = self.s[1] << 17u64;
        let s2 = self.s[2] ^ self.s[0];
        let s3 = self.s[3] ^ self.s[1];
        let s1 = self.s[1] ^ s2;
        let s0 = self.s[0] ^ s3;
        self.s = [s0, s1, s2 ^ t, rotl_exec(s3, 45)];
        assert(self@ =~= xoshiro_next(old(self)@));
        result
    }

    /// Next 32-bit output: the low half of the next 64-bit output.
    pub fn next_u32(&mut self) -> (r: u32)
        ensures
            r == xoshiro_out(old(self)@) as u32,
            final(self)@ == xoshiro_next(old(self)@),
    {
        self.next_u64() as u32
    }

    /// Fills `dest` with the little-endian bytes of successive outputs (the
    /// last output is cut to what is left).
    pub fn fill_bytes(&mut self, dest: &mut [u8])
        ensures
            final(dest)@ == stream_bytes(old(self)@, old(dest)@.len()),
            final(self)@ == xoshiro_after(old(self)@, ((old(dest)@.len() + 7) / 8) as nat),
    {
        let n = dest.len();
        let ghost s0 = self@;
        let q = n / 8;
        let mut c: usize = 0;
        while c <= q
            invariant
                n == dest@.len(),
                q == n / 8,
                c <= q + 1,
                8 * c <= n + 8,
                c <= q ==> 8 * c <= n,
                c == q + 1 ==> 8 * q != n,
                self@ == xoshiro_after(s0, c as nat),
                forall|j: int| 0 <= j < 8 * c && j < n ==> #[trigger] dest@[j] == stream_bytes(s0, n as nat)[j],
            ensures
                c == (n + 7) / 8,
                self@ == xoshiro_after(s0, c as nat),
                forall|j: int| 0 <= j < n ==> #[trigger] dest@[j] == stream_bytes(s0, n as nat)[j],
            decreases q + 1 - c,
        {
            let i = 8 * c;
            if i == n {
                break;
            }
            let ghost before = self@;
            let v = self.next_u64();
            let mut k: usize = 0;
            while k < 8 && i + k < n
                invariant
                    n == dest@.len(),
                    i == 8 * c,
                    i < n,
                    k <= 8,
                    before == xoshiro_after(s0, c as nat),
                    v == xoshiro_out(before),
                    forall|j: int| 0 <= j < i + k && j < n ==> #[trigger] dest@[j] == stream_bytes(s0, n as nat)[j],
                decreases 8 - k,
            {
                dest[i + k] = ((v >> ((8 * k) as u64)) & 0xFFu64) as u8;
                proof {
                    assert(((i + k) as int) / 8 == c as int);
                    assert(((i + k) as int) % 8 == k as int);
                }
                k = k + 1;
            }
            c = c + 1;
        }
        proof {
            assert(dest@ =~= stream_bytes(s0, n as nat));
            assert(c == (n + 7) / 8);
        }
    }
}

} // verus!
