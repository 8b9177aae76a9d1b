//! CRC-32 (IEEE 802.3, reflected polynomial `0xEDB8_8320`), bit by bit.
use vstd::prelude::*;

verus! {

/// Reflected generator polynomial of CRC-32/ISO-HDLC.
pub const POLY: u32 = 0xEDB8_8320;

/// One shift of the reflected CRC register.
pub open spec fn crc_shift(crc: u32) -> u32 {
    if crc & 1 == 1 {
        (crc >> 1) ^ POLY
    } else {
        crc >> 1
    }
}

/// `n` shifts of the register.
pub open spec fn crc_shifts(crc: u32, n: nat) -> u32
    decreases n,
{
    if n == 0 {
        crc
    } else {
        crc_shifts(crc_shift(crc), (n - 1) as nat)
    }
}

/// Register after absorbing one byte.
pub open spec fn crc_byte(crc: u32, b: u8) -> u32 {
    crc_shifts(crc ^ (b as u32), 8)
}

/// Register after absorbing `data`, starting from `crc`.
pub open spec fn crc_update(crc: u32, data: Seq<u8>) -> u32
    decreases data.len(),
{
    if data.len() == 0 {
        crc
    } else {
        crc_byte(crc_update(crc, data.drop_last()), data.last())
    }
}

/// CRC-32/ISO-HDLC of `data`: initial register all ones, final complement.
pub open spec fn spec_crc32(data: Seq<u8>) -> u32 {
    !crc_update(0xFFFF_FFFF, data)
}

proof fn lemma_branchless_shift(crc: u32)
    ensures
        (crc >> 1) ^ (POLY & 0u32.wrapping_sub(crc & 1)) == crc_shift(crc),
{
    let m = 0u32.wrapping_sub(crc & 1);
    assert(crc & 1 == 0 || crc & 1 == 1) by (bit_vector);
    if crc & 1 == 1 {
        assert(m == 0xFFFF_FFFFu32);
        assert(0xEDB8_8320u32 & 0xFFFF_FFFFu32 == 0xEDB8_8320u32) by (bit_vector);
    } else {
        assert(m == 0u32);
        assert(0xEDB8_8320u32 & 0u32 == 0u32) by (bit_vector);
        assert((crc >> 1) ^ 0u32 == crc >> 1) by (bit_vector);
    }
}

/// CRC-32/ISO-HDLC of `data` (initial `0xFFFF_FFFF`, final xor).
pub fn crc32(data: &[u8]) -> (r: u32)
    ensures
        r == spec_crc32(data@),
{
    let mut crc: u32 = 0xFFFF_FFFF;
    let mut i: usize = 0;
    while i < data.len()
        invariant
            i <= data.len(),
            crc == crc_update(0xFFFF_FFFF, data@.subrange(0, i as int)),
        decreases data.len() - i,
    {
        let ghost before = crc;
        crc = crc ^ (data[i] as u32);
        let mut k: u32 = 0;
        while k < 8
            invariant
                k <= 8,
                crc == crc_shifts(before ^ (data@[i as int] as u32), k as nat),
            decreases 8 - k,
        {
            proof {
                lemma_branchless_shift(crc);
                lemma_shifts_snoc(before ^ (data@[i as int] as u32), k as nat);
            }
            let mask = 0u32.wrapping_sub(crc & 1);
            crc = (crc >> 1) ^ (POLY & mask);
            k = k + 1;
        }
        proof {
            let s = data@.subrange(0, i as int + 1);
            assert(s.drop_last() =~= data@.subrange(0, i as int));
            assert(s.last() == data@[i as int]);
        }
        i = i + 1;
    }
    proof {
        assert(data@.subrange(0, data.len() as int) =~= data@);
    }
    !crc
}

proof fn lemma_shifts_snoc(crc: u32, n: nat)
    ensures
        crc_shifts(crc, n + 1) == crc_shift(crc_shifts(crc, n)),
    decreases n,
{
    reveal_with_fuel(crc_shifts, 2);
    if n > 0 {
        lemma_shifts_snoc(crc_shift(crc), (n - 1) as nat);
    }
}

} // verus!
