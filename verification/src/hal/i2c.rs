//! I2C bus scan: which 7-bit addresses answered, collected in order.
use vstd::prelude::*;

verus! {

/// First address probed by a scan (below it the addresses are reserved).
pub const SCAN_FIRST: u8 = 0x08;
/// Last address probed by a scan (above it the addresses are reserved).
pub const SCAN_LAST: u8 = 0x77;
/// Number of addresses probed by a scan.
pub const SCAN_COUNT: usize = 112;

/// The addresses that acknowledged, in probing order, when `acks[i]` tells
/// whether address `SCAN_FIRST + i` did.
pub open spec fn acked(acks: Seq<bool>) -> Seq<u8>
    decreases acks.len(),
{
    if acks.len() == 0 {
        Seq::empty()
    } else {
        let prev = acked(acks.drop_last());
        if acks.last() { prev.push((SCAN_FIRST + acks.len() - 1) as u8) } else { prev }
    }
}

proof fn lemma_acked_len(acks: Seq<bool>)
    ensures
        acked(acks).len() <= acks.len(),
    decreases acks.len(),
{
    if acks.len() > 0 {
        lemma_acked_len(acks.drop_last());
    }
}

/// Records the outcome of a scan: `acks[i]` tells whether address
/// `SCAN_FIRST + i` acknowledged its probe. The answering addresses go to
/// `found` in order, as many as fit; returns how many were stored. The
/// rest of `found` is left as it was.
pub fn scan_record(acks: &[bool], found: &mut [u8]) -> (r: usize)
    requires
        acks@.len() == SCAN_COUNT,
    ensures
        r == if acked(acks@).len() < old(found)@.len() { acked(acks@).len() } else { old(found)@.len() as nat },
        final(found)@.len() == old(found)@.len(),
        forall|i: int| 0 <= i < r ==> #[trigger] final(found)@[i] == acked(acks@)[i],
        forall|i: int| r <= i < old(found)@.len() ==> #[trigger] final(found)@[i] == old(found)@[i],
{
    let mut n: usize = 0;
    let mut k: usize = 0;
    while k < SCAN_COUNT
        invariant
            k <= SCAN_COUNT,
            acks@.len() == SCAN_COUNT,
            found@.len() == old(found)@.len(),
            n == if acked(acks@.take(k as int)).len() < found@.len() { acked(acks@.take(k as int)).len() } else { found@.len() as nat },
            forall|i: int| 0 <= i < n ==> #[trigger] found@[i] == acked(acks@.take(k as int))[i],
            forall|i: int| n <= i < found@.len() ==> #[trigger] found@[i] == old(found)@[i],
        decreases SCAN_COUNT - k,
    {
        let ghost pre = acks@.take(k as int);
        let ghost cur = acks@.take(k + 1);
        proof {
            assert(cur.drop_last() =~= pre);
            lemma_acked_len(pre);
        }
        if acks[k] {
            let addr: u8 = SCAN_FIRST + k as u8;
            if n < found.len() {
                found[n] = addr;
                n = n + 1;
            }
        }
        k = k + 1;
        proof {
            assert(acked(cur) == if cur.last() { acked(pre).push((SCAN_FIRST + cur.len() - 1) as u8) } else { acked(pre) });
        }
    }
    proof {
        assert(acks@.take(SCAN_COUNT as int) =~= acks@);
    }
    n
}

} // verus!
