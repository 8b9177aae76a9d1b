//! Searching byte strings.
use vstd::prelude::*;

verus! {

/// `n` occurs in `h` at `i`.
pub open spec fn occurs_at(h: Seq<u8>, n: Seq<u8>, i: int) -> bool {
    0 <= i && i + n.len() <= h.len() && h.subrange(i, i + n.len()) == n
}

/// `n` occurs somewhere in `h`.
pub open spec fn contains_bytes(h: Seq<u8>, n: Seq<u8>) -> bool {
    exists|i: int| occurs_at(h, n, i)
}

/// Index of the first occurrence of `needle` in `hay`.
pub fn find_bytes(hay: &[u8], needle: &[u8]) -> (r: Option<usize>)
    ensures
        r matches Some(i) ==> occurs_at(hay@, needle@, i as int) && forall|j: int| 0 <= j < i ==> !occurs_at(hay@, needle@, j),
        r is None ==> !contains_bytes(hay@, needle@),
{
    let hl = hay.len();
    if needle.len() > hl {
        proof {
            assert forall|j: int| !occurs_at(hay@, needle@, j) by {}
        }
        return None;
    }
    if needle.len() == 0 {
        assert(hay@.subrange(0, 0) =~= needle@);
        return Some(0);
    }
    let last = hay.len() - needle.len();
    let mut i: usize = 0;
    while i <= last
        invariant
            last == hay@.len() - needle@.len(),
            hl == hay@.len(),
            needle@.len() > 0,
            i <= last + 1,
            forall|j: int| 0 <= j < i ==> !occurs_at(hay@, needle@, j),
        decreases last + 1 - i,
    {
        let mut k: usize = 0;
        let mut same = true;
        while k < needle.len()
            invariant
                i <= last,
                last == hay@.len() - needle@.len(),
                i + needle@.len() <= hay@.len(),
                hl == hay@.len(),
                k <= needle@.len(),
                same == (forall|m: int| 0 <= m < k ==> hay@[i + m] == needle@[m]),
            decreases needle@.len() - k,
        {
            if hay[i + k] != needle[k] {
                same = false;
            }
            k = k + 1;
        }
        if same {
            assert(hay@.subrange(i as int, i + needle@.len()) =~= needle@);
            return Some(i);
        }
        proof {
            if occurs_at(hay@, needle@, i as int) {
                let m = choose|m: int| 0 <= m < needle@.len() && hay@[i + m] != needle@[m];
                assert(hay@.subrange(i as int, i + needle@.len())[m] == hay@[i + m]);
            }
        }
        i = i + 1;
    }
    None
}

} // verus!
