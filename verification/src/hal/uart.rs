//! Receive ring filled by the serial interrupt and drained by the driver.
use vstd::prelude::*;

verus! {

/// Slots of the receive ring (one is kept free).
pub const RX_BUF_LEN: usize = 256;

/// Receive ring of a serial port, with its overrun counter.
pub struct RxRing {
    buf: Vec<u8>,
    head: usize,
    tail: usize,
    overruns: usize,
}

/// Index after `i` in the ring.
pub open spec fn next_slot(i: int) -> int {
    if i + 1 == RX_BUF_LEN { 0 } else { i + 1 }
}

impl View for RxRing {
    type V = (Seq<u8>, usize);

    /// The bytes waiting, oldest first, and the overruns counted.
    closed spec fn view(&self) -> (Seq<u8>, usize) {
        let len = if self.head >= self.tail { self.head - self.tail } else { self.head + RX_BUF_LEN - self.tail };
        (
            Seq::new(len as nat, |k: int| self.buf@[if self.tail + k < RX_BUF_LEN { self.tail + k } else { self.tail + k - RX_BUF_LEN }]),
            self.overruns,
        )
    }
}

impl RxRing {
    /// Ring indices are in range.
    pub closed spec fn wf(&self) -> bool {
        self.buf@.len() == RX_BUF_LEN && self.head < RX_BUF_LEN && self.tail < RX_BUF_LEN
    }

    /// An empty ring.
    pub fn new() -> (r: Self)
        ensures
            r.wf(),
            r@ == (Seq::<u8>::empty(), 0usize),
    {
        let mut buf: Vec<u8> = Vec::new();
        let mut i: usize = 0;
        while i < RX_BUF_LEN
            invariant
                i <= RX_BUF_LEN,
                buf@.len() == i,
            decreases RX_BUF_LEN - i,
        {
            buf.push(0);
            i = i + 1;
        }
        let r = RxRing { buf, head: 0, tail: 0, overruns: 0 };
        assert(r@.0 =~= Seq::<u8>::empty());
        r
    }

    /// Stores a received byte; counts an overrun (and drops the byte) when
    /// the ring is full.
    pub fn push(&mut self, b: u8)
        requires
            old(self).wf(),
        ensures
            final(self).wf(),
            old(self)@.0.len() + 1 < RX_BUF_LEN ==> final(self)@ == (old(self)@.0.push(b), old(self)@.1),
            old(self)@.0.len() + 1 >= RX_BUF_LEN ==> final(self)@ == (old(self)@.0, old(self)@.1.wrapping_add(1)),
    {
        let head = self.head;
        let next = if head + 1 == RX_BUF_LEN { 0 } else { head + 1 };
        if next == self.tail {
            self.overruns = self.overruns.wrapping_add(1);
            return;
        }
        let ghost old_q = self@.0;
        self.buf.set(head, b);
        self.head = next;
        proof {
            assert(self@.0 =~= old_q.push(b)) by {
                assert forall|k: int| 0 <= k < self@.0.len() implies self@.0[k] == old_q.push(b)[k] by {
                    let t = self.tail as int;
                    let pos = if t + k < RX_BUF_LEN { t + k } else { t + k - RX_BUF_LEN };
                    if k < old_q.len() {
                        assert(pos != head as int);
                    }
                }
            }
        }
    }

    /// Counts an overrun reported by the hardware.
    pub fn count_overrun(&mut self)
        requires
            old(self).wf(),
        ensures
            final(self).wf(),
            final(self)@ == (old(self)@.0, old(self)@.1.wrapping_add(1)),
    {
        self.overruns = self.overruns.wrapping_add(1);
    }

    /// Takes the oldest byte, if any.
    pub fn pop(&mut self) -> (r: Option<u8>)
        requires
            old(self).wf(),
        ensures
            final(self).wf(),
            old(self)@.0.len() == 0 ==> r is None && final(self)@ == old(self)@,
            old(self)@.0.len() > 0 ==> r == Some(old(self)@.0[0]) && final(self)@ == (old(self)@.0.drop_first(), old(self)@.1),
    {
        let tail = self.tail;
        if tail == self.head {
            return None;
        }
        let ghost old_q = self@.0;
        let b = self.buf[tail];
        self.tail = if tail + 1 == RX_BUF_LEN { 0 } else { tail + 1 };
        proof {
            assert(self@.0 =~= old_q.drop_first());
        }
        Some(b)
    }

    /// Overruns counted (hardware overruns and bytes dropped).
    pub fn rx_overruns(&self) -> (r: usize)
        ensures
            r == self@.1,
    {
        self.overruns
    }
}

} // verus!
