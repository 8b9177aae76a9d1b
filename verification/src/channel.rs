//! Bounded single-producer / single-consumer channel.
//!
//! A ring of `N` slots; one slot is kept free to tell "full" from "empty",
//! so at most `N - 1` items are in flight. Items come out in the order they
//! went in.
use vstd::prelude::*;

verus! {

/// Bounded channel of `N` slots (`N - 1` usable).
pub struct Channel<T, const N: usize> {
    buf: Vec<Option<T>>,
    head: usize,
    tail: usize,
}

/// Number of items between read index `tail` and write index `head` in a
/// ring of `n` slots.
pub open spec fn ring_len(head: int, tail: int, n: int) -> int {
    if head >= tail { head - tail } else { head + n - tail }
}

/// Index `i < 2n` brought back into the ring of `n` slots.
pub open spec fn ring_wrap(i: int, n: int) -> int {
    if i < n { i } else { i - n }
}

/// The slot after `i` in a ring of `n` slots.
fn ring_next(i: usize, n: usize) -> (r: usize)
    requires
        i < n,
    ensures
        r == ring_wrap(i + 1, n as int),
{
    if i + 1 == n { 0 } else { i + 1 }
}

impl<T, const N: usize> View for Channel<T, N> {
    type V = Seq<T>;

    /// The items in flight, oldest first.
    closed spec fn view(&self) -> Seq<T> {
        Seq::new(
            ring_len(self.head as int, self.tail as int, N as int) as nat,
            |k: int| self.buf@[ring_wrap(self.tail as int + k, N as int)]->0,
        )
    }
}

impl<T, const N: usize> Channel<T, N> {
    /// Ring indices are in range and exactly the in-flight slots are full.
    pub closed spec fn wf(&self) -> bool {
        &&& self.buf@.len() == N
        &&& (N == 0 ==> self.head == 0 && self.tail == 0)
        &&& (N > 0 ==> self.head < N && self.tail < N)
        &&& forall|i: int| 0 <= i < N ==> (#[trigger] self.buf@[i] is Some <==> (
            (self.tail <= self.head && self.tail <= i < self.head) || (self.head < self.tail && (i >= self.tail || i < self.head))))
    }

    /// Law: at most `N - 1` items are ever in flight.
    pub proof fn lemma_len_bound(&self)
        requires
            self.wf(),
            N > 0,
        ensures
            self@.len() + 1 <= N,
    {
    }

    /// An empty channel.
    pub fn new() -> (r: Self)
        ensures
            r.wf(),
            r@ == Seq::<T>::empty(),
    {
        let mut buf: Vec<Option<T>> = Vec::new();
        let mut i: usize = 0;
        while i < N
            invariant
                i <= N,
                buf@.len() == i,
                forall|j: int| 0 <= j < i ==> #[trigger] buf@[j] is None,
            decreases N - i,
        {
            buf.push(None);
            i = i + 1;
        }
        let r = Channel { buf, head: 0, tail: 0 };
        assert(r@ =~= Seq::<T>::empty());
        r
    }

    /// Usable capacity (items that fit at once): `N - 1`, none when `N` is 0.
    pub fn capacity(&self) -> (r: usize)
        ensures
            r == if N == 0 { 0 } else { N - 1 },
    {
        if N == 0 { 0 } else { N - 1 }
    }

    /// Queues `val`; gives it back in `Err` when the channel is full.
    pub fn try_send(&mut self, val: T) -> (r: Result<(), T>)
        requires
            old(self).wf(),
        ensures
            final(self).wf(),
            old(self)@.len() + 1 < N ==> r is Ok && final(self)@ == old(self)@.push(val),
            old(self)@.len() + 1 >= N ==> r == Err::<(), T>(val) && final(self)@ == old(self)@,
            (final(self)@, r is Ok) == chan_step(old(self)@, ChanOp::Send(val), N as int),
    {
        if N == 0 {
            return Err(val);
        }
        let head = self.head;
        let next = ring_next(head, N);
        if next == self.tail {
            return Err(val);
        }
        let ghost old_view = self@;
        self.buf.set(head, Some(val));
        self.head = next;
        proof {
            assert(self@ =~= old_view.push(val)) by {
                assert forall|k: int| 0 <= k < self@.len() implies self@[k] == old_view.push(val)[k] by {
                    let pos = ring_wrap(self.tail as int + k, N as int);
                    if k < old_view.len() {
                        assert(pos != head as int);
                    } else {
                        assert(pos == head as int);
                    }
                }
            }
        }
        Ok(())
    }

    /// Takes the oldest item, or `None` when the channel is empty.
    pub fn try_recv(&mut self) -> (r: Option<T>)
        requires
            old(self).wf(),
        ensures
            final(self).wf(),
            old(self)@.len() == 0 ==> r is None && final(self)@ == old(self)@,
            old(self)@.len() > 0 ==> r == Some(old(self)@[0]) && final(self)@ == old(self)@.drop_first(),
            (final(self)@, r is Some) == chan_step(old(self)@, ChanOp::Recv, N as int),
    {
        if N == 0 {
            return None;
        }
        let tail = self.tail;
        if tail == self.head {
            return None;
        }
        let ghost old_view = self@;
        let v = self.buf[tail].take();
        self.tail = ring_next(tail, N);
        proof {
            assert(self@ =~= old_view.drop_first()) by {
                assert forall|k: int| 0 <= k < self@.len() implies self@[k] == old_view.drop_first()[k] by {
                    assert(ring_wrap(self.tail as int + k, N as int) == ring_wrap(tail as int + (k + 1), N as int));
                }
            }
        }
        v
    }

    /// `true` when nothing is in flight.
    pub fn is_empty(&self) -> (r: bool)
        requires
            self.wf(),
        ensures
            r == (self@.len() == 0),
    {
        self.head == self.tail
    }

    /// `true` when no more items fit.
    pub fn is_full(&self) -> (r: bool)
        requires
            self.wf(),
        ensures
            r == (self@.len() + 1 >= N),
            N > 0 ==> r == (self@.len() == N - 1),
    {
        if N == 0 {
            return true;
        }
        proof {
            self.lemma_len_bound();
        }
        ring_next(self.head, N) == self.tail
    }

    /// Number of items in flight.
    pub fn len(&self) -> (r: usize)
        requires
            self.wf(),
        ensures
            r == self@.len(),
            N > 0 ==> r + 1 <= N,
    {
        if N == 0 {
            return 0;
        }
        proof {
            self.lemma_len_bound();
        }
        if self.head >= self.tail {
            self.head - self.tail
        } else {
            self.head + (N - self.tail)
        }
    }
}

/// One call on a channel: a send of an item, or a receive.
pub ghost enum ChanOp<T> {
    /// [`Channel::try_send`] of the item.
    Send(T),
    /// [`Channel::try_recv`].
    Recv,
}

/// What one call does to a channel of `n` slots holding `q`: what it holds
/// then, and whether an item went in (send) or came out (receive).
pub open spec fn chan_step<T>(q: Seq<T>, op: ChanOp<T>, n: int) -> (Seq<T>, bool) {
    match op {
        ChanOp::Send(v) => if q.len() + 1 < n { (q.push(v), true) } else { (q, false) },
        ChanOp::Recv => if q.len() > 0 { (q.drop_first(), true) } else { (q, false) },
    }
}

/// What a channel of `n` slots holds after the calls `ops`, in order, from
/// empty (as [`Channel::new`] makes it).
pub open spec fn chan_replay<T>(ops: Seq<ChanOp<T>>, n: int) -> Seq<T>
    decreases ops.len(),
{
    if ops.len() == 0 {
        Seq::empty()
    } else {
        chan_step(chan_replay(ops.drop_last(), n), ops.last(), n).0
    }
}

/// Among the calls `ops` from empty: (sends that were accepted, receives
/// that returned an item).
pub open spec fn chan_moves<T>(ops: Seq<ChanOp<T>>, n: int) -> (nat, nat)
    decreases ops.len(),
{
    if ops.len() == 0 {
        (0, 0)
    } else {
        let prev = chan_moves(ops.drop_last(), n);
        let moved = chan_step(chan_replay(ops.drop_last(), n), ops.last(), n).1;
        match ops.last() {
            ChanOp::Send(_) => (prev.0 + if moved { 1nat } else { 0nat }, prev.1),
            ChanOp::Recv => (prev.0, prev.1 + if moved { 1nat } else { 0nat }),
        }
    }
}

/// Law (count over any history): after any interleaving of sends and
/// receives since the channel was made, the number in flight is the number
/// of accepted sends minus the number of receives that returned an item,
/// and never more than `n - 1`; with fewer than 2 slots nothing is ever
/// accepted.
pub proof fn lemma_history<T>(ops: Seq<ChanOp<T>>, n: int)
    ensures
        chan_replay(ops, n).len() == chan_moves(ops, n).0 - chan_moves(ops, n).1,
        n >= 1 ==> chan_replay(ops, n).len() + 1 <= n,
        n < 2 ==> chan_moves(ops, n).0 == 0,
    decreases ops.len(),
{
    if ops.len() > 0 {
        lemma_history(ops.drop_last(), n);
    }
}

/// What `k` receives in a row give from a channel holding `q` (each as
/// [`Channel::try_recv`] states it), and what the channel holds then.
pub open spec fn recv_run<T>(q: Seq<T>, k: nat) -> (Seq<Option<T>>, Seq<T>)
    decreases k,
{
    if k == 0 {
        (Seq::empty(), q)
    } else {
        let prev = recv_run(q, (k - 1) as nat);
        if prev.1.len() == 0 {
            (prev.0.push(None), prev.1)
        } else {
            (prev.0.push(Some(prev.1[0])), prev.1.drop_first())
        }
    }
}

/// Which of the sends of `vs`, in order, into a channel of `n` slots
/// holding `q` succeed (each as [`Channel::try_send`] states it), and what
/// the channel holds then.
pub open spec fn send_run<T>(q: Seq<T>, vs: Seq<T>, n: int) -> (Seq<bool>, Seq<T>)
    decreases vs.len(),
{
    if vs.len() == 0 {
        (Seq::empty(), q)
    } else {
        let prev = send_run(q, vs.drop_last(), n);
        if prev.1.len() + 1 < n {
            (prev.0.push(true), prev.1.push(vs.last()))
        } else {
            (prev.0.push(false), prev.1)
        }
    }
}

/// Number of `true` in `s`.
pub open spec fn count_true(s: Seq<bool>) -> nat
    decreases s.len(),
{
    if s.len() == 0 {
        0
    } else {
        count_true(s.drop_last()) + if s.last() { 1nat } else { 0nat }
    }
}

/// Number of `Some` in `s`.
pub open spec fn count_some<T>(s: Seq<Option<T>>) -> nat
    decreases s.len(),
{
    if s.len() == 0 {
        0
    } else {
        count_some(s.drop_last()) + if s.last() is Some { 1nat } else { 0nat }
    }
}

/// Law (first in, first out): into an empty channel of `n` slots, up to
/// `n - 1` sends all succeed; receiving once more than was sent then gives
/// the items back in the order they were sent, then `None`, and leaves the
/// channel empty.
pub proof fn lemma_fifo<T>(vs: Seq<T>, n: int)
    requires
        vs.len() + 1 <= n,
    ensures
        send_run(Seq::<T>::empty(), vs, n) == (Seq::new(vs.len(), |i: int| true), vs),
        recv_run(vs, vs.len() + 1) == (Seq::new(vs.len(), |i: int| Some(vs[i])).push(None), Seq::<T>::empty()),
{
    lemma_sends_fit(vs, n);
    lemma_recv_prefix(vs, vs.len());
    let r = recv_run(vs, vs.len());
    assert(r.1 =~= Seq::<T>::empty());
    assert(recv_run(vs, vs.len() + 1).0 =~= Seq::new(vs.len(), |i: int| Some(vs[i])).push(None));
}

proof fn lemma_sends_fit<T>(vs: Seq<T>, n: int)
    requires
        vs.len() + 1 <= n,
    ensures
        send_run(Seq::<T>::empty(), vs, n) == (Seq::new(vs.len(), |i: int| true), vs),
    decreases vs.len(),
{
    if vs.len() > 0 {
        lemma_sends_fit(vs.drop_last(), n);
        assert(vs.drop_last().push(vs.last()) =~= vs);
        assert(Seq::new((vs.len() - 1) as nat, |i: int| true).push(true) =~= Seq::new(vs.len(), |i: int| true));
    }
}

/// After `k <= q.len()` receives, the first `k` items came out in order and
/// the rest stays.
proof fn lemma_recv_prefix<T>(q: Seq<T>, k: nat)
    requires
        k <= q.len(),
    ensures
        recv_run(q, k) == (Seq::new(k, |i: int| Some(q[i])), q.subrange(k as int, q.len() as int)),
    decreases k,
{
    if k > 0 {
        lemma_recv_prefix(q, (k - 1) as nat);
        let prev = recv_run(q, (k - 1) as nat);
        assert(prev.1[0] == q[k - 1]);
        assert(prev.1.drop_first() =~= q.subrange(k as int, q.len() as int));
        assert(prev.0.push(Some(q[k - 1])) =~= Seq::new(k, |i: int| Some(q[i])));
    } else {
        assert(q.subrange(0, q.len() as int) =~= q);
        assert(Seq::new(0, |i: int| Some(q[i])) =~= Seq::<Option<T>>::empty());
    }
}

/// Law (count): sends add the items that were accepted and receives take
/// out the items they return, so the number in flight is the number held
/// before, plus the successful sends, minus the receives that returned an
/// item.
pub proof fn lemma_run_counts<T>(q: Seq<T>, vs: Seq<T>, n: int, k: nat)
    ensures
        send_run(q, vs, n).1.len() == q.len() + count_true(send_run(q, vs, n).0),
        recv_run(q, k).1.len() + count_some(recv_run(q, k).0) == q.len(),
    decreases vs.len() + k,
{
    if vs.len() > 0 {
        lemma_run_counts(q, vs.drop_last(), n, 0);
        let prev = send_run(q, vs.drop_last(), n);
        let cur = send_run(q, vs, n);
        assert(cur.0.drop_last() =~= prev.0);
    }
    if k > 0 {
        lemma_run_counts(q, Seq::<T>::empty(), n, (k - 1) as nat);
        let cur = recv_run(q, k);
        let prev = recv_run(q, (k - 1) as nat);
        assert(cur.0.drop_last() =~= prev.0);
    }
}

} // verus!
