use vstd::prelude::*;
use crate::timeout::{Timeout, with_delay};
use crate::queue::{TimeoutQueue, advance, debited, insertion_point, is_insertion, timeouts_add_timeout};

verus! {

/// What the timekeeper does next while no submission arrives.
#[derive(Debug, Clone, Copy, PartialEq, Eq, Structural)]
pub enum Wait {
    /// Nothing is pending: block until a submission arrives.
    Indefinitely,
    /// Wait this many ticks for a submission; if none comes, the head expires.
    Ticks(u64),
}

/// The decisions of the single thread that owns the timeout queue.
///
/// The thread around it waits as [`Timekeeper::wait`] says, then reports
/// either an arrival ([`Timekeeper::on_arrival`], with the ticks it waited) or
/// an expiry ([`Timekeeper::on_expiry`], which hands out the work to dispatch).
pub struct Timekeeper<W> {
    queue: TimeoutQueue<W>,
}

impl<W> View for Timekeeper<W> {
    type V = Seq<Timeout<W>>;

    /// The pending timeouts, each with its time-to-fire.
    closed spec fn view(&self) -> Seq<Timeout<W>> {
        self.queue@
    }
}

impl<W> Timekeeper<W> {
    pub closed spec fn wf(&self) -> bool {
        self.queue.wf()
    }

    /// The pending timeouts are in nondecreasing order of time-to-fire.
    pub proof fn lemma_ordered(&self, i: int, j: int)
        requires
            self.wf(),
            0 <= i <= j < self@.len(),
        ensures
            self@[i].delay <= self@[j].delay,
    {
        self.queue.lemma_ordered(i, j);
    }

    /// An idle timekeeper: nothing pending.
    pub fn new() -> (r: Timekeeper<W>)
        ensures
            r.wf(),
            r@ == Seq::<Timeout<W>>::empty(),
    {
        Timekeeper { queue: TimeoutQueue::new() }
    }

    /// How long to wait next: indefinitely when idle, else the head's time-to-fire.
    pub fn wait(&self) -> (r: Wait)
        requires
            self.wf(),
        ensures
            self@.len() == 0 ==> r == Wait::Indefinitely,
            self@.len() > 0 ==> r == Wait::Ticks(self@[0].delay),
    {
        match self.queue.head_delay() {
            None => Wait::Indefinitely,
            Some(d) => Wait::Ticks(d),
        }
    }

    /// A submission `t` arrived `elapsed` ticks into the current wait: the
    /// head keeps the progress it made, then `t` is inserted in order.
    pub fn on_arrival(&mut self, t: Timeout<W>, elapsed: u64)
        requires
            old(self).wf(),
        ensures
            final(self).wf(),
            is_insertion(debited(old(self)@, elapsed), t, final(self)@),
    {
        self.queue.debit(elapsed);
        timeouts_add_timeout(&mut self.queue, t);
    }

    /// The wait ran out with no arrival: the head expires and is handed out
    /// for dispatch; the rest is measured from its expiry.
    pub fn on_expiry(&mut self) -> (r: Option<Timeout<W>>)
        requires
            old(self).wf(),
        ensures
            final(self).wf(),
            old(self)@.len() == 0 ==> r.is_none() && final(self)@ == old(self)@,
            old(self)@.len() > 0 ==> r == Some(old(self)@[0]) && final(self)@ == advance(
                old(self)@.drop_first(),
                old(self)@[0].delay as int,
            ),
    {
        self.queue.pop_front()
    }
}

/// What is left of a wait of `d` ticks after `elapsed` of them: never below zero.
pub open spec fn left_after(d: u64, elapsed: u64) -> u64 {
    if elapsed < d {
        (d - elapsed) as u64
    } else {
        0
    }
}

/// A submission arriving `elapsed` ticks into the wait on head `s[0]` leaves
/// that head with `max(0, delay - elapsed)` ticks to go, not its full delay:
/// the newcomer goes first only if it is due sooner than that.
pub proof fn lemma_interrupted_wait_keeps_progress<W>(
    s: Seq<Timeout<W>>,
    elapsed: u64,
    t: Timeout<W>,
    r: Seq<Timeout<W>>,
)
    requires
        s.len() > 0,
        is_insertion(debited(s, elapsed), t, r),
    ensures
        t.delay < left_after(s[0].delay, elapsed) ==> r[0] == t && r[1] == with_delay(
            s[0],
            left_after(s[0].delay, elapsed),
        ),
        t.delay >= left_after(s[0].delay, elapsed) ==> r[0] == with_delay(
            s[0],
            left_after(s[0].delay, elapsed),
        ),
{
    let q = debited(s, elapsed);
    let k = choose|k: int| insertion_point(q, t.delay, k) && r == q.insert(k, t);
    assert(q[0] == with_delay(s[0], left_after(s[0].delay, elapsed)));
    if t.delay < left_after(s[0].delay, elapsed) {
        assert(k == 0);
        assert(r[1] == q[0]);
    } else {
        assert(k >= 1);
        assert(r[0] == q[0]);
    }
}

/// Two submissions with the same delay, the second arriving `elapsed` ticks
/// after the first, stand in the queue (and so fire) in the order they came.
pub proof fn lemma_equal_delays_keep_arrival_order<W>(
    s: Seq<Timeout<W>>,
    e1: u64,
    a: Timeout<W>,
    r1: Seq<Timeout<W>>,
    e2: u64,
    b: Timeout<W>,
    r2: Seq<Timeout<W>>,
)
    requires
        a.delay == b.delay,
        is_insertion(debited(s, e1), a, r1),
        is_insertion(debited(r1, e2), b, r2),
    ensures
        exists|i: int, j: int|
            0 <= i < j < r2.len() && r2[i] == with_delay(a, r2[i].delay) && r2[j] == b,
{
    let q1 = debited(s, e1);
    let k1 = choose|k: int| insertion_point(q1, a.delay, k) && r1 == q1.insert(k, a);
    let q2 = debited(r1, e2);
    let k2 = choose|k: int| insertion_point(q2, b.delay, k) && r2 == q2.insert(k, b);
    assert(r1[k1] == a);
    assert(q2[k1].delay <= a.delay);
    assert(k1 < k2);
    assert(r2[k1] == q2[k1]);
    assert(r2[k2] == b);
    assert(r2[k1] == with_delay(a, r2[k1].delay));
}

} // verus!
