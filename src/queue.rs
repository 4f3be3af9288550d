use vstd::prelude::*;
use crate::timeout::{Timeout, with_delay};

verus! {

/// Sum of the delays of the first `n` entries of `s`.
pub open spec fn delay_sum<W>(s: Seq<Timeout<W>>, n: int) -> int
    decreases n,
{
    if n <= 0 {
        0
    } else {
        delay_sum(s, n - 1) + s[n - 1].delay
    }
}

/// `s` with every delay lowered by `by` (a new synchronisation instant).
pub open spec fn advance<W>(s: Seq<Timeout<W>>, by: int) -> Seq<Timeout<W>> {
    Seq::new(s.len(), |i: int| with_delay(s[i], (s[i].delay - by) as u64))
}

/// Inserting a timeout due at `d` at index `k` of `s` keeps `s` ordered, and
/// puts it after every entry due no later than `d`.
pub open spec fn insertion_point<W>(s: Seq<Timeout<W>>, d: u64, k: int) -> bool {
    &&& 0 <= k <= s.len()
    &&& forall|i: int| 0 <= i < k ==> s[i].delay <= d
    &&& forall|i: int| k <= i < s.len() ==> s[i].delay > d
}

/// `r` is `s` with `t` inserted at its insertion point.
pub open spec fn is_insertion<W>(s: Seq<Timeout<W>>, t: Timeout<W>, r: Seq<Timeout<W>>) -> bool {
    exists|k: int| insertion_point(s, t.delay, k) && r == s.insert(k, t)
}

/// The pending timeouts, each delay relative to the entry before it (the head's
/// relative to the last synchronisation instant).
pub struct TimeoutQueue<W> {
    entries: Vec<Timeout<W>>,
}

proof fn lemma_sum_monotone<W>(s: Seq<Timeout<W>>, a: int, b: int)
    requires
        0 <= a <= b <= s.len(),
    ensures
        delay_sum(s, a) <= delay_sum(s, b),
    decreases b - a,
{
    if a < b {
        lemma_sum_monotone(s, a, b - 1);
    }
}

proof fn lemma_sum_same_prefix<W>(s: Seq<Timeout<W>>, t: Seq<Timeout<W>>, n: int)
    requires
        0 <= n <= s.len(),
        n <= t.len(),
        forall|i: int| 0 <= i < n ==> s[i].delay == t[i].delay,
    ensures
        delay_sum(s, n) == delay_sum(t, n),
    decreases n,
{
    if n > 0 {
        lemma_sum_same_prefix(s, t, n - 1);
    }
}

/// After the first entry's delay is lowered by `m`, every nonempty prefix sums to `m` less.
proof fn lemma_sum_debit_first<W>(s: Seq<Timeout<W>>, t: Seq<Timeout<W>>, m: int, n: int)
    requires
        1 <= n <= s.len(),
        s.len() == t.len(),
        t[0].delay == s[0].delay - m,
        forall|i: int| 1 <= i < s.len() ==> s[i].delay == t[i].delay,
    ensures
        delay_sum(t, n) == delay_sum(s, n) - m,
    decreases n,
{
    if n > 1 {
        lemma_sum_debit_first(s, t, m, n - 1);
    } else {
        assert(delay_sum(t, 0) == 0 && delay_sum(s, 0) == 0);
    }
}

/// Dropping the first entry lowers every prefix by its delay.
proof fn lemma_sum_drop_first<W>(s: Seq<Timeout<W>>, n: int)
    requires
        0 <= n < s.len(),
    ensures
        delay_sum(s.drop_first(), n) == delay_sum(s, n + 1) - s[0].delay,
    decreases n,
{
    if n > 0 {
        lemma_sum_drop_first(s, n - 1);
        assert(s.drop_first()[n - 1] == s[n]);
    } else {
        assert(delay_sum(s, 1) == delay_sum(s, 0) + s[0].delay);
    }
}

/// Splitting entry `i` in two, `a` then `s[i].delay - a`, moves every later prefix one step on.
proof fn lemma_sum_split<W>(s: Seq<Timeout<W>>, t: Seq<Timeout<W>>, i: int, a: int, n: int)
    requires
        0 <= i < s.len(),
        t.len() == s.len() + 1,
        i + 2 <= n <= t.len(),
        forall|j: int| 0 <= j < i ==> t[j].delay == s[j].delay,
        t[i].delay == a,
        t[i + 1].delay == s[i].delay - a,
        forall|j: int| i + 1 < j < t.len() ==> t[j].delay == s[j - 1].delay,
    ensures
        delay_sum(t, n) == delay_sum(s, n - 1),
    decreases n,
{
    if n > i + 2 {
        lemma_sum_split(s, t, i, a, n - 1);
    } else {
        lemma_sum_same_prefix(s, t, i);
        assert(delay_sum(t, i + 1) == delay_sum(t, i) + a);
        assert(delay_sum(s, i + 1) == delay_sum(s, i) + s[i].delay);
    }
}

impl<W> View for TimeoutQueue<W> {
    type V = Seq<Timeout<W>>;

    /// Each pending timeout with its delay measured from the last
    /// synchronisation instant: the sum of the chain up to and including it.
    closed spec fn view(&self) -> Seq<Timeout<W>> {
        Seq::new(
            self.entries@.len(),
            |i: int| with_delay(self.entries@[i], delay_sum(self.entries@, i + 1) as u64),
        )
    }
}

impl<W> TimeoutQueue<W> {
    /// The chain as stored: each delay relative to the entry before it.
    pub closed spec fn chain(&self) -> Seq<Timeout<W>> {
        self.entries@
    }

    /// Every time-to-fire fits in a `u64`.
    pub closed spec fn wf(&self) -> bool {
        delay_sum(self.entries@, self.entries@.len() as int) <= u64::MAX
    }

    /// Each prefix of the chain sums to the time-to-fire of its last entry,
    /// measured from the last synchronisation instant; nothing else differs.
    pub proof fn lemma_prefix_sums(&self, i: int)
        requires
            self.wf(),
            0 <= i < self@.len(),
        ensures
            self@.len() == self.chain().len(),
            self@[i].delay == delay_sum(self.chain(), i + 1),
            self@[i] == with_delay(self.chain()[i], self@[i].delay),
    {
        self.lemma_view_fits(i);
    }

    /// Timeouts stand in the queue in nondecreasing order of time-to-fire, so
    /// the head is always the next to fire.
    pub proof fn lemma_ordered(&self, i: int, j: int)
        requires
            self.wf(),
            0 <= i <= j < self@.len(),
        ensures
            self@[i].delay <= self@[j].delay,
    {
        self.lemma_view_fits(i);
        self.lemma_view_fits(j);
        lemma_sum_monotone(self.entries@, i + 1, j + 1);
    }

    proof fn lemma_view_fits(&self, i: int)
        requires
            self.wf(),
            0 <= i < self.entries@.len(),
        ensures
            0 <= delay_sum(self.entries@, i + 1) <= u64::MAX,
            self@[i].delay == delay_sum(self.entries@, i + 1),
    {
        lemma_sum_monotone(self.entries@, 0, i + 1);
        lemma_sum_monotone(self.entries@, i + 1, self.entries@.len() as int);
    }

    pub fn new() -> (r: TimeoutQueue<W>)
        ensures
            r.wf(),
            r@ == Seq::<Timeout<W>>::empty(),
    {
        let r = TimeoutQueue { entries: Vec::new() };
        assert(r@ =~= Seq::<Timeout<W>>::empty());
        r
    }

    pub fn len(&self) -> (r: usize)
        ensures
            r == self@.len(),
    {
        self.entries.len()
    }

    pub fn is_empty(&self) -> (r: bool)
        ensures
            r == (self@.len() == 0),
    {
        self.entries.len() == 0
    }

    /// The head's time-to-fire, `None` when nothing is pending.
    pub fn head_delay(&self) -> (r: Option<u64>)
        requires
            self.wf(),
        ensures
            self@.len() == 0 ==> r.is_none(),
            self@.len() > 0 ==> r == Some(self@[0].delay),
    {
        if self.entries.len() == 0 {
            None
        } else {
            proof {
                self.lemma_view_fits(0);
                assert(delay_sum(self.entries@, 0) == 0);
            }
            Some(self.entries[0].delay)
        }
    }

    /// Removes the head, which becomes the new synchronisation instant.
    pub fn pop_front(&mut self) -> (r: Option<Timeout<W>>)
        requires
            old(self).wf(),
        ensures
            final(self).wf(),
            old(self)@.len() == 0 ==> r.is_none() && final(self)@ == old(self)@,
            old(self)@.len() > 0 ==> r == Some(old(self)@[0]) && final(self)@ == advance(
                old(self)@.drop_first(),
                old(self)@[0].delay as int,
            ),
    {
        if self.entries.len() == 0 {
            return None;
        }
        let ghost s = self.entries@;
        proof {
            self.lemma_view_fits(0);
            assert(delay_sum(s, 0) == 0);
        }
        let t = self.entries.remove(0);
        proof {
            assert(self.entries@ =~= s.drop_first());
            let n = self.entries@.len() as int;
            if n > 0 {
                lemma_sum_drop_first(s, n);
            }
            assert forall|i: int| 0 <= i < n implies self@[i] == advance(
                old(self)@.drop_first(),
                old(self)@[0].delay as int,
            )[i] by {
                lemma_sum_drop_first(s, i + 1);
                old(self).lemma_view_fits(i + 1);
            }
            assert(self@ =~= advance(old(self)@.drop_first(), old(self)@[0].delay as int));
            assert(t == old(self)@[0]);
        }
        Some(t)
    }

    /// Debits `elapsed` ticks of waiting from the head, clamped at zero, so the
    /// whole queue is measured from a synchronisation instant that much later.
    pub fn debit(&mut self, elapsed: u64)
        requires
            old(self).wf(),
        ensures
            final(self).wf(),
            final(self)@ == debited(old(self)@, elapsed),
    {
        if self.entries.len() == 0 {
            return;
        }
        let ghost s = self.entries@;
        let head = self.entries[0].delay;
        let m = if elapsed < head { elapsed } else { head };
        self.entries[0].delay = head - m;
        proof {
            let t = self.entries@;
            let n = t.len() as int;
            lemma_sum_debit_first(s, t, m as int, n);
            assert forall|i: int| 0 <= i < n implies self@[i] == debited(old(self)@, elapsed)[i] by {
                lemma_sum_debit_first(s, t, m as int, i + 1);
                old(self).lemma_view_fits(i);
                old(self).lemma_view_fits(0);
                assert(delay_sum(s, 0) == 0);
                lemma_sum_monotone(t, 0, i + 1);
            }
            assert(self@ =~= debited(old(self)@, elapsed));
        }
    }
}

/// `s` after `elapsed` ticks of an interrupted wait on its head: every
/// time-to-fire drops by `elapsed`, or by the head's whole delay if less.
pub open spec fn debited<W>(s: Seq<Timeout<W>>, elapsed: u64) -> Seq<Timeout<W>> {
    if s.len() == 0 {
        s
    } else if elapsed < s[0].delay {
        advance(s, elapsed as int)
    } else {
        advance(s, s[0].delay as int)
    }
}

/// Inserts `new` where its delay (measured from the last synchronisation
/// instant) places it: after every entry due no later, before every entry due
/// later. Entries due at the same time keep their order of arrival.
pub fn timeouts_add_timeout<W>(list: &mut TimeoutQueue<W>, new: Timeout<W>)
    requires
        old(list).wf(),
    ensures
        final(list).wf(),
        is_insertion(old(list)@, new, final(list)@),
{
    let ghost s = list.entries@;
    let ghost d = new.delay;
    let mut entry = new;
    let mut i: usize = 0;
    proof {
        assert(delay_sum(s, 0) == 0);
    }
    while i < list.entries.len()
        invariant
            list.entries@ == s,
            s == old(list).entries@,
            old(list).wf(),
            0 <= i <= s.len(),
            entry == with_delay(new, entry.delay),
            new.delay == d,
            entry.delay == d - delay_sum(s, i as int),
        decreases s.len() - i,
    {
        let cur = list.entries[i].delay;
        if cur > entry.delay {
            let ghost a = entry.delay;
            list.entries[i].delay = cur - entry.delay;
            list.entries.insert(i, entry);
            proof {
                let t = list.entries@;
                let n = s.len() as int;
                lemma_sum_split(s, t, i as int, a as int, n + 1);
                lemma_sum_same_prefix(s, t, i as int);
                assert forall|j: int| 0 <= j <= n implies list@[j] == old(list)@.insert(
                    i as int,
                    new,
                )[j] by {
                    if j < i {
                        lemma_sum_same_prefix(s, t, j + 1);
                        old(list).lemma_view_fits(j);
                    } else if j == i {
                        assert(delay_sum(t, j + 1) == delay_sum(t, j) + a);
                    } else {
                        lemma_sum_split(s, t, i as int, a as int, j + 1);
                        old(list).lemma_view_fits(j - 1);
                    }
                }
                assert(list@ =~= old(list)@.insert(i as int, new));
                assert forall|j: int| 0 <= j < i implies old(list)@[j].delay <= d by {
                    old(list).lemma_view_fits(j);
                    lemma_sum_monotone(s, j + 1, i as int);
                }
                assert forall|j: int| i <= j < n implies old(list)@[j].delay > d by {
                    old(list).lemma_view_fits(j);
                    lemma_sum_monotone(s, i + 1, j + 1);
                }
                assert(insertion_point(old(list)@, d, i as int));
                assert(is_insertion(old(list)@, new, list@));
            }
            return;
        }
        entry.delay = entry.delay - cur;
        i = i + 1;
    }
    let ghost a = entry.delay;
    list.entries.push(entry);
    proof {
        let t = list.entries@;
        let n = s.len() as int;
        lemma_sum_same_prefix(s, t, n);
        assert(delay_sum(t, n + 1) == delay_sum(t, n) + a);
        assert forall|j: int| 0 <= j <= n implies list@[j] == old(list)@.insert(n, new)[j] by {
            if j < n {
                lemma_sum_same_prefix(s, t, j + 1);
                old(list).lemma_view_fits(j);
            }
        }
        assert(list@ =~= old(list)@.insert(n, new));
        assert forall|j: int| 0 <= j < n implies old(list)@[j].delay <= d by {
            old(list).lemma_view_fits(j);
            lemma_sum_monotone(s, j + 1, n);
        }
        assert(insertion_point(old(list)@, d, n));
    }
}

} // verus!
