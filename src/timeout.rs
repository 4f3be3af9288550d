use vstd::prelude::*;

verus! {

/// One pending request to run `work` once `delay` ticks have passed.
///
/// While the timeout sits in a queue, `delay` is relative to the entry
/// before it; `initial_delay` and `expected_trigger` are kept for drift
/// diagnostics only.
pub struct Timeout<W> {
    pub work: W,
    pub delay: u64,
    pub initial_delay: u64,
    pub expected_trigger: u64,
}

/// How far from its expected expiry a timeout was dispatched.
#[derive(Debug, Clone, Copy, PartialEq, Eq, Structural)]
pub enum Drift {
    /// Dispatched this many ticks before the expected expiry.
    Early(u64),
    /// Dispatched this many ticks after (or exactly at) the expected expiry.
    Late(u64),
}

/// `t` with its delay replaced by `d`, every other field kept.
pub open spec fn with_delay<W>(t: Timeout<W>, d: u64) -> Timeout<W> {
    Timeout {
        work: t.work,
        delay: d,
        initial_delay: t.initial_delay,
        expected_trigger: t.expected_trigger,
    }
}

impl<W> Timeout<W> {
    /// A timeout created at tick `now`, due `delay` ticks later.
    pub fn new(work: W, delay: u64, now: u64) -> (r: Timeout<W>)
        requires
            now + delay <= u64::MAX,
        ensures
            r.work == work,
            r.delay == delay,
            r.initial_delay == delay,
            r.expected_trigger == now + delay,
    {
        Timeout { work, delay, initial_delay: delay, expected_trigger: now + delay }
    }

    /// The drift of dispatching this timeout at tick `actual`.
    pub fn drift(&self, actual: u64) -> (r: Drift)
        ensures
            actual < self.expected_trigger ==> r == Drift::Early(
                (self.expected_trigger - actual) as u64,
            ),
            actual >= self.expected_trigger ==> r == Drift::Late(
                (actual - self.expected_trigger) as u64,
            ),
    {
        if actual < self.expected_trigger {
            Drift::Early(self.expected_trigger - actual)
        } else {
            Drift::Late(actual - self.expected_trigger)
        }
    }
}

} // verus!
