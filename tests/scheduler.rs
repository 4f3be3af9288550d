use timekeeper::keeper::{Timekeeper, Wait};
use timekeeper::queue::{timeouts_add_timeout, TimeoutQueue};
use timekeeper::timeout::{Drift, Timeout};

fn ticks(k: &Timekeeper<char>) -> u64 {
    match k.wait() {
        Wait::Ticks(t) => t,
        Wait::Indefinitely => panic!("expected a pending timeout"),
    }
}

/// Runs the keeper with no more arrivals, returning (work, absolute tick) in dispatch order.
fn drain(k: &mut Timekeeper<char>, mut now: u64) -> Vec<(char, u64)> {
    let mut out = Vec::new();
    while let Wait::Ticks(t) = k.wait() {
        now += t;
        let fired = k.on_expiry().unwrap();
        out.push((fired.work, now));
    }
    out
}

fn delays(q: &mut TimeoutQueue<char>) -> Vec<(char, u64)> {
    let mut out = Vec::new();
    while let Some(t) = q.pop_front() {
        out.push((t.work, t.delay));
    }
    out
}

#[test]
fn new_timeout_records_diagnostics() {
    let t = Timeout::new('a', 100, 1_000);
    assert_eq!(t.delay, 100);
    assert_eq!(t.initial_delay, 100);
    assert_eq!(t.expected_trigger, 1_100);
}

#[test]
fn drift_early_and_late() {
    let t = Timeout::new('a', 100, 1_000);
    assert_eq!(t.drift(1_090), Drift::Early(10));
    assert_eq!(t.drift(1_100), Drift::Late(0));
    assert_eq!(t.drift(1_107), Drift::Late(7));
}

#[test]
fn insert_into_empty_queue() {
    let mut q = TimeoutQueue::new();
    assert!(q.is_empty());
    timeouts_add_timeout(&mut q, Timeout::new('a', 100, 0));
    assert_eq!(q.len(), 1);
    assert_eq!(q.head_delay(), Some(100));
    assert_eq!(delays(&mut q), vec![('a', 100)]);
}

#[test]
fn insert_keeps_relative_chain() {
    // The chain stores each delay relative to the entry before it.
    let mut q = TimeoutQueue::new();
    timeouts_add_timeout(&mut q, Timeout::new('a', 200, 0));
    timeouts_add_timeout(&mut q, Timeout::new('b', 50, 0));
    timeouts_add_timeout(&mut q, Timeout::new('c', 100, 0));
    assert_eq!(q.head_delay(), Some(50));
    // Popping moves the synchronisation instant to each expiry in turn.
    assert_eq!(delays(&mut q), vec![('b', 50), ('c', 50), ('a', 100)]);
}

#[test]
fn insert_splits_later_entry() {
    let mut q = TimeoutQueue::new();
    timeouts_add_timeout(&mut q, Timeout::new('a', 30, 0));
    timeouts_add_timeout(&mut q, Timeout::new('b', 90, 0));
    timeouts_add_timeout(&mut q, Timeout::new('c', 60, 0));
    assert_eq!(delays(&mut q), vec![('a', 30), ('c', 30), ('b', 30)]);
}

#[test]
fn equal_delays_fire_in_submission_order() {
    let mut k = Timekeeper::new();
    k.on_arrival(Timeout::new('x', 70, 0), 0);
    k.on_arrival(Timeout::new('y', 70, 0), 0);
    k.on_arrival(Timeout::new('z', 70, 0), 0);
    assert_eq!(drain(&mut k, 0), vec![('x', 70), ('y', 70), ('z', 70)]);
}

#[test]
fn zero_delay_goes_first() {
    let mut k = Timekeeper::new();
    k.on_arrival(Timeout::new('a', 40, 0), 0);
    k.on_arrival(Timeout::new('b', 0, 0), 0);
    assert_eq!(ticks(&k), 0);
    assert_eq!(drain(&mut k, 0), vec![('b', 0), ('a', 40)]);
}

#[test]
fn largest_delay_is_kept() {
    let mut k = Timekeeper::new();
    k.on_arrival(Timeout::new('a', u64::MAX, 0), 0);
    k.on_arrival(Timeout::new('b', 5, 0), 0);
    assert_eq!(drain(&mut k, 0), vec![('b', 5), ('a', u64::MAX)]);
}

#[test]
fn dispatch_order_is_nondecreasing() {
    let mut k = Timekeeper::new();
    let delays = [120u64, 15, 300, 15, 77, 0, 250, 77];
    let names = ['a', 'b', 'c', 'd', 'e', 'f', 'g', 'h'];
    for i in 0..delays.len() {
        k.on_arrival(Timeout::new(names[i], delays[i], 0), 0);
    }
    let fired = drain(&mut k, 0);
    assert_eq!(fired.len(), delays.len());
    for w in fired.windows(2) {
        assert!(w[0].1 <= w[1].1);
    }
    assert_eq!(
        fired.iter().map(|f| f.0).collect::<Vec<_>>(),
        vec!['f', 'b', 'd', 'e', 'h', 'a', 'g', 'c']
    );
}

#[test]
fn interrupted_wait_debits_elapsed() {
    let mut k = Timekeeper::new();
    k.on_arrival(Timeout::new('a', 200, 0), 0);
    k.on_arrival(Timeout::new('b', 20, 10), 10);
    assert_eq!(ticks(&k), 20);
    let b = k.on_expiry().unwrap();
    assert_eq!(b.work, 'b');
    // The first timeout has 200 - 10 - 20 left, not a fresh 200.
    assert_eq!(ticks(&k), 170);
}

#[test]
fn interrupted_wait_clamps_at_zero() {
    let mut k = Timekeeper::new();
    k.on_arrival(Timeout::new('a', 50, 0), 0);
    k.on_arrival(Timeout::new('b', 10, 80), 80);
    assert_eq!(ticks(&k), 0);
    assert_eq!(drain(&mut k, 80), vec![('a', 80), ('b', 90)]);
}

#[test]
fn later_arrival_after_debited_head() {
    let mut k = Timekeeper::new();
    k.on_arrival(Timeout::new('a', 100, 0), 0);
    k.on_arrival(Timeout::new('b', 100, 30), 30);
    // 'a' now has 70 ticks to go, 'b' 100.
    assert_eq!(drain(&mut k, 30), vec![('a', 100), ('b', 130)]);
}

#[test]
fn scenario_single_timeout() {
    let mut k = Timekeeper::new();
    k.on_arrival(Timeout::new('A', 100, 0), 0);
    assert_eq!(drain(&mut k, 0), vec![('A', 100)]);
    assert_eq!(k.wait(), Wait::Indefinitely);
}

#[test]
fn scenario_three_quick_submissions() {
    let mut k = Timekeeper::new();
    k.on_arrival(Timeout::new('A', 200, 0), 0);
    k.on_arrival(Timeout::new('B', 50, 0), 0);
    k.on_arrival(Timeout::new('C', 100, 0), 0);
    assert_eq!(drain(&mut k, 0), vec![('B', 50), ('C', 100), ('A', 200)]);
}

#[test]
fn scenario_race_during_wait() {
    let mut k = Timekeeper::new();
    k.on_arrival(Timeout::new('A', 200, 0), 0);
    assert_eq!(ticks(&k), 200);
    k.on_arrival(Timeout::new('B', 20, 10), 10);
    assert_eq!(drain(&mut k, 10), vec![('B', 30), ('A', 200)]);
}

#[test]
fn scenario_nothing_submitted() {
    let mut k: Timekeeper<char> = Timekeeper::new();
    assert_eq!(k.wait(), Wait::Indefinitely);
    assert!(k.on_expiry().is_none());
    assert_eq!(k.wait(), Wait::Indefinitely);
}
