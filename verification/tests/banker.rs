use lib::banker::{Banker, Resource};

#[test]
fn philosophers_cannot_deadlock() {
    // Two forks, two philosophers, each needing both forks.
    let banker = Banker::<2, 2>::new([1, 1], [[1, 1], [1, 1]]);
    assert!(banker.take(0, 0));
    // Philosopher 1 taking fork 1 would leave nobody able to finish.
    assert!(!banker.take(1, 1));
    assert!(banker.take(0, 1));
    // No fork is left.
    assert!(!banker.take(1, 1));
    banker.release(0, 0);
    banker.release(0, 1);
    assert!(banker.take(1, 1));
    assert!(banker.take(1, 0));
}

#[test]
fn clones_share_the_books() {
    let banker = Banker::<1, 2>::new([1], [[1], [1]]);
    let other = banker.clone();
    assert!(banker.take(0, 0));
    assert!(!other.take(1, 0));
    other.release(0, 0);
    assert!(banker.take(1, 0));
}

#[test]
fn banker_refuses_out_of_range() {
    let banker = Banker::<2, 2>::new([3, 3], [[1, 1], [1, 1]]);
    assert!(!banker.take(2, 0));
    assert!(!banker.take(0, 2));
    banker.release(5, 0);
    assert!(banker.take(0, 0));
}

#[test]
fn resource_starts_idle() {
    let r = Resource::<2, 3>::new([4, 2], [[1, 1], [2, 0], [1, 2]]);
    assert_eq!(r.available(), [4, 2]);
    for t in 0..3 {
        for q in 0..2 {
            assert_eq!(r.held_by(t, q), 0);
        }
    }
    assert!(r.is_safe());
}

#[test]
fn unsafe_initial_state() {
    // The only thread claims more than exists: it can never finish.
    let r = Resource::<1, 1>::new([0], [[1]]);
    assert!(!r.is_safe());
    let mut r = r;
    assert!(!r.take(0, 0));
}

#[test]
fn no_threads_is_safe() {
    let r = Resource::<1, 0>::new([3], []);
    assert!(r.is_safe());
}

#[test]
fn take_beyond_claim_is_refused() {
    let mut r = Resource::<1, 1>::new([5], [[1]]);
    assert!(r.take(0, 0));
    assert!(!r.take(0, 0));
    assert_eq!(r.available(), [4]);
    assert_eq!(r.held_by(0, 0), 1);
}

#[test]
fn safety_search_reorders_threads() {
    // Three units; claims 3, 2 and 1.
    let mut r = Resource::<1, 3>::new([3], [[3], [2], [1]]);
    assert!(r.take(0, 0));
    assert!(r.take(1, 0));
    // Thread 2 finishes first, then 1, then 0.
    assert!(r.take(2, 0));
    assert!(!r.take(0, 0));
    r.release(2, 0);
    assert_eq!(r.available(), [1]);
    // Would leave no thread able to finish: refused, books unchanged.
    assert!(!r.take(0, 0));
    assert_eq!(r.available(), [1]);
    assert_eq!(r.held_by(0, 0), 1);
    assert_eq!(r.held_by(1, 0), 1);
    assert_eq!(r.held_by(2, 0), 0);
    assert!(r.take(1, 0));
    assert_eq!(r.available(), [0]);
    assert!(r.is_safe());
}

#[test]
fn units_are_conserved() {
    let mut r = Resource::<2, 2>::new([2, 3], [[2, 2], [1, 3]]);
    let ops: [(bool, usize, usize); 8] = [
        (true, 0, 0),
        (true, 1, 1),
        (true, 0, 1),
        (false, 1, 1),
        (true, 1, 0),
        (false, 0, 0),
        (true, 0, 1),
        (false, 3, 0),
    ];
    for (take, id, q) in ops {
        if take {
            r.take(id, q);
        } else {
            r.release(id, q);
        }
        let free = r.available();
        assert_eq!(free[0] + r.held_by(0, 0) + r.held_by(1, 0), 2);
        assert_eq!(free[1] + r.held_by(0, 1) + r.held_by(1, 1), 3);
    }
}

#[test]
fn release_without_holding_changes_nothing() {
    let mut r = Resource::<1, 2>::new([2], [[1], [1]]);
    r.release(0, 0);
    assert_eq!(r.available(), [2]);
    assert_eq!(r.held_by(0, 0), 0);
}

#[test]
fn release_keeps_state_safe() {
    let mut r = Resource::<2, 2>::new([1, 1], [[1, 1], [1, 1]]);
    assert!(r.take(0, 0));
    assert!(r.take(0, 1));
    r.release(0, 1);
    assert!(r.is_safe());
    assert_eq!(r.available(), [0, 1]);
}

#[test]
fn clones_of_clones_share_the_books() {
    let banker = Banker::<1, 3>::new([1], [[1], [1], [1]]);
    let a = banker.clone();
    let b = a.clone();
    assert!(b.take(2, 0));
    assert!(!banker.take(0, 0));
    assert!(!a.take(1, 0));
    banker.release(2, 0);
    assert!(a.take(1, 0));
}
