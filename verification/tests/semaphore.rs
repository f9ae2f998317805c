use lib::semaphore::Semaphore;

#[test]
fn semaphore_limits_holders() {
    let mut s = Semaphore::new(2);
    assert!(s.wait());
    assert!(s.wait());
    assert!(!s.wait());
    s.post();
    assert!(s.wait());
    assert!(!s.wait());
}

#[test]
fn semaphore_with_no_slots() {
    let mut s = Semaphore::new(0);
    assert!(!s.wait());
    s.post();
    assert!(s.wait());
    assert!(!s.wait());
}

#[test]
fn semaphore_four_slots() {
    let mut s = Semaphore::new(4);
    for _ in 0..4 {
        assert!(s.wait());
    }
    assert!(!s.wait());
    for _ in 0..4 {
        s.post();
    }
    for _ in 0..4 {
        assert!(s.wait());
    }
}
