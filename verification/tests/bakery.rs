use lib::bakery::{must_wait, next_ticket};

#[test]
fn ticket_is_one_above_the_highest() {
    assert_eq!(next_ticket(&[0, 3, 1, 0]), 4);
    assert_eq!(next_ticket(&[0, 0, 0, 0]), 1);
    assert_eq!(next_ticket(&[]), 1);
    assert_eq!(next_ticket(&[9]), 10);
}

#[test]
fn waiting_follows_ticket_then_id() {
    // Not competing: never wait.
    assert!(!must_wait(0, 1, 5, 2));
    // Smaller ticket goes first.
    assert!(must_wait(3, 1, 5, 2));
    assert!(must_wait(3, 3, 5, 2));
    // Equal tickets: smaller id goes first.
    assert!(must_wait(5, 1, 5, 2));
    assert!(!must_wait(5, 3, 5, 2));
    // Larger ticket waits for me.
    assert!(!must_wait(6, 1, 5, 2));
}

#[test]
fn exactly_one_of_two_waits() {
    let pairs = [(1u64, 0usize, 1u64, 1usize), (2, 3, 1, 0), (4, 0, 7, 2), (5, 2, 5, 1)];
    for (t1, i1, t2, i2) in pairs {
        assert_ne!(must_wait(t1, i1, t2, i2), must_wait(t2, i2, t1, i1));
    }
}

#[test]
fn newcomer_waits_for_everyone() {
    let tickets = [2u64, 0, 5, 1];
    let mine = next_ticket(&tickets);
    for (i, t) in tickets.iter().enumerate() {
        if *t != 0 {
            assert!(must_wait(*t, i, mine, 9));
        }
    }
}
