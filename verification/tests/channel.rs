use lib::channel::{channel, Queue};

#[test]
fn channel_is_bounded_and_fifo() {
    let (tx, rx) = channel::<(u32, u32)>(2);
    assert_eq!(tx.send((0, 0)), Ok(()));
    assert_eq!(tx.send((0, 1)), Ok(()));
    assert_eq!(tx.send((0, 2)), Err((0, 2)));
    assert_eq!(rx.recv(), Some((0, 0)));
    assert_eq!(tx.send((0, 2)), Ok(()));
    assert_eq!(rx.recv(), Some((0, 1)));
    assert_eq!(rx.recv(), Some((0, 2)));
    assert_eq!(rx.recv(), None);
}

#[test]
fn cloned_senders_feed_one_queue() {
    let (tx, rx) = channel::<u64>(4);
    let tx2 = tx.clone();
    assert_eq!(tx2.send(7), Ok(()));
    assert_eq!(tx.send(8), Ok(()));
    assert_eq!(rx.recv(), Some(7));
    assert_eq!(rx.recv(), Some(8));
    assert_eq!(rx.recv(), None);
}

#[test]
fn three_senders_fifteen_messages() {
    let (tx, rx) = channel::<(i32, i32)>(4);
    let mut got = Vec::new();
    for thread_id in 0..3 {
        let t = tx.clone();
        for message_index in 0..5 {
            let mut data = (thread_id, message_index);
            loop {
                match t.send(data) {
                    Ok(()) => break,
                    Err(back) => {
                        data = back;
                        got.push(rx.recv().unwrap());
                    }
                }
            }
        }
    }
    while let Some(d) = rx.recv() {
        got.push(d);
    }
    let expected: Vec<(i32, i32)> = (0..3).flat_map(|t| (0..5).map(move |m| (t, m))).collect();
    assert_eq!(got, expected);
}

#[test]
fn queue_state_machine() {
    let mut q = Queue::<u8>::new(1);
    assert_eq!(q.len(), 0);
    assert_eq!(q.try_recv(), None);
    assert_eq!(q.try_send(5), Ok(()));
    assert_eq!(q.len(), 1);
    assert_eq!(q.try_send(6), Err(6));
    assert_eq!(q.try_recv(), Some(5));
    assert_eq!(q.len(), 0);
}
