use unialloc::mpmc::{diff, MpMcQueue, Q2, Q4};

#[test]
fn mpmc_sanity() {
    let mut q = Q2::<usize>::new();
    q.enqueue(0).unwrap();
    q.enqueue(1).unwrap();
    assert!(q.enqueue(2).is_err());

    assert_eq!(q.dequeue(), Some(0));
    assert_eq!(q.dequeue(), Some(1));
    assert_eq!(q.dequeue(), None);
}

#[test]
fn drain_at_pos255() {
    let mut q = Q2::new();
    for _ in 0..255 {
        assert!(q.enqueue(0).is_ok());
        assert_eq!(q.dequeue(), Some(0));
    }
    // this should not block forever
    assert_eq!(q.dequeue(), None);
}

#[test]
fn full_at_wrapped_pos0() {
    let mut q = Q2::new();
    for _ in 0..254 {
        assert!(q.enqueue(0).is_ok());
        assert_eq!(q.dequeue(), Some(0));
    }
    assert!(q.enqueue(0).is_ok());
    assert!(q.enqueue(0).is_ok());
    // this should not block forever
    assert!(q.enqueue(0).is_err());
}

#[test]
fn queue_keeps_the_order_of_its_items() {
    let mut q: Q4<String> = Q4::new();
    for round in 0..100 {
        assert_eq!(q.enqueue(format!("a{}", round)), Ok(()));
        assert_eq!(q.enqueue(format!("b{}", round)), Ok(()));
        assert_eq!(q.enqueue(format!("c{}", round)), Ok(()));
        assert_eq!(q.dequeue(), Some(format!("a{}", round)));
        assert_eq!(q.enqueue(format!("d{}", round)), Ok(()));
        assert_eq!(q.enqueue(format!("e{}", round)), Ok(()));
        // The item comes back when there is no room for it.
        assert_eq!(q.enqueue(format!("f{}", round)), Err(format!("f{}", round)));
        assert_eq!(q.dequeue(), Some(format!("b{}", round)));
        assert_eq!(q.dequeue(), Some(format!("c{}", round)));
        assert_eq!(q.dequeue(), Some(format!("d{}", round)));
        assert_eq!(q.dequeue(), Some(format!("e{}", round)));
        assert_eq!(q.dequeue(), None);
    }
    assert_eq!((q.enqueue_pos, q.dequeue_pos), (500, 500));
    // Each slot waits for the next position that uses it.
    let waits: Vec<usize> = q.buffer.iter().map(|c| c.sequence).collect();
    assert_eq!(waits, vec![500, 501, 502, 503]);
    let mut big: MpMcQueue<u8, 128> = MpMcQueue::new();
    for i in 0..128 {
        assert_eq!(big.enqueue(i), Ok(()));
    }
    assert_eq!(big.enqueue(128), Err(128));
    assert_eq!(big.dequeue(), Some(0));
}

#[test]
fn positions_differ_as_a_signed_byte_sees_them() {
    assert_eq!(diff(5, 5), 0);
    assert_eq!(diff(6, 5), 1);
    assert_eq!(diff(5, 6), -1);
    assert_eq!(diff(256, 255), 1);
    assert_eq!(diff(255, 256), -1);
    assert_eq!(diff(1000, 1127), -127);
    assert_eq!(diff(1128, 1000), -128);
    assert_eq!(diff(1127, 1000), 127);
    assert_eq!(diff(usize::MAX, 0), -1);
}
