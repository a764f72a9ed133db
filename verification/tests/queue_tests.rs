use logforward::queue::OutputQueue;

#[test]
fn backpressure_refuses_when_full_until_drained() {
    // Capacity two: after two unconsumed sends the third is refused and
    // hands the envelope back; after one element drains it is accepted.
    let mut q = OutputQueue::new(2);
    assert!(q.try_send(vec![1]).is_ok());
    assert!(q.try_send(vec![2]).is_ok());
    let refused = q.try_send(vec![3]);
    assert_eq!(refused, Err(vec![3]));
    assert_eq!(q.len(), 2);
    assert_eq!(q.recv(), Some(vec![1]));
    assert!(q.try_send(vec![3]).is_ok());
    assert_eq!(q.len(), 2);
}

#[test]
fn envelopes_leave_in_send_order() {
    let mut q = OutputQueue::new(4);
    q.try_send(vec![10]).unwrap();
    q.try_send(vec![20]).unwrap();
    q.try_send(vec![30]).unwrap();
    assert_eq!(q.recv(), Some(vec![10]));
    assert_eq!(q.recv(), Some(vec![20]));
    assert_eq!(q.recv(), Some(vec![30]));
    assert_eq!(q.recv(), None);
}

#[test]
fn capacity_is_reported() {
    let q = OutputQueue::new(7);
    assert_eq!(q.capacity(), 7);
    assert_eq!(q.len(), 0);
}
