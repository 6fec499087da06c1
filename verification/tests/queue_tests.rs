use weavesolve::Queue;

#[test]
fn new_queue_is_empty() {
    let mut q: Queue<u32> = Queue::new();
    assert!(q.is_empty());
    assert_eq!(q.dequeue(), None);
    assert!(q.is_empty());
}

#[test]
fn items_leave_in_the_order_they_came() {
    let mut q = Queue::new();
    q.enqueue("a");
    q.enqueue("b");
    q.enqueue("c");
    assert!(!q.is_empty());
    assert_eq!(q.dequeue(), Some("a"));
    assert_eq!(q.dequeue(), Some("b"));
    q.enqueue("d");
    assert_eq!(q.dequeue(), Some("c"));
    assert_eq!(q.dequeue(), Some("d"));
    assert_eq!(q.dequeue(), None);
    assert!(q.is_empty());
}

#[test]
fn queue_keeps_equal_items_apart() {
    let mut q = Queue::new();
    q.enqueue(7u8);
    q.enqueue(7u8);
    assert_eq!(q.dequeue(), Some(7));
    assert!(!q.is_empty());
    assert_eq!(q.dequeue(), Some(7));
    assert!(q.is_empty());
}
