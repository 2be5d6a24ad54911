use data_structures::queue::Queue;

#[test]
fn test_queue() {
    let mut queue: Queue<i32> = Queue::new();
    queue.enqueue(64);
    assert!(!queue.is_empty(), "Queue should not be empty after enqueue");
}

#[test]
fn test_dequeue() {
    let mut queue: Queue<i32> = Queue::new();
    queue.enqueue(32);
    queue.enqueue(53);
    queue.enqueue(23);
    let back = queue.dequeue();
    assert_eq!(back, Some(32), "Dequeue should return the first element");
}

#[test]
fn test_peek_front() {
    let mut queue: Queue<i32> = Queue::new();
    queue.enqueue(12);
    queue.enqueue(14);
    let fron = queue.peek_front();
    assert_eq!(
        fron,
        Some(&12),
        "Peek should return a reference to the first element"
    );
}

#[test]
fn queue_scenario_fifo_order() {
    let mut queue: Queue<u64> = Queue::new();
    queue.enqueue(1);
    queue.enqueue(2);
    queue.enqueue(3);
    assert_eq!(queue.dequeue(), Some(1));
    assert_eq!(queue.peek_front(), Some(&2));
    assert_eq!(queue.len(), 2);
    assert_eq!(queue.dequeue(), Some(2));
    assert_eq!(queue.dequeue(), Some(3));
    assert_eq!(queue.dequeue(), None);
    assert!(queue.is_empty());
    assert_eq!(queue.len(), 0);
}

#[test]
fn dequeue_empty_queue_returns_nothing() {
    let mut queue: Queue<String> = Queue::default();
    assert_eq!(queue.dequeue(), None);
    assert_eq!(queue.peek_front(), None);
    assert_eq!(queue.len(), 0);
}
