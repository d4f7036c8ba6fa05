use task_scheduler::queue::{Queue, QUEUE_CAP};

#[test]
fn queue_is_fifo() {
    let mut q = Queue::new();
    assert!(q.is_empty());
    assert_eq!(q.enqueue(5), 0);
    assert_eq!(q.enqueue(7), 0);
    assert!(!q.is_empty());
    assert_eq!(q.dequeue(), 5);
    assert_eq!(q.dequeue(), 7);
    assert_eq!(q.dequeue(), -1);
    assert!(q.is_empty());
}

#[test]
fn full_queue_refuses_and_wraps_around() {
    let mut q = Queue::new();
    for i in 0..QUEUE_CAP as i32 {
        assert_eq!(q.enqueue(i), 0);
    }
    assert_eq!(q.enqueue(-5), -1);
    for i in 0..10 {
        assert_eq!(q.dequeue(), i);
    }
    for i in 0..10 {
        assert_eq!(q.enqueue(2000 + i), 0);
    }
    assert_eq!(q.enqueue(1), -1);
    for i in 10..QUEUE_CAP as i32 {
        assert_eq!(q.dequeue(), i);
    }
    for i in 0..10 {
        assert_eq!(q.dequeue(), 2000 + i);
    }
    assert!(q.is_empty());
}
