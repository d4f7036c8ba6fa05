use task_scheduler::heap::{Heap, HeapEntry, HEAP_CAP};

fn entry(rank: i32, deadline: i32, duration: i32, order: i32, task_id: i32) -> HeapEntry {
    HeapEntry { rank, deadline, duration, order, task_id }
}

#[test]
fn extract_from_empty_heap_gives_blank_entry() {
    let mut h = Heap::new();
    assert!(h.is_empty());
    let e = h.extract_min();
    assert_eq!((e.rank, e.deadline, e.duration, e.order, e.task_id), (0, 0, 0, 0, 0));
    assert!(h.is_empty());
}

#[test]
fn most_urgent_comes_first() {
    let mut h = Heap::new();
    assert_eq!(h.insert(entry(3, 10, 5, 0, 1)), 0);
    assert_eq!(h.insert(entry(0, 50, 5, 1, 2)), 0);
    assert_eq!(h.insert(entry(1, 20, 5, 2, 3)), 0);
    assert_eq!(h.insert(entry(0, 40, 5, 3, 4)), 0);
    let order: Vec<i32> = (0..4).map(|_| h.extract_min().task_id).collect();
    assert_eq!(order, vec![4, 2, 3, 1]);
    assert!(h.is_empty());
}

#[test]
fn ties_break_on_deadline_then_duration_then_order() {
    let mut h = Heap::new();
    h.insert(entry(1, 30, 9, 0, 10));
    h.insert(entry(1, 30, 2, 5, 11));
    h.insert(entry(1, 30, 2, 3, 12));
    h.insert(entry(1, 20, 50, 9, 13));
    let order: Vec<i32> = (0..4).map(|_| h.extract_min().task_id).collect();
    assert_eq!(order, vec![13, 12, 11, 10]);
}

#[test]
fn many_entries_come_out_sorted() {
    let mut h = Heap::new();
    let mut x: i32 = 7;
    for i in 0..500 {
        x = (x * 31 + 11) % 1009;
        h.insert(entry(x % 4, x, 0, i, i));
    }
    let mut last = (-1, -1, -1, -1);
    for _ in 0..500 {
        let e = h.extract_min();
        let key = (e.rank, e.deadline, e.duration, e.order);
        assert!(key >= last);
        last = key;
    }
    assert!(h.is_empty());
}

#[test]
fn full_heap_refuses_insert() {
    let mut h = Heap::new();
    for i in 0..HEAP_CAP as i32 {
        assert_eq!(h.insert(entry(0, 0, 0, i, i)), 0);
    }
    assert_eq!(h.insert(entry(0, 0, 0, -1, 9999)), -1);
    assert_eq!(h.extract_min().task_id, 0);
    assert_eq!(h.insert(entry(0, 0, 0, -1, 9999)), 0);
    assert_eq!(h.extract_min().task_id, 9999);
}

#[test]
fn empty_entry_is_zero() {
    let e = HeapEntry::empty();
    assert_eq!((e.rank, e.deadline, e.duration, e.order, e.task_id), (0, 0, 0, 0, 0));
}
