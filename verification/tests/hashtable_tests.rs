use task_scheduler::hashtable::{HashTable, TableInsert, POOL_SIZE};
use task_scheduler::task::{Task, ST_DONE, ST_READY};

fn task(id: i32) -> Task {
    let mut t = Task::empty();
    t.id = id;
    t.duration = id % 7;
    t.set_name("job");
    t
}

#[test]
fn lookup_finds_what_was_inserted() {
    let mut ht = HashTable::new();
    assert!(ht.lookup(7).is_none());
    assert_eq!(ht.insert(task(7)), TableInsert::Inserted);
    let t = ht.lookup(7).unwrap();
    assert_eq!(t.id, 7);
    assert_eq!(t.duration, 0);
    assert_eq!(t.get_name(), "job");
    assert!(ht.lookup(8).is_none());
}

#[test]
fn colliding_ids_share_a_bucket() {
    let mut ht = HashTable::new();
    // 7, 263 and 519 all hash to bucket 7; -7 too
    for id in [7, 263, 519, -7] {
        assert_eq!(ht.insert(task(id)), TableInsert::Inserted);
    }
    for id in [7, 263, 519, -7] {
        assert_eq!(ht.lookup(id).unwrap().id, id);
    }
    assert!(ht.lookup(775).is_none());
}

#[test]
fn duplicate_id_is_refused() {
    let mut ht = HashTable::new();
    let mut first = task(42);
    first.arrival = 1;
    let mut second = task(42);
    second.arrival = 2;
    assert_eq!(ht.insert(first), TableInsert::Inserted);
    assert_eq!(ht.insert(second), TableInsert::DuplicateId);
    assert_eq!(ht.lookup(42).unwrap().arrival, 1);
}

#[test]
fn update_status_changes_only_the_status() {
    let mut ht = HashTable::new();
    ht.insert(task(5));
    ht.insert(task(261));
    assert_eq!(ht.update_status(5, ST_READY), 0);
    assert_eq!(ht.lookup(5).unwrap().status, ST_READY);
    assert_eq!(ht.lookup(261).unwrap().status, 0);
    assert_eq!(ht.update_status(261, ST_DONE), 0);
    assert_eq!(ht.lookup(261).unwrap().status, ST_DONE);
    assert_eq!(ht.lookup(261).unwrap().duration, 261 % 7);
    assert_eq!(ht.update_status(6, ST_READY), -1);
}

#[test]
fn pool_runs_out_after_1024_tasks() {
    let mut ht = HashTable::new();
    for id in 1..=POOL_SIZE as i32 {
        assert_eq!(ht.insert(task(id)), TableInsert::Inserted);
    }
    assert_eq!(ht.insert(task(5000)), TableInsert::PoolFull);
    assert_eq!(ht.insert(task(3)), TableInsert::DuplicateId);
    assert!(ht.lookup(5000).is_none());
    for id in 1..=POOL_SIZE as i32 {
        assert_eq!(ht.lookup(id).unwrap().id, id);
    }
}

#[test]
fn smallest_id_is_stored_and_found() {
    let mut ht = HashTable::new();
    assert_eq!(ht.insert(task(i32::MIN)), TableInsert::Inserted);
    assert_eq!(ht.insert(task(0)), TableInsert::Inserted);
    assert_eq!(ht.lookup(i32::MIN).unwrap().id, i32::MIN);
    assert_eq!(ht.lookup(0).unwrap().id, 0);
    assert_eq!(ht.update_status(i32::MIN, ST_DONE), 0);
    assert_eq!(ht.lookup(i32::MIN).unwrap().status, ST_DONE);
    assert_eq!(ht.lookup(0).unwrap().status, task(0).status);
}

#[test]
fn lookup_after_a_history_of_calls() {
    let mut ht = HashTable::new();
    assert_eq!(ht.update_status(5, ST_READY), -1);
    assert_eq!(ht.insert(task(5)), TableInsert::Inserted);
    assert_eq!(ht.update_status(5, ST_READY), 0);
    let mut other = task(5);
    other.set_name("other");
    assert_eq!(ht.insert(other), TableInsert::DuplicateId);
    assert_eq!(ht.update_status(5, ST_DONE), 0);
    let t = ht.lookup(5).unwrap();
    assert_eq!(t.status, ST_DONE);
    assert_eq!(t.get_name(), "job");
    assert!(ht.lookup(6).is_none());
}
