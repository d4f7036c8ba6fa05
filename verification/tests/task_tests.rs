use task_scheduler::task::{
    sort_by_arrival, Task, MAX_NAME, PRI_CRIT, PRI_HIGH, PRI_LOW, PRI_MED, ST_PENDING,
};

fn task(id: i32, arrival: i32) -> Task {
    let mut t = Task::empty();
    t.id = id;
    t.arrival = arrival;
    t
}

#[test]
fn empty_task_is_blank() {
    let t = Task::empty();
    assert_eq!(t.id, 0);
    assert_eq!(t.name_len, 0);
    assert_eq!(t.name, [0u8; MAX_NAME]);
    assert_eq!(t.status, ST_PENDING);
    assert_eq!(t.get_name(), "");
}

#[test]
fn name_round_trip() {
    let mut t = Task::empty();
    t.set_name("pick_up_box");
    assert_eq!(t.name_len, 11);
    assert_eq!(t.get_name(), "pick_up_box");
    t.set_name("héllo wörld");
    assert_eq!(t.get_name(), "héllo wörld");
}

#[test]
fn long_name_is_cut_to_64_bytes() {
    let mut t = Task::empty();
    let long = "a".repeat(100);
    t.set_name(&long);
    assert_eq!(t.name_len, 64);
    assert_eq!(t.get_name(), &long[..64]);
}

#[test]
fn name_cut_inside_a_character_reads_as_placeholder() {
    let mut t = Task::empty();
    // 63 ASCII bytes then a two-byte character: the cut keeps only its first byte
    let s = format!("{}é", "x".repeat(63));
    t.set_name(&s);
    assert_eq!(t.name_len, 64);
    assert_eq!(t.get_name(), "???");
}

#[test]
fn shorter_name_clears_old_tail_bytes() {
    let mut t = Task::empty();
    t.set_name("pick_up_box");
    t.set_name("ab");
    assert_eq!(t.name_len, 2);
    assert_eq!(t.get_name(), "ab");
    assert_eq!(&t.name[..2], b"ab");
    assert_eq!(&t.name[2..], &[0u8; 62][..]);
}

#[test]
fn rank_flips_priority() {
    let mut t = Task::empty();
    t.priority = PRI_CRIT;
    assert_eq!(t.rank(), 0);
    t.priority = PRI_HIGH;
    assert_eq!(t.rank(), 1);
    t.priority = PRI_MED;
    assert_eq!(t.rank(), 2);
    t.priority = PRI_LOW;
    assert_eq!(t.rank(), 3);
}

#[test]
fn abs_deadline_adds_arrival() {
    let mut t = Task::empty();
    t.arrival = 10;
    t.deadline = 30;
    assert_eq!(t.abs_deadline(), 40);
}

#[test]
fn priority_labels() {
    let mut t = Task::empty();
    t.priority = 4;
    assert_eq!(t.priority_str(), "CRITICAL");
    t.priority = 3;
    assert_eq!(t.priority_str(), "HIGH");
    t.priority = 2;
    assert_eq!(t.priority_str(), "MEDIUM");
    t.priority = 1;
    assert_eq!(t.priority_str(), "LOW");
    t.priority = 9;
    assert_eq!(t.priority_str(), "LOW");
}

#[test]
fn sort_by_arrival_is_stable_and_bounded() {
    let mut tasks = [task(1, 5), task(2, 1), task(3, 5), task(4, 0), task(5, 1), task(6, -7)];
    sort_by_arrival(&mut tasks, 5);
    let ids: Vec<i32> = tasks.iter().map(|t| t.id).collect();
    assert_eq!(ids, vec![4, 2, 5, 1, 3, 6]);
}

#[test]
fn sort_by_arrival_small_counts() {
    let mut tasks = [task(1, 3), task(2, 1)];
    sort_by_arrival(&mut tasks, 0);
    assert_eq!(tasks[0].id, 1);
    sort_by_arrival(&mut tasks, 1);
    assert_eq!(tasks[0].id, 1);
    sort_by_arrival(&mut tasks, 2);
    assert_eq!(tasks[0].id, 2);
    let mut none: [Task; 0] = [];
    sort_by_arrival(&mut none, 1);
}
