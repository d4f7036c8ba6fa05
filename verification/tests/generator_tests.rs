use task_scheduler::generator::generate_tasks;
use task_scheduler::task::{Task, MAX_TASKS, ST_PENDING};

const NAMES: [&str; 10] = [
    "pick_up_box",
    "scan_shelf",
    "deliver_pkg",
    "charge_batt",
    "sort_items",
    "inspect_area",
    "move_pallet",
    "update_inv",
    "clean_zone",
    "emergency_chk",
];

struct Lcg(u64);

impl Lcg {
    fn draw(&mut self, lo: i32, hi: i32) -> i32 {
        self.0 = self.0.wrapping_mul(6364136223846793005).wrapping_add(1442695040888963407);
        lo + ((self.0 >> 33) % ((hi - lo + 1) as u64)) as i32
    }
}

#[test]
fn generation_follows_the_seeded_sequence() {
    let mut out = [Task::empty(); MAX_TASKS];
    let n = generate_tasks(&mut out, 50, 100, 12345);
    assert_eq!(n, 50);
    let mut rng = Lcg(12345);
    for i in 0..n {
        let t = &out[i];
        let name = NAMES[rng.draw(0, 9) as usize];
        assert_eq!(t.id, i as i32 + 1);
        assert_eq!(t.get_name(), name);
        assert_eq!(t.priority, rng.draw(1, 4));
        assert_eq!(t.arrival, rng.draw(0, 100));
        assert_eq!(t.deadline, rng.draw(10, 120));
        assert_eq!(t.duration, rng.draw(1, 20));
        assert_eq!(t.order, i as i32);
        assert_eq!(t.status, ST_PENDING);
    }
    assert_eq!(out[50].id, 0);
}

#[test]
fn burst_mode_puts_every_arrival_at_zero() {
    let mut out = [Task::empty(); MAX_TASKS];
    let n = generate_tasks(&mut out, 30, 0, 7);
    assert_eq!(n, 30);
    let mut rng = Lcg(7);
    for i in 0..n {
        let t = &out[i];
        assert_eq!(t.get_name(), NAMES[rng.draw(0, 9) as usize]);
        assert_eq!(t.priority, rng.draw(1, 4));
        assert_eq!(t.arrival, 0);
        assert_eq!(t.deadline, rng.draw(10, 120));
        assert_eq!(t.duration, rng.draw(1, 20));
    }
}

#[test]
fn same_seed_same_tasks_and_ranges_hold() {
    let mut a = [Task::empty(); MAX_TASKS];
    let mut b = [Task::empty(); MAX_TASKS];
    let n = generate_tasks(&mut a, 200, 10, 99);
    generate_tasks(&mut b, 200, 10, 99);
    for i in 0..n {
        assert_eq!(a[i].id, b[i].id);
        assert_eq!(a[i].name, b[i].name);
        assert_eq!((a[i].priority, a[i].arrival, a[i].deadline, a[i].duration), (b[i].priority, b[i].arrival, b[i].deadline, b[i].duration));
        assert!((1..=4).contains(&a[i].priority));
        assert!((0..=10).contains(&a[i].arrival));
        assert!((10..=120).contains(&a[i].deadline));
        assert!((1..=20).contains(&a[i].duration));
    }
}

#[test]
fn count_is_capped_at_max_tasks() {
    let mut out = [Task::empty(); MAX_TASKS];
    assert_eq!(generate_tasks(&mut out, 5000, 100, 1), MAX_TASKS);
    assert_eq!(out[MAX_TASKS - 1].id, MAX_TASKS as i32);
    let mut none = [Task::empty(); MAX_TASKS];
    assert_eq!(generate_tasks(&mut none, 0, i32::MAX, 1), 0);
    assert_eq!(none[0].id, 0);
}
