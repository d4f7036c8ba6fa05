use task_scheduler::fsm::STATE_SHUTDOWN;
use task_scheduler::simulation::{run_simulation, SimEvent};
use task_scheduler::task::{Task, MAX_TASKS};

fn task(id: i32, priority: i32, arrival: i32, deadline: i32, duration: i32, order: i32) -> Task {
    let mut t = Task::empty();
    t.id = id;
    t.priority = priority;
    t.arrival = arrival;
    t.deadline = deadline;
    t.duration = duration;
    t.order = order;
    t.set_name("job");
    t
}

fn starts(events: &[SimEvent]) -> Vec<(i32, i32)> {
    events
        .iter()
        .filter_map(|e| match e {
            SimEvent::Started { time, task } => Some((*time, task.id)),
            _ => None,
        })
        .collect()
}

#[test]
fn runs_most_urgent_ready_task_and_jumps_when_idle() {
    let mut tasks = [Task::empty(); MAX_TASKS];
    tasks[0] = task(4, 4, 20, 5, 1, 3);
    tasks[1] = task(1, 1, 0, 100, 5, 0);
    tasks[2] = task(2, 4, 1, 50, 3, 1);
    tasks[3] = task(3, 2, 1, 10, 2, 2);
    let r = run_simulation(&mut tasks, 4);
    assert_eq!(r.final_state, STATE_SHUTDOWN);
    assert_eq!(starts(&r.events), vec![(0, 1), (5, 2), (8, 3), (20, 4)]);
    let finishes: Vec<(i32, i32, bool)> = r
        .events
        .iter()
        .filter_map(|e| match e {
            SimEvent::Finished { time, id, missed } => Some((*time, *id, *missed)),
            _ => None,
        })
        .collect();
    assert_eq!(finishes, vec![(5, 1, false), (8, 2, false), (10, 3, false), (21, 4, false)]);
    assert_eq!(r.events.len(), 8);
    let m = r.metrics;
    assert_eq!((m.total, m.done, m.missed, m.total_wait, m.max_wait, m.busy_time, m.end_time), (4, 4, 0, 11, 7, 11, 21));
    // the tasks were sorted by arrival in place
    let ids: Vec<i32> = tasks[..4].iter().map(|t| t.id).collect();
    assert_eq!(ids, vec![1, 2, 3, 4]);
}

#[test]
fn missed_deadlines_are_counted() {
    let mut tasks = [Task::empty(); MAX_TASKS];
    tasks[0] = task(1, 4, 0, 3, 5, 0);
    tasks[1] = task(2, 4, 0, 6, 1, 1);
    let r = run_simulation(&mut tasks, 2);
    // task 1 is due first and goes first, ending at 5 > 3; task 2 ends at 6, on time
    assert_eq!(starts(&r.events), vec![(0, 1), (5, 2)]);
    assert_eq!(r.metrics.missed, 1);
    match r.events[1] {
        SimEvent::Finished { time, id, missed } => assert_eq!((time, id, missed), (5, 1, true)),
        _ => panic!("expected a finish"),
    }
    match r.events[3] {
        SimEvent::Finished { time, id, missed } => assert_eq!((time, id, missed), (6, 2, false)),
        _ => panic!("expected a finish"),
    }
}

#[test]
fn ties_go_to_the_earlier_order() {
    let mut tasks = [Task::empty(); MAX_TASKS];
    for i in 0..5 {
        tasks[i] = task(10 + i as i32, 3, 0, 50, 2, 4 - i as i32);
    }
    let r = run_simulation(&mut tasks, 5);
    assert_eq!(starts(&r.events), vec![(0, 14), (2, 13), (4, 12), (6, 11), (8, 10)]);
    assert_eq!(r.metrics.end_time, 10);
}

#[test]
fn duplicate_ids_run_the_first_record_again() {
    let mut tasks = [Task::empty(); MAX_TASKS];
    tasks[0] = task(1, 2, 0, 20, 2, 0);
    tasks[1] = task(1, 4, 1, 20, 3, 1);
    let r = run_simulation(&mut tasks, 2);
    assert!(matches!(r.events[2], SimEvent::DuplicateId { id: 1 }));
    assert_eq!(starts(&r.events), vec![(0, 1), (2, 1)]);
    match r.events[3] {
        SimEvent::Started { task, .. } => assert_eq!(task.duration, 2),
        _ => panic!("expected a start"),
    }
    assert_eq!(r.metrics.done, 2);
    assert_eq!(r.metrics.end_time, 4);
}

#[test]
fn no_tasks_shuts_down_at_time_zero() {
    let mut tasks = [Task::empty(); MAX_TASKS];
    let r = run_simulation(&mut tasks, 0);
    assert!(r.events.is_empty());
    assert_eq!(r.final_state, STATE_SHUTDOWN);
    assert_eq!((r.metrics.total, r.metrics.done, r.metrics.end_time), (0, 0, 0));
}

#[test]
fn a_full_load_runs_every_task_once() {
    let mut tasks = [Task::empty(); MAX_TASKS];
    for i in 0..MAX_TASKS {
        tasks[i] = task(i as i32 + 1, (i % 4) as i32 + 1, (i % 13) as i32, 30, 1 + (i % 3) as i32, i as i32);
    }
    let r = run_simulation(&mut tasks, MAX_TASKS);
    let mut ids: Vec<i32> = starts(&r.events).iter().map(|s| s.1).collect();
    assert_eq!(ids.len(), MAX_TASKS);
    ids.sort();
    ids.dedup();
    assert_eq!(ids.len(), MAX_TASKS);
    assert_eq!(r.metrics.done, MAX_TASKS as i32);
    assert_eq!(r.events.len(), 2 * MAX_TASKS);
}

#[test]
fn critical_task_runs_before_low_one_arriving_together() {
    let mut tasks = [Task::empty(); MAX_TASKS];
    tasks[0] = task(1, 1, 0, 10, 5, 0);
    tasks[1] = task(2, 4, 0, 100, 3, 1);
    let r = run_simulation(&mut tasks, 2);
    assert_eq!(r.final_state, STATE_SHUTDOWN);
    assert_eq!(starts(&r.events), vec![(0, 2), (3, 1)]);
    match r.events[1] {
        SimEvent::Finished { time, id, missed } => assert_eq!((time, id, missed), (3, 2, false)),
        _ => panic!("expected a finish"),
    }
    match r.events[3] {
        SimEvent::Finished { time, id, missed } => assert_eq!((time, id, missed), (8, 1, false)),
        _ => panic!("expected a finish"),
    }
    let m = r.metrics;
    assert_eq!((m.done, m.missed, m.total_wait, m.max_wait, m.busy_time, m.end_time), (2, 0, 3, 3, 8, 8));
}

#[test]
fn long_tasks_within_i32_run_to_the_end() {
    let mut tasks = [Task::empty(); MAX_TASKS];
    tasks[0] = task(1, 2, 0, 700_000_000, 600_000_000, 0);
    tasks[1] = task(2, 2, 0, 700_000_000, 600_000_000, 1);
    let r = run_simulation(&mut tasks, 2);
    assert_eq!(r.final_state, STATE_SHUTDOWN);
    assert_eq!(starts(&r.events), vec![(0, 1), (600_000_000, 2)]);
    let m = r.metrics;
    assert_eq!((m.done, m.missed, m.total_wait, m.busy_time, m.end_time), (2, 1, 600_000_000, 1_200_000_000, 1_200_000_000));
}

#[test]
fn clock_past_i32_stops_with_overflow() {
    let mut tasks = [Task::empty(); MAX_TASKS];
    tasks[0] = task(1, 2, 0, 10, 1_500_000_000, 0);
    tasks[1] = task(2, 2, 0, 10, 1_500_000_000, 1);
    let r = run_simulation(&mut tasks, 2);
    assert_eq!(r.events.len(), 4);
    assert_eq!(starts(&r.events), vec![(0, 1), (1_500_000_000, 2)]);
    assert!(matches!(r.events[3], SimEvent::Overflow));
    assert_eq!(r.metrics.done, 1);
    assert_eq!(r.metrics.busy_time, 1_500_000_000);
    assert_eq!(r.final_state, task_scheduler::fsm::STATE_RUNNING);
}

#[test]
fn start_after_idle_is_at_the_arrival() {
    let mut tasks = [Task::empty(); MAX_TASKS];
    tasks[0] = task(1, 3, 0, 10, 2, 0);
    tasks[1] = task(2, 1, 7, 10, 2, 1);
    let r = run_simulation(&mut tasks, 2);
    assert_eq!(starts(&r.events), vec![(0, 1), (7, 2)]);
    assert_eq!(r.metrics.end_time, 9);
    assert_eq!(r.metrics.busy_time, 4);
}

#[test]
fn task_arriving_before_zero_starts_at_zero() {
    let mut tasks = [Task::empty(); MAX_TASKS];
    tasks[0] = task(1, 2, -5, 20, 4, 0);
    let r = run_simulation(&mut tasks, 1);
    assert_eq!(starts(&r.events), vec![(0, 1)]);
    assert_eq!((r.metrics.total_wait, r.metrics.max_wait, r.metrics.end_time), (5, 5, 4));
}
