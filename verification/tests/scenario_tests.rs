use task_scheduler::fsm::STATE_SHUTDOWN;
use task_scheduler::generator::{generate_tasks, tighten_deadlines};
use task_scheduler::loader::parse_csv;
use task_scheduler::simulation::{run_simulation, SimEvent};
use task_scheduler::task::{Task, MAX_TASKS};

fn key(t: &Task) -> (i32, i32, i32, i32) {
    (4 - t.priority, t.arrival + t.deadline, t.duration, t.order)
}

/// Checks on a finished run: pairing, no overlap, urgency, and that the
/// counters agree with the events.
fn check_run_laws(events: &[SimEvent], done: i32, total_wait: i32, busy: i32, missed: i32, max_wait: i32) {
    let mut starts: Vec<(i32, Task)> = Vec::new();
    let (mut w, mut b, mut m, mut mw) = (0i64, 0i64, 0, 0i64);
    for (k, e) in events.iter().enumerate() {
        match e {
            SimEvent::Started { time, task } => {
                assert!(task.arrival <= *time);
                match events[k + 1] {
                    SimEvent::Finished { time: f, id, missed } => {
                        assert_eq!(f, time + task.duration);
                        assert_eq!(id, task.id);
                        assert_eq!(missed, f > task.arrival + task.deadline);
                    }
                    _ => panic!("a start must be followed by its finish"),
                }
                starts.push((*time, *task));
                w += (*time - task.arrival) as i64;
                mw = mw.max((*time - task.arrival) as i64);
                b += task.duration as i64;
            }
            SimEvent::Finished { missed, .. } => {
                if *missed {
                    m += 1;
                }
            }
            _ => panic!("no failure expected with distinct ids"),
        }
    }
    let mut prev_end = 0;
    for a in 0..starts.len() {
        let (ta, x) = starts[a];
        if ta > prev_end {
            for c in a..starts.len() {
                assert!(starts[c].1.arrival >= ta);
            }
        }
        prev_end = ta + x.duration;
        for c in a + 1..starts.len() {
            let (ta, x) = starts[a];
            let (tc, y) = starts[c];
            assert!(ta + x.duration <= tc);
            if y.arrival <= ta {
                assert!(key(&y) >= key(&x));
            }
        }
    }
    assert_eq!(starts.len() as i32, done);
    assert_eq!((w as i32, b as i32, m, mw as i32), (total_wait, busy, missed, max_wait));
}

#[test]
fn generated_load_obeys_the_scheduling_laws() {
    for (spread, seed) in [(100, 12345u64), (0, 12345), (10, 77)] {
        let mut tasks = [Task::empty(); MAX_TASKS];
        let n = generate_tasks(&mut tasks, 300, spread, seed);
        let r = run_simulation(&mut tasks, n);
        assert_eq!(r.final_state, STATE_SHUTDOWN);
        assert_eq!(r.metrics.total, n as i32);
        assert_eq!(r.metrics.done, n as i32);
        let m = r.metrics;
        check_run_laws(&r.events, m.done, m.total_wait, m.busy_time, m.missed, m.max_wait);
    }
}

#[test]
fn overload_tightens_every_deadline() {
    let mut tasks = [Task::empty(); MAX_TASKS];
    let n = generate_tasks(&mut tasks, 40, 10, 12345);
    let before = tasks;
    tighten_deadlines(&mut tasks, n);
    for i in 0..n {
        assert_eq!(tasks[i].deadline, before[i].duration + 2);
        assert_eq!(tasks[i].duration, before[i].duration);
        assert_eq!(tasks[i].id, before[i].id);
    }
    assert_eq!(tasks[n].deadline, before[n].deadline);
    let r = run_simulation(&mut tasks, n);
    assert!(r.metrics.missed > 0);
    let m = r.metrics;
    check_run_laws(&r.events, m.done, m.total_wait, m.busy_time, m.missed, m.max_wait);
}

#[test]
fn loaded_file_runs_end_to_end() {
    let csv = "id,name,priority,arrival,deadline,duration\n\
               1,pick_up_box,1,0,30,5\n\
               2,emergency_chk,4,2,5,2\n\
               3,scan_shelf,3,2,20,4\n\
               4,charge_batt,2,30,40,3\n";
    let mut tasks = [Task::empty(); MAX_TASKS];
    let (n, w) = parse_csv(csv, &mut tasks);
    assert_eq!(n, 4);
    assert!(w.is_empty());
    let r = run_simulation(&mut tasks, n);
    let starts: Vec<(i32, i32)> = r
        .events
        .iter()
        .filter_map(|e| match e {
            SimEvent::Started { time, task } => Some((*time, task.id)),
            _ => None,
        })
        .collect();
    // 1 runs 0..5; then 2 (critical) 5..7, due at 7, on time; 3 runs 7..11;
    // the clock then jumps to 30 for 4
    assert_eq!(starts, vec![(0, 1), (5, 2), (7, 3), (30, 4)]);
    assert_eq!(r.metrics.end_time, 33);
    assert_eq!(r.metrics.missed, 0);
    let m = r.metrics;
    check_run_laws(&r.events, m.done, m.total_wait, m.busy_time, m.missed, m.max_wait);
}
