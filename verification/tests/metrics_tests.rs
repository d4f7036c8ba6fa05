use task_scheduler::metrics::Metrics;

#[test]
fn new_metrics_are_zero() {
    let m = Metrics::new();
    assert_eq!((m.total, m.done, m.missed, m.total_wait, m.max_wait, m.busy_time, m.end_time), (0, 0, 0, 0, 0, 0, 0));
}

#[test]
fn record_task_counts_wait_busy_and_misses() {
    let mut m = Metrics::new();
    // arrived 5, starts 20, runs 8, due 25: wait 15, finishes 28, missed
    m.record_task(5, 20, 8, 25);
    assert_eq!((m.done, m.total_wait, m.max_wait, m.busy_time, m.missed), (1, 15, 15, 8, 1));
    // arrived 28, starts 28, runs 2, due 30: no wait, finishes exactly on time
    m.record_task(28, 28, 2, 30);
    assert_eq!((m.done, m.total_wait, m.max_wait, m.busy_time, m.missed), (2, 15, 15, 10, 1));
    // a longer wait replaces the maximum
    m.record_task(0, 40, 1, 100);
    assert_eq!((m.done, m.total_wait, m.max_wait, m.busy_time, m.missed), (3, 55, 40, 11, 1));
}
