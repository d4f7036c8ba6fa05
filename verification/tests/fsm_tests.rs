use task_scheduler::fsm::{state_name, Fsm, STATE_IDLE, STATE_READY, STATE_RUNNING, STATE_SHUTDOWN};

#[test]
fn starts_idle() {
    let f = Fsm::new();
    assert_eq!(f.state, STATE_IDLE);
    assert_eq!(f.state_str(), "IDLE");
}

#[test]
fn allowed_transitions() {
    let mut f = Fsm::new();
    assert_eq!(f.transition(STATE_READY), 0);
    assert_eq!(f.transition(STATE_RUNNING), 0);
    assert_eq!(f.state_str(), "RUNNING");
    assert_eq!(f.transition(STATE_READY), 0);
    assert_eq!(f.transition(STATE_IDLE), 0);
    assert_eq!(f.transition(STATE_READY), 0);
    assert_eq!(f.transition(STATE_RUNNING), 0);
    assert_eq!(f.transition(STATE_IDLE), 0);
    assert_eq!(f.transition(STATE_SHUTDOWN), 0);
    assert_eq!(f.state_str(), "SHUTDOWN");
}

#[test]
fn refused_transitions_keep_the_state() {
    let mut f = Fsm::new();
    assert_eq!(f.transition(STATE_RUNNING), -1);
    assert_eq!(f.transition(STATE_IDLE), -1);
    assert_eq!(f.state, STATE_IDLE);
    f.transition(STATE_READY);
    assert_eq!(f.transition(STATE_SHUTDOWN), -1);
    assert_eq!(f.transition(STATE_READY), -1);
    assert_eq!(f.state, STATE_READY);
    f.transition(STATE_IDLE);
    f.transition(STATE_SHUTDOWN);
    for to in [STATE_IDLE, STATE_READY, STATE_RUNNING, STATE_SHUTDOWN, 17] {
        assert_eq!(f.transition(to), -1);
    }
    assert_eq!(f.state, STATE_SHUTDOWN);
}

#[test]
fn state_labels() {
    assert_eq!(state_name(0), "IDLE");
    assert_eq!(state_name(1), "READY");
    assert_eq!(state_name(2), "RUNNING");
    assert_eq!(state_name(3), "SHUTDOWN");
    assert_eq!(state_name(4), "UNKNOWN");
    assert_eq!(state_name(-1), "UNKNOWN");
}
