//! The scheduler's finite state machine.

use vstd::prelude::*;

verus! {

/// Nothing to do right now.
pub const STATE_IDLE: i32 = 0;
/// Tasks available, picking the next one.
pub const STATE_READY: i32 = 1;
/// Running a task.
pub const STATE_RUNNING: i32 = 2;
/// All done.
pub const STATE_SHUTDOWN: i32 = 3;

/// The machine: just its current state code.
pub struct Fsm {
    pub state: i32,
}

/// The edges of the machine: idle -> ready, idle -> shutdown,
/// ready -> running, ready -> idle, running -> idle, running -> ready.
pub open spec fn allowed_transition(from: i32, to: i32) -> bool {
    ||| from == STATE_IDLE && to == STATE_READY
    ||| from == STATE_IDLE && to == STATE_SHUTDOWN
    ||| from == STATE_READY && to == STATE_RUNNING
    ||| from == STATE_READY && to == STATE_IDLE
    ||| from == STATE_RUNNING && to == STATE_IDLE
    ||| from == STATE_RUNNING && to == STATE_READY
}

/// One of the four known state codes.
pub open spec fn known_state(s: i32) -> bool {
    s == STATE_IDLE || s == STATE_READY || s == STATE_RUNNING || s == STATE_SHUTDOWN
}

/// The label of a state code, as text.
pub open spec fn state_label_is(s: i32, text: Seq<char>) -> bool {
    &&& s == STATE_IDLE ==> text == "IDLE"@
    &&& s == STATE_READY ==> text == "READY"@
    &&& s == STATE_RUNNING ==> text == "RUNNING"@
    &&& s == STATE_SHUTDOWN ==> text == "SHUTDOWN"@
    &&& !known_state(s) ==> text == "UNKNOWN"@
}

/// Shutdown is final: no transition leaves it.
pub proof fn law_shutdown_is_final(to: i32)
    ensures
        !allowed_transition(STATE_SHUTDOWN, to),
{
}

/// Allowed transitions only connect known states, never a state to itself,
/// and only idle leads to shutdown.
pub proof fn law_transitions_stay_known(from: i32, to: i32)
    requires
        allowed_transition(from, to),
    ensures
        known_state(from),
        known_state(to),
        from != to,
        to == STATE_SHUTDOWN ==> from == STATE_IDLE,
{
}

impl Fsm {
    /// A machine in the idle state.
    pub fn new() -> (f: Fsm)
        ensures
            f.state == STATE_IDLE,
    {
        Fsm { state: STATE_IDLE }
    }

    /// Moves to `new_state` when the edge is allowed and returns 0;
    /// otherwise returns -1 and stays put.
    pub fn transition(&mut self, new_state: i32) -> (r: i32)
        ensures
            allowed_transition(old(self).state, new_state) ==> r == 0 && final(self).state == new_state,
            !allowed_transition(old(self).state, new_state) ==> r == -1 && final(self).state == old(self).state,
    {
        let from = self.state;
        let ok = (from == STATE_IDLE && new_state == STATE_READY)
            || (from == STATE_IDLE && new_state == STATE_SHUTDOWN)
            || (from == STATE_READY && new_state == STATE_RUNNING)
            || (from == STATE_READY && new_state == STATE_IDLE)
            || (from == STATE_RUNNING && new_state == STATE_IDLE)
            || (from == STATE_RUNNING && new_state == STATE_READY);
        if ok {
            self.state = new_state;
            0
        } else {
            -1
        }
    }

    /// The label of the current state.
    pub fn state_str(&self) -> (r: &str)
        ensures
            state_label_is(self.state, r@),
    {
        state_name(self.state)
    }
}

/// The label of a state code, `UNKNOWN` for any other code.
pub fn state_name(s: i32) -> (r: &'static str)
    ensures
        state_label_is(s, r@),
{
    if s == STATE_IDLE {
        return "IDLE";
    }
    if s == STATE_READY {
        return "READY";
    }
    if s == STATE_RUNNING {
        return "RUNNING";
    }
    if s == STATE_SHUTDOWN {
        return "SHUTDOWN";
    }
    "UNKNOWN"
}

} // verus!
