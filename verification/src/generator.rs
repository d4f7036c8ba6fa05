//! Pseudo-random task generation for stress runs, driven by a 64-bit
//! linear congruential generator so that a seed fixes the whole task set.

use vstd::prelude::*;
use vstd::string::StringSliceAdditionalSpecFns;
use crate::task::{Task, MAX_TASKS, MAX_NAME, ST_PENDING, kept_name_len, zero_bytes};

verus! {

/// Multiplier of the generator.
pub const LCG_MUL: u64 = 6364136223846793005;
/// Increment of the generator.
pub const LCG_INC: u64 = 1442695040888963407;

/// One generator step: `state * LCG_MUL + LCG_INC`, wrapping at 2^64.
pub open spec fn lcg_step(state: u64) -> u64 {
    vstd::wrapping::u64_specs::wrapping_add(
        vstd::wrapping::u64_specs::wrapping_mul(state, LCG_MUL),
        LCG_INC,
    )
}

/// The state after `n` steps from `state`.
pub open spec fn lcg_iter(state: u64, n: nat) -> u64
    decreases n,
{
    if n == 0 {
        state
    } else {
        lcg_step(lcg_iter(state, (n - 1) as nat))
    }
}

/// The number a step yields: the top 31 bits of the new state.
pub open spec fn lcg_output(state: u64) -> int {
    (state >> 33u64) as int
}

/// The value in `[lo, hi]` drawn by the `n`-th step (counting from 1)
/// after `state`.
pub open spec fn draw(state: u64, n: nat, lo: int, hi: int) -> int {
    lo + lcg_output(lcg_iter(state, n)) % (hi - lo + 1)
}

/// Generator steps used per task: name, priority, arrival (only when the
/// spread is positive), deadline, duration.
pub open spec fn draws_per_task(arrival_spread: i32) -> nat {
    if arrival_spread > 0 { 5 } else { 4 }
}

/// The text of name number `k` of the fixed name list.
pub open spec fn name_text(k: int) -> Seq<char> {
    if k == 0 {
        "pick_up_box"@
    } else if k == 1 {
        "scan_shelf"@
    } else if k == 2 {
        "deliver_pkg"@
    } else if k == 3 {
        "charge_batt"@
    } else if k == 4 {
        "sort_items"@
    } else if k == 5 {
        "inspect_area"@
    } else if k == 6 {
        "move_pallet"@
    } else if k == 7 {
        "update_inv"@
    } else if k == 8 {
        "clean_zone"@
    } else {
        "emergency_chk"@
    }
}

/// `t` is task number `i` (from 0) generated from `seed` with the given
/// arrival spread: id `i + 1`, order `i`, pending, name, priority in 1..=4,
/// arrival in `0..=spread` (0 when the spread is not positive), relative
/// deadline in 10..=120 and duration in 1..=20, drawn in that order.
pub open spec fn is_generated_task(t: Task, seed: u64, arrival_spread: i32, i: int) -> bool {
    let d = draws_per_task(arrival_spread);
    let s = lcg_iter(seed, (i * d) as nat);
    let name = vstd::utf8::encode_utf8(name_text(draw(s, 1, 0, 9)));
    let len = kept_name_len(name.len() as int);
    let after_arrival: nat = if arrival_spread > 0 { 3 } else { 2 };
    &&& t.id == i + 1
    &&& t.order == i
    &&& t.status == ST_PENDING
    &&& t.name_len == len
    &&& t.name@ == name.take(len) + zero_bytes(MAX_NAME - len)
    &&& t.priority == draw(s, 2, 1, 4)
    &&& t.arrival == (if arrival_spread > 0 { draw(s, 3, 0, arrival_spread as int) } else { 0 })
    &&& t.deadline == draw(s, after_arrival + 1, 10, 120)
    &&& t.duration == draw(s, after_arrival + 2, 1, 20)
}

/// Generated tasks stay within the generator's ranges: id `i + 1`,
/// priority 1..=4, arrival 0..=spread (0 without spread), relative
/// deadline 10..=120, duration 1..=20.
pub proof fn law_generated_ranges(t: Task, seed: u64, arrival_spread: i32, i: int)
    requires
        is_generated_task(t, seed, arrival_spread, i),
    ensures
        t.id == i + 1,
        1 <= t.priority <= 4,
        arrival_spread > 0 ==> 0 <= t.arrival <= arrival_spread,
        arrival_spread <= 0 ==> t.arrival == 0,
        10 <= t.deadline <= 120,
        1 <= t.duration <= 20,
{
}

/// Generator state.
struct Rng {
    state: u64,
}

impl Rng {
    fn new(seed: u64) -> (r: Rng)
        ensures
            r.state == seed,
    {
        Rng { state: seed }
    }

    /// Advances one step and returns the top 31 bits of the new state.
    fn next(&mut self) -> (r: u64)
        ensures
            final(self).state == lcg_step(old(self).state),
            r == lcg_output(final(self).state),
            r < 0x8000_0000,
    {
        self.state = self.state.wrapping_mul(LCG_MUL).wrapping_add(LCG_INC);
        let s = self.state;
        assert(s >> 33u64 < 0x8000_0000u64) by (bit_vector);
        s >> 33
    }

    /// A value in `[lo, hi]` from one step.
    fn range(&mut self, lo: i32, hi: i32) -> (r: i32)
        requires
            lo <= hi,
            hi - lo + 1 <= i32::MAX,
        ensures
            final(self).state == lcg_step(old(self).state),
            r == lo + lcg_output(final(self).state) % (hi - lo + 1),
            lo <= r <= hi,
    {
        let span = (hi - lo + 1) as u64;
        let val = self.next() % span;
        lo + val as i32
    }
}

/// Name number `k` of the fixed list.
fn name_for(k: i32) -> (s: &'static str)
    ensures
        s@ == name_text(k as int),
{
    if k == 0 {
        "pick_up_box"
    } else if k == 1 {
        "scan_shelf"
    } else if k == 2 {
        "deliver_pkg"
    } else if k == 3 {
        "charge_batt"
    } else if k == 4 {
        "sort_items"
    } else if k == 5 {
        "inspect_area"
    } else if k == 6 {
        "move_pallet"
    } else if k == 7 {
        "update_inv"
    } else if k == 8 {
        "clean_zone"
    } else {
        "emergency_chk"
    }
}

proof fn lemma_iter_step(state: u64, n: nat)
    ensures
        lcg_iter(state, n + 1) == lcg_step(lcg_iter(state, n)),
{
}

/// Fills `output[0..n]` with `n = min(count, MAX_TASKS)` generated tasks
/// and returns `n`; the other slots are left as they were.
pub fn generate_tasks(output: &mut [Task; MAX_TASKS], count: usize, arrival_spread: i32, seed: u64) -> (n: usize)
    requires
        count == 0 || arrival_spread < i32::MAX,
    ensures
        n == (if count > MAX_TASKS { MAX_TASKS } else { count }),
        forall|i: int| 0 <= i < n ==> is_generated_task(#[trigger] final(output)@[i], seed, arrival_spread, i),
        forall|i: int| n <= i < MAX_TASKS ==> #[trigger] final(output)@[i] == old(output)@[i],
{
    let mut rng = Rng::new(seed);
    let num = if count > MAX_TASKS { MAX_TASKS } else { count };
    let mut i: usize = 0;
    while i < num
        invariant
            num == (if count > MAX_TASKS { MAX_TASKS } else { count }),
            i <= num,
            num > 0 ==> arrival_spread < i32::MAX,
            rng.state == lcg_iter(seed, (i * draws_per_task(arrival_spread)) as nat),
            forall|k: int| 0 <= k < i ==> is_generated_task(#[trigger] output@[k], seed, arrival_spread, k),
            forall|k: int| i <= k < MAX_TASKS ==> #[trigger] output@[k] == old(output)@[k],
        decreases num - i,
    {
        let ghost d = draws_per_task(arrival_spread);
        let ghost s = rng.state;
        let mut t = Task::empty();
        t.id = (i as i32) + 1;
        let name_idx = rng.range(0, 9);
        proof { lemma_iter_step(s, 0); }
        t.set_name(name_for(name_idx));
        t.priority = rng.range(1, 4);
        proof { lemma_iter_step(s, 1); }
        if arrival_spread > 0 {
            t.arrival = rng.range(0, arrival_spread);
            proof { lemma_iter_step(s, 2); }
        } else {
            t.arrival = 0;
        }
        let ghost a: nat = if arrival_spread > 0 { 3 } else { 2 };
        t.deadline = rng.range(10, 120);
        proof { lemma_iter_step(s, a); }
        t.duration = rng.range(1, 20);
        proof { lemma_iter_step(s, a + 1); }
        t.order = i as i32;
        proof {
            assert(s == lcg_iter(seed, (i * d) as nat));
            assert(((i + 1) * d) as nat == (i * d) as nat + d) by (nonlinear_arith);
            lemma_iter_shift(seed, (i * d) as nat, d);
            assert(rng.state == lcg_iter(s, d));
            assert(is_generated_task(t, seed, arrival_spread, i as int));
        }
        output[i] = t;
        i = i + 1;
    }
    num
}

/// Overload setting: gives each of the first `n` tasks a relative deadline
/// of its duration plus 2, barely enough to finish in time.
pub fn tighten_deadlines(tasks: &mut [Task; MAX_TASKS], n: usize)
    requires
        n <= MAX_TASKS,
        forall|i: int| 0 <= i < n ==> #[trigger] old(tasks)@[i].duration + 2 <= i32::MAX,
    ensures
        forall|i: int|
            0 <= i < n ==> #[trigger] final(tasks)@[i] == (Task {
                deadline: (old(tasks)@[i].duration + 2) as i32,
                ..old(tasks)@[i]
            }),
        forall|i: int| n <= i < MAX_TASKS ==> #[trigger] final(tasks)@[i] == old(tasks)@[i],
{
    let mut i: usize = 0;
    while i < n
        invariant
            n <= MAX_TASKS,
            i <= n,
            forall|k: int| 0 <= k < n ==> #[trigger] old(tasks)@[k].duration + 2 <= i32::MAX,
            forall|k: int|
                0 <= k < i ==> #[trigger] tasks@[k] == (Task {
                    deadline: (old(tasks)@[k].duration + 2) as i32,
                    ..old(tasks)@[k]
                }),
            forall|k: int| i <= k < MAX_TASKS ==> #[trigger] tasks@[k] == old(tasks)@[k],
        decreases n - i,
    {
        let mut t = tasks[i];
        t.deadline = t.duration + 2;
        tasks[i] = t;
        i = i + 1;
    }
}

/// Stepping `a` then `b` times is stepping `a + b` times.
proof fn lemma_iter_shift(state: u64, a: nat, b: nat)
    ensures
        lcg_iter(state, a + b) == lcg_iter(lcg_iter(state, a), b),
    decreases b,
{
    if b > 0 {
        lemma_iter_shift(state, a, (b - 1) as nat);
        assert((a + b - 1) as nat == a + (b - 1) as nat);
    }
}

} // verus!
