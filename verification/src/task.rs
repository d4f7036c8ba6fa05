//! The task record, its priority and lifecycle codes, and the arrival sort.

use vstd::prelude::*;
use vstd::string::StringSliceAdditionalSpecFns;

verus! {

/// Upper bound on the number of tasks in one simulation.
pub const MAX_TASKS: usize = 1024;

/// Number of bytes a task name can hold.
pub const MAX_NAME: usize = 64;

/// Priority levels: a higher number is more urgent.
pub const PRI_LOW: i32 = 1;
pub const PRI_MED: i32 = 2;
pub const PRI_HIGH: i32 = 3;
pub const PRI_CRIT: i32 = 4;

/// Lifecycle codes, in the order a task passes through them.
pub const ST_PENDING: i32 = 0;
pub const ST_QUEUED: i32 = 1;
pub const ST_READY: i32 = 2;
pub const ST_RUNNING: i32 = 3;
pub const ST_DONE: i32 = 4;

/// One task of the simulation.  The name is kept as raw bytes in a fixed
/// buffer, of which the first `name_len` are meaningful.
#[derive(Clone, Copy)]
pub struct Task {
    pub id: i32,
    pub name: [u8; MAX_NAME],
    pub name_len: usize,
    pub priority: i32,
    pub arrival: i32,
    pub deadline: i32,
    pub duration: i32,
    pub status: i32,
    pub order: i32,
}

/// The bytes of a task's name that are in use.
pub open spec fn name_bytes(t: Task) -> Seq<u8> {
    t.name@.take(t.name_len as int)
}

/// The all-zero task with status `ST_PENDING`.
pub open spec fn empty_task() -> Task {
    Task {
        id: 0,
        name: zero_name_buffer(),
        name_len: 0,
        priority: 0,
        arrival: 0,
        deadline: 0,
        duration: 0,
        status: ST_PENDING,
        order: 0,
    }
}

/// A name buffer of zero bytes.
pub open spec fn zero_name_buffer() -> [u8; MAX_NAME] {
    vstd::array::spec_array_fill_for_copy_type::<u8, MAX_NAME>(0u8)
}

/// `n` zero bytes.
pub open spec fn zero_bytes(n: int) -> Seq<u8> {
    Seq::new(n as nat, |i: int| 0u8)
}

/// Heap rank of a priority: 0 for critical down to 3 for low.
pub open spec fn rank_of(priority: i32) -> int {
    4 - priority
}

/// Absolute deadline: arrival time plus relative deadline.
pub open spec fn abs_deadline_of(t: Task) -> int {
    t.arrival + t.deadline
}

/// Number of bytes `set_name` keeps from a name of `n` bytes.
pub open spec fn kept_name_len(n: int) -> int {
    if n > MAX_NAME { MAX_NAME as int } else { n }
}

/// The name bytes in use form valid UTF-8, so the name reads as text.
pub open spec fn name_is_readable(t: Task) -> bool {
    vstd::utf8::valid_utf8(name_bytes(t))
}

impl Task {
    /// The blank task used to fill task arrays.
    pub fn empty() -> (t: Task)
        ensures
            t == empty_task(),
            t.name@ == Seq::new(MAX_NAME as nat, |i: int| 0u8),
    {
        let t = Task {
            id: 0,
            name: [0u8; MAX_NAME],
            name_len: 0,
            priority: 0,
            arrival: 0,
            deadline: 0,
            duration: 0,
            status: ST_PENDING,
            order: 0,
        };
        assert(t.name@ =~= Seq::new(MAX_NAME as nat, |i: int| 0u8));
        t
    }

    /// Stores the UTF-8 bytes of `s` as the name, cut to `MAX_NAME` bytes,
    /// like `strncpy`: the rest of the buffer is filled with zero bytes.
    pub fn set_name(&mut self, s: &str)
        ensures
            final(self).name_len == kept_name_len(s.spec_bytes().len() as int),
            final(self).name@ == s.spec_bytes().take(final(self).name_len as int)
                + zero_bytes(MAX_NAME - final(self).name_len),
            final(self).id == old(self).id,
            final(self).priority == old(self).priority,
            final(self).arrival == old(self).arrival,
            final(self).deadline == old(self).deadline,
            final(self).duration == old(self).duration,
            final(self).status == old(self).status,
            final(self).order == old(self).order,
    {
        let bytes = s.as_bytes();
        self.set_name_bytes(bytes);
    }

    /// Stores `bytes` as the name, cut to `MAX_NAME` bytes; the rest of the
    /// buffer is filled with zero bytes.
    pub fn set_name_bytes(&mut self, bytes: &[u8])
        ensures
            final(self).name_len == kept_name_len(bytes@.len() as int),
            final(self).name@ == bytes@.take(final(self).name_len as int)
                + zero_bytes(MAX_NAME - final(self).name_len),
            final(self).id == old(self).id,
            final(self).priority == old(self).priority,
            final(self).arrival == old(self).arrival,
            final(self).deadline == old(self).deadline,
            final(self).duration == old(self).duration,
            final(self).status == old(self).status,
            final(self).order == old(self).order,
    {
        let len = if bytes.len() > MAX_NAME { MAX_NAME } else { bytes.len() };
        let mut i: usize = 0;
        while i < len
            invariant
                len == kept_name_len(bytes@.len() as int),
                len <= bytes@.len(),
                len <= MAX_NAME,
                i <= len,
                self.name@ == bytes@.take(i as int) + old(self).name@.skip(i as int),
                self.id == old(self).id,
                self.priority == old(self).priority,
                self.arrival == old(self).arrival,
                self.deadline == old(self).deadline,
                self.duration == old(self).duration,
                self.status == old(self).status,
                self.order == old(self).order,
            decreases len - i,
        {
            self.name[i] = bytes[i];
            i = i + 1;
            assert(self.name@ =~= bytes@.take(i as int) + old(self).name@.skip(i as int));
        }
        let mut j: usize = len;
        while j < MAX_NAME
            invariant
                len == kept_name_len(bytes@.len() as int),
                len <= bytes@.len(),
                len <= j <= MAX_NAME,
                self.name@ == bytes@.take(len as int) + zero_bytes(j - len) + old(self).name@.skip(j as int),
                self.id == old(self).id,
                self.priority == old(self).priority,
                self.arrival == old(self).arrival,
                self.deadline == old(self).deadline,
                self.duration == old(self).duration,
                self.status == old(self).status,
                self.order == old(self).order,
            decreases MAX_NAME - j,
        {
            self.name[j] = 0u8;
            j = j + 1;
            assert(self.name@ =~= bytes@.take(len as int) + zero_bytes(j - len) + old(self).name@.skip(j as int));
        }
        assert(self.name@ =~= bytes@.take(len as int) + zero_bytes(MAX_NAME - len));
        self.name_len = len;
    }

    /// The name as text: the name bytes when they form valid UTF-8, and
    /// `???` otherwise.
    pub fn get_name(&self) -> (r: &str)
        requires
            self.name_len <= MAX_NAME,
        ensures
            name_is_readable(*self) ==> r.spec_bytes() == name_bytes(*self) && r@
                == vstd::utf8::decode_utf8(name_bytes(*self)),
            !name_is_readable(*self) ==> r@ == "???"@,
    {
        let used = &self.name[0..self.name_len];
        match utf8_text(used) {
            Some(s) => {
                proof {
                    vstd::utf8::encode_utf8_decode_utf8(s@);
                }
                s
            },
            None => "???",
        }
    }

    /// Heap rank: CRITICAL (4) becomes 0, LOW (1) becomes 3.
    pub fn rank(&self) -> (r: i32)
        requires
            rank_of(self.priority) <= i32::MAX,
        ensures
            r == rank_of(self.priority),
    {
        4 - self.priority
    }

    /// The absolute deadline, arrival plus relative deadline.
    pub fn abs_deadline(&self) -> (r: i32)
        requires
            i32::MIN <= abs_deadline_of(*self) <= i32::MAX,
        ensures
            r == abs_deadline_of(*self),
    {
        self.arrival + self.deadline
    }

    /// Readable label of the priority; anything that is not critical, high
    /// or medium reads as low.
    pub fn priority_str(&self) -> (r: &str)
        ensures
            self.priority == PRI_CRIT ==> r@ == "CRITICAL"@,
            self.priority == PRI_HIGH ==> r@ == "HIGH"@,
            self.priority == PRI_MED ==> r@ == "MEDIUM"@,
            self.priority != PRI_CRIT && self.priority != PRI_HIGH && self.priority != PRI_MED
                ==> r@ == "LOW"@,
    {
        if self.priority == PRI_CRIT {
            return "CRITICAL";
        }
        if self.priority == PRI_HIGH {
            return "HIGH";
        }
        if self.priority == PRI_MED {
            return "MEDIUM";
        }
        "LOW"
    }
}

/// A name of at most `MAX_NAME` bytes reads back as it was set: when the
/// task holds what `set_name` stores for `text`, the name is readable and
/// decodes to `text`.
pub proof fn law_name_round_trip(t: Task, text: Seq<char>)
    requires
        vstd::utf8::encode_utf8(text).len() <= MAX_NAME,
        t.name_len == kept_name_len(vstd::utf8::encode_utf8(text).len() as int),
        t.name@ == vstd::utf8::encode_utf8(text).take(t.name_len as int) + zero_bytes(
            MAX_NAME - t.name_len,
        ),
    ensures
        name_is_readable(t),
        vstd::utf8::decode_utf8(name_bytes(t)) == text,
{
    let b = vstd::utf8::encode_utf8(text);
    assert(name_bytes(t) =~= b);
    vstd::utf8::encode_utf8_valid_utf8(text);
    vstd::utf8::encode_utf8_decode_utf8(text);
}

/// Arrival times never decrease along `s`.
pub open spec fn sorted_by_arrival(s: Seq<Task>) -> bool {
    forall|a: int, b: int| 0 <= a < b < s.len() ==> #[trigger] s[a].arrival <= #[trigger] s[b].arrival
}

/// `p` rearranges `before` into `after` (`after[k] == before[p[k]]`, `p` one to
/// one), and tasks with equal arrival keep their relative order.
pub open spec fn stable_rearrangement(before: Seq<Task>, after: Seq<Task>, p: Seq<int>) -> bool {
    &&& p.len() == before.len()
    &&& after.len() == before.len()
    &&& forall|k: int| 0 <= k < p.len() ==> 0 <= #[trigger] p[k] < p.len()
    &&& forall|k: int| 0 <= k < p.len() ==> #[trigger] after[k] == before[p[k]]
    &&& forall|a: int, b: int| 0 <= a < b < p.len() ==> #[trigger] p[a] != #[trigger] p[b]
    &&& forall|a: int, b: int|
        0 <= a < b < p.len() && #[trigger] after[a].arrival == #[trigger] after[b].arrival
            ==> p[a] < p[b]
}

/// `after` is `before` sorted by arrival time, ties kept in their earlier order.
pub open spec fn is_stable_sort_by_arrival(before: Seq<Task>, after: Seq<Task>) -> bool {
    &&& sorted_by_arrival(after)
    &&& exists|p: Seq<int>| stable_rearrangement(before, after, p)
}

/// Swapping two neighbouring tasks whose arrivals are strictly out of order
/// keeps the rearrangement stable.
proof fn lemma_swap_keeps_stable(before: Seq<Task>, cur: Seq<Task>, p: Seq<int>, j: int)
    requires
        stable_rearrangement(before, cur, p),
        0 <= j,
        j + 1 < cur.len(),
        cur[j].arrival > cur[j + 1].arrival,
    ensures
        stable_rearrangement(
            before,
            cur.update(j, cur[j + 1]).update(j + 1, cur[j]),
            p.update(j, p[j + 1]).update(j + 1, p[j]),
        ),
{
    let after = cur.update(j, cur[j + 1]).update(j + 1, cur[j]);
    let q = p.update(j, p[j + 1]).update(j + 1, p[j]);
    assert forall|k: int| 0 <= k < q.len() implies #[trigger] after[k] == before[q[k]] by {
        if k == j {
        } else if k == j + 1 {
        } else {
        }
    }
    assert forall|a: int, b: int| 0 <= a < b < q.len() implies #[trigger] q[a] != #[trigger] q[b] by {
        let pa = if a == j { j + 1 } else if a == j + 1 { j } else { a };
        let pb = if b == j { j + 1 } else if b == j + 1 { j } else { b };
        assert(q[a] == p[pa]);
        assert(q[b] == p[pb]);
        if pa < pb {
            assert(p[pa] != p[pb]);
        } else {
            assert(p[pb] != p[pa]);
        }
    }
    assert forall|a: int, b: int|
        0 <= a < b < q.len() && #[trigger] after[a].arrival == #[trigger] after[b].arrival
            implies q[a] < q[b] by {
        let pa = if a == j { j + 1 } else if a == j + 1 { j } else { a };
        let pb = if b == j { j + 1 } else if b == j + 1 { j } else { b };
        assert(q[a] == p[pa] && after[a] == cur[pa]);
        assert(q[b] == p[pb] && after[b] == cur[pb]);
        assert(pa < pb);
        assert(cur[pa].arrival == cur[pb].arrival);
    }
}

/// How many leading tasks `sort_by_arrival` orders: `count`, or all of
/// them when `count` goes past the end.
pub open spec fn sorted_len(count: usize, len: nat) -> int {
    if count <= len { count as int } else { len as int }
}

/// Sorts the first `count` tasks by arrival time with a bubble sort, which
/// keeps tasks of equal arrival in the order they had.  Tasks from
/// `count` on are left in place.
pub fn sort_by_arrival(tasks: &mut [Task], count: usize)
    requires
        count <= old(tasks)@.len() || count == 1,
    ensures
        final(tasks)@.len() == old(tasks)@.len(),
        is_stable_sort_by_arrival(
            old(tasks)@.take(sorted_len(count, old(tasks)@.len())),
            final(tasks)@.take(sorted_len(count, old(tasks)@.len())),
        ),
        final(tasks)@.skip(sorted_len(count, old(tasks)@.len())) == old(tasks)@.skip(
            sorted_len(count, old(tasks)@.len()),
        ),
{
    if count <= 1 {
        proof {
            let n = sorted_len(count, old(tasks)@.len());
            let p = Seq::new(n as nat, |k: int| k);
            assert(stable_rearrangement(old(tasks)@.take(n), tasks@.take(n), p));
        }
        return;
    }
    let ghost before = tasks@.take(count as int);
    let ghost mut perm: Seq<int> = Seq::new(count as nat, |k: int| k);
    assert(stable_rearrangement(before, tasks@.take(count as int), perm));
    let mut i: usize = 0;
    while i < count
        invariant
            2 <= count <= tasks@.len(),
            tasks@.len() == old(tasks)@.len(),
            before == old(tasks)@.take(count as int),
            i <= count,
            tasks@.skip(count as int) == old(tasks)@.skip(count as int),
            stable_rearrangement(before, tasks@.take(count as int), perm),
            // the last `i` places hold the largest arrivals, in order
            forall|a: int, b: int|
                0 <= a < b < count && b >= count - i ==> #[trigger] tasks@[a].arrival
                    <= #[trigger] tasks@[b].arrival,
        decreases count - i,
    {
        let mut j: usize = 0;
        while j < count - 1 - i
            invariant
                2 <= count <= tasks@.len(),
                tasks@.len() == old(tasks)@.len(),
                before == old(tasks)@.take(count as int),
                i < count,
                j <= count - 1 - i,
                tasks@.skip(count as int) == old(tasks)@.skip(count as int),
                stable_rearrangement(before, tasks@.take(count as int), perm),
                forall|a: int, b: int|
                    0 <= a < b < count && b >= count - i ==> #[trigger] tasks@[a].arrival
                        <= #[trigger] tasks@[b].arrival,
                // the task at `j` has the largest arrival of places 0..=j
                forall|a: int| 0 <= a <= j ==> #[trigger] tasks@[a].arrival <= tasks@[j as int].arrival,
            decreases count - 1 - i - j,
        {
            if tasks[j].arrival > tasks[j + 1].arrival {
                let ghost cur = tasks@;
                proof {
                    lemma_swap_keeps_stable(before, cur.take(count as int), perm, j as int);
                    perm = perm.update(j as int, perm[j + 1]).update(j + 1, perm[j as int]);
                }
                let tmp = tasks[j];
                tasks[j] = tasks[j + 1];
                tasks[j + 1] = tmp;
                proof {
                    assert(tasks@ =~= cur.update(j as int, cur[j + 1]).update(j + 1, cur[j as int]));
                    assert(tasks@.take(count as int) =~= cur.take(count as int).update(
                        j as int,
                        cur[j + 1],
                    ).update(j + 1, cur[j as int]));
                    assert(tasks@.skip(count as int) =~= cur.skip(count as int));
                }
            }
            j = j + 1;
        }
        i = i + 1;
    }
    assert(sorted_by_arrival(tasks@.take(count as int)));
}

/// `std::str::from_utf8`: succeeds exactly when the bytes are valid UTF-8,
/// and then gives the text whose UTF-8 encoding is those bytes.
#[verifier::external_body]
fn utf8_text(bytes: &[u8]) -> (r: Option<&str>)
    ensures
        r is Some <==> vstd::utf8::valid_utf8(bytes@),
        r matches Some(s) ==> s.spec_bytes() == bytes@,
{
    std::str::from_utf8(bytes).ok()
}

} // verus!
