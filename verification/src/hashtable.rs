//! Hash table from task id to task record: 256 buckets with separate
//! chaining, the chain nodes taken from a fixed pool of 1024 slots and
//! linked by slot index (-1 ends a chain).

use vstd::prelude::*;
use crate::task::{Task, empty_task};

verus! {

/// Number of buckets.
pub const TABLE_SIZE: usize = 256;

/// Number of node slots shared by all chains.
pub const POOL_SIZE: usize = 1024;

/// One pool slot: a task, the slot of the next node of its chain (-1 at
/// the end), and whether the slot holds data (1) or is free (0).
#[derive(Clone, Copy)]
struct HashNode {
    task: Task,
    next: i32,
    used: i32,
}

impl HashNode {
    fn empty() -> (n: HashNode)
        ensures
            n.used == 0,
            n.next == -1,
            n.task == empty_task(),
    {
        HashNode { task: Task::empty(), next: -1, used: 0 }
    }
}

/// The bucket of an id: its absolute value modulo `TABLE_SIZE`.
pub open spec fn bucket_of(id: i32) -> int {
    (if id < 0 { -(id as int) } else { id as int }) % (TABLE_SIZE as int)
}

/// The bucket of `id`; the absolute value is taken in 64 bits, so every
/// id has one (`i32::MIN` falls in bucket 0).
fn hash_id(id: i32) -> (b: usize)
    ensures
        b == bucket_of(id),
        b < TABLE_SIZE,
{
    let wide: i64 = id as i64;
    let val: i64 = if wide < 0 { -wide } else { wide };
    (val as usize) % TABLE_SIZE
}

/// The slot after position `i` of `chain`, -1 after the last.
#[verifier::opaque]
spec fn next_slot(chain: Seq<int>, i: int) -> int {
    if i + 1 < chain.len() {
        chain[i + 1]
    } else {
        -1
    }
}

/// The first task with `id` along the chain of slots `chain`.
spec fn chain_find(pool: Seq<HashNode>, chain: Seq<int>, id: i32) -> Option<Task>
    decreases chain.len(),
{
    if chain.len() == 0 {
        None
    } else if pool[chain[0]].used == 1 && pool[chain[0]].task.id == id {
        Some(pool[chain[0]].task)
    } else {
        chain_find(pool, chain.drop_first(), id)
    }
}

/// Slot `k` holds the task with `id`.
spec fn node_matches(pool: Seq<HashNode>, k: int, id: i32) -> bool {
    pool[k].used == 1 && pool[k].task.id == id
}

/// Along `chain`, the two pools agree on which slots match `id` and on the
/// tasks of the matching slots.
spec fn agree_on(p1: Seq<HashNode>, p2: Seq<HashNode>, chain: Seq<int>, id: i32) -> bool {
    forall|i: int|
        0 <= i < chain.len() ==> {
            &&& node_matches(p1, #[trigger] chain[i], id) == node_matches(p2, chain[i], id)
            &&& node_matches(p1, chain[i], id) ==> p1[chain[i]].task == p2[chain[i]].task
        }
}

proof fn lemma_find_agree(p1: Seq<HashNode>, p2: Seq<HashNode>, chain: Seq<int>, id: i32)
    requires
        agree_on(p1, p2, chain, id),
    ensures
        chain_find(p1, chain, id) == chain_find(p2, chain, id),
    decreases chain.len(),
{
    if chain.len() > 0 {
        assert(node_matches(p1, chain[0], id) == node_matches(p2, chain[0], id));
        let rest = chain.drop_first();
        assert forall|i: int| 0 <= i < rest.len() implies {
            &&& node_matches(p1, #[trigger] rest[i], id) == node_matches(p2, rest[i], id)
            &&& node_matches(p1, rest[i], id) ==> p1[rest[i]].task == p2[rest[i]].task
        } by {
            assert(rest[i] == chain[i + 1]);
        }
        lemma_find_agree(p1, p2, rest, id);
    }
}

/// With no match before position `i`, the search may start at `i`.
proof fn lemma_find_skip(p: Seq<HashNode>, chain: Seq<int>, id: i32, i: int)
    requires
        0 <= i <= chain.len(),
        forall|j: int| 0 <= j < i ==> !node_matches(p, #[trigger] chain[j], id),
    ensures
        chain_find(p, chain, id) == chain_find(p, chain.skip(i), id),
    decreases i,
{
    if i > 0 {
        assert(!node_matches(p, chain[0], id));
        let rest = chain.drop_first();
        assert forall|j: int| 0 <= j < i - 1 implies !node_matches(p, #[trigger] rest[j], id) by {
            assert(rest[j] == chain[j + 1]);
        }
        lemma_find_skip(p, rest, id, i - 1);
        assert(rest.skip(i - 1) =~= chain.skip(i));
    } else {
        assert(chain.skip(0) =~= chain);
    }
}

/// What a lookup of `id` in a map answers.
pub open spec fn map_lookup(m: Map<i32, Task>, id: i32) -> Option<Task> {
    if m.dom().contains(id) {
        Some(m[id])
    } else {
        None
    }
}

/// `m` with the status of the task stored under `id` set to `status`.
pub open spec fn with_status(m: Map<i32, Task>, id: i32, status: i32) -> Map<i32, Task> {
    m.insert(id, Task { status: status, ..m[id] })
}

/// A lookup after storing `t` finds `t` under its id and finds the same as
/// before under any other id.
pub proof fn law_lookup_after_insert(m: Map<i32, Task>, t: Task, id: i32)
    ensures
        map_lookup(m.insert(t.id, t), id) == if id == t.id {
            Some(t)
        } else {
            map_lookup(m, id)
        },
{
}

/// A lookup after a status update finds the stored task with the new
/// status and every other field as before, and the same as before under
/// any other id.
pub proof fn law_lookup_after_status_update(m: Map<i32, Task>, id: i32, status: i32, other: i32)
    requires
        m.dom().contains(id),
    ensures
        map_lookup(with_status(m, id, status), id) == Some(Task { status: status, ..m[id] }),
        other != id ==> map_lookup(with_status(m, id, status), other) == map_lookup(m, other),
{
}

/// A call that changes the table: storing a task, or setting the status
/// of the task stored under an id.
pub enum TableOp {
    Insert(Task),
    SetStatus(i32, i32),
}

/// The contents and the number of free pool slots after `op`, from
/// contents `m` with `free` free slots: a store of an id already present,
/// or with no free slot, changes nothing; a status update of an absent id
/// changes nothing.
pub open spec fn table_step(m: Map<i32, Task>, free: nat, op: TableOp) -> (Map<i32, Task>, nat) {
    match op {
        TableOp::Insert(t) => if m.dom().contains(t.id) || free == 0 {
            (m, free)
        } else {
            (m.insert(t.id, t), (free - 1) as nat)
        },
        TableOp::SetStatus(id, status) => if m.dom().contains(id) {
            (with_status(m, id, status), free)
        } else {
            (m, free)
        },
    }
}

/// The contents and free slots of a new table after the calls `ops`.
pub open spec fn replay(ops: Seq<TableOp>) -> (Map<i32, Task>, nat)
    decreases ops.len(),
{
    if ops.len() == 0 {
        (Map::empty(), POOL_SIZE as nat)
    } else {
        let before = replay(ops.drop_last());
        table_step(before.0, before.1, ops.last())
    }
}

/// Call `i` of `ops` stored a task under `id`: it is a store of a task with
/// that id, made when the id was absent and a pool slot was free.
pub open spec fn stored_at(ops: Seq<TableOp>, i: int, id: i32) -> bool {
    let before = replay(ops.take(i));
    &&& 0 <= i < ops.len()
    &&& ops[i] matches TableOp::Insert(t) && t.id == id
    &&& !before.0.dom().contains(id)
    &&& before.1 > 0
}

/// The status that the task stored under `id` by call `i` has after
/// `ops`: that of the last later status update of `id`, else `status`.
pub open spec fn status_after(ops: Seq<TableOp>, i: int, id: i32, status: i32) -> i32
    decreases ops.len(),
{
    if ops.len() == 0 || ops.len() <= i + 1 {
        status
    } else {
        match ops.last() {
            TableOp::SetStatus(x, st) => if x == id {
                st
            } else {
                status_after(ops.drop_last(), i, id, status)
            },
            _ => status_after(ops.drop_last(), i, id, status),
        }
    }
}

/// A lookup after any history of calls on a new table finds a task under
/// `id` exactly when some call stored one under `id`; it then finds that
/// task, with the status of the last later status update of `id`.
pub proof fn law_lookup_after_history(ops: Seq<TableOp>, id: i32)
    ensures
        map_lookup(replay(ops).0, id) is Some <==> exists|i: int| #[trigger] stored_at(ops, i, id),
        forall|i: int|
            #[trigger] stored_at(ops, i, id) ==> (ops[i] matches TableOp::Insert(t) && map_lookup(replay(ops).0, id)
                == Some(Task { status: status_after(ops, i, id, t.status), ..t })),
    decreases ops.len(),
{
    if ops.len() > 0 {
        let prev = ops.drop_last();
        let last = ops.len() - 1;
        law_lookup_after_history(prev, id);
        let m0 = replay(prev).0;
        let m = replay(ops).0;
        assert(ops.last() == ops[last]);
        assert(ops.take(last) =~= prev);
        assert(replay(ops) == table_step(m0, replay(prev).1, ops.last()));
        assert forall|i: int| 0 <= i < last implies #[trigger] stored_at(ops, i, id) == stored_at(prev, i, id) by {
            assert(ops.take(i) =~= prev.take(i));
            assert(ops[i] == prev[i]);
        }
        match ops.last() {
            TableOp::Insert(t) => {
                if t.id == id && !m0.dom().contains(id) && replay(prev).1 > 0 {
                    assert(stored_at(ops, last, id));
                    assert(m[id] == t);
                    assert forall|i: int| #[trigger] stored_at(ops, i, id) implies i == last by {
                        if i < last {
                            assert(stored_at(prev, i, id));
                        }
                    }
                    assert(status_after(ops, last, id, t.status) == t.status);
                } else {
                    assert(!stored_at(ops, last, id));
                    assert(map_lookup(m, id) == map_lookup(m0, id));
                    assert forall|i: int| #[trigger] stored_at(ops, i, id) implies (ops[i] matches TableOp::Insert(u)
                        && map_lookup(m, id) == Some(Task { status: status_after(ops, i, id, u.status), ..u })) by {
                        assert(i < last);
                        assert(stored_at(prev, i, id));
                        assert(ops[i] == prev[i]);
                        if let TableOp::Insert(u) = ops[i] {
                            assert(status_after(ops, i, id, u.status) == status_after(prev, i, id, u.status));
                        }
                    }
                    if exists|i: int| #[trigger] stored_at(prev, i, id) {
                        let i = choose|i: int| #[trigger] stored_at(prev, i, id);
                        assert(stored_at(ops, i, id));
                    }
                    if exists|i: int| #[trigger] stored_at(ops, i, id) {
                        let i = choose|i: int| #[trigger] stored_at(ops, i, id);
                        assert(stored_at(prev, i, id));
                    }
                }
            },
            TableOp::SetStatus(x, st) => {
                assert(!stored_at(ops, last, id));
                assert(m.dom().contains(id) == m0.dom().contains(id));
                assert forall|i: int| #[trigger] stored_at(ops, i, id) implies (ops[i] matches TableOp::Insert(u)
                    && map_lookup(m, id) == Some(Task { status: status_after(ops, i, id, u.status), ..u })) by {
                    assert(i < last);
                    assert(stored_at(prev, i, id));
                    assert(ops[i] == prev[i]);
                    if let TableOp::Insert(u) = ops[i] {
                        if x == id {
                            assert(status_after(ops, i, id, u.status) == st);
                        } else {
                            assert(status_after(ops, i, id, u.status) == status_after(prev, i, id, u.status));
                        }
                    }
                }
                if exists|i: int| #[trigger] stored_at(prev, i, id) {
                    let i = choose|i: int| #[trigger] stored_at(prev, i, id);
                    assert(stored_at(ops, i, id));
                }
                if exists|i: int| #[trigger] stored_at(ops, i, id) {
                    let i = choose|i: int| #[trigger] stored_at(ops, i, id);
                    assert(stored_at(prev, i, id));
                }
            },
        }
    }
}

/// Outcome of `HashTable::insert`.
#[derive(PartialEq, Eq, Structural, Clone, Copy, Debug)]
pub enum TableInsert {
    /// The task was stored.
    Inserted,
    /// A task with that id is already stored; nothing changed.
    DuplicateId,
    /// Every pool slot is in use; nothing changed.
    PoolFull,
}

/// Task records keyed by id.
pub struct HashTable {
    buckets: [i32; TABLE_SIZE],
    pool: [HashNode; POOL_SIZE],
    pool_next: usize,
    /// The slots of each bucket's chain, head first.
    chains: Ghost<Seq<Seq<int>>>,
}

impl HashTable {
    spec fn find(&self, id: i32) -> Option<Task> {
        chain_find(self.pool@, self.chains@[bucket_of(id)], id)
    }

    /// The stored tasks by id.
    pub closed spec fn view(&self) -> Map<i32, Task> {
        Map::new(|id: i32| self.find(id) is Some, |id: i32| self.find(id)->0)
    }

    spec fn chain_ok(&self, b: int) -> bool {
        let c = self.chains@[b];
        &&& self.buckets@[b] == (if c.len() > 0 { c[0] } else { -1 })
        &&& forall|i: int|
            0 <= i < c.len() ==> {
                let k = #[trigger] c[i];
                &&& 0 <= k < self.pool_next
                &&& self.pool@[k].used == 1
                &&& bucket_of(self.pool@[k].task.id) == b
                &&& self.pool@[k].next == next_slot(c, i)
            }
    }

    /// The internal invariant: the chains are well linked and every slot
    /// below `pool_next` is in use (nothing is ever removed).
    pub closed spec fn wf(&self) -> bool {
        &&& self.links_ok()
        &&& forall|k: int| 0 <= k < self.pool_next ==> #[trigger] self.pool@[k].used == 1
    }

    /// Slots never handed out yet.
    pub closed spec fn free_slots(&self) -> nat {
        (POOL_SIZE - self.pool_next) as nat
    }

    /// Each bucket heads a well-linked chain of used slots below
    /// `pool_next` whose ids hash to that bucket, and no slot is on two
    /// chains or twice on one.
    spec fn links_ok(&self) -> bool {
        &&& self.pool_next <= POOL_SIZE
        &&& self.chains@.len() == TABLE_SIZE
        &&& forall|b: int| 0 <= b < TABLE_SIZE ==> #[trigger] self.chain_ok(b)
        &&& forall|b1: int, i1: int, b2: int, i2: int|
            0 <= b1 < TABLE_SIZE && 0 <= b2 < TABLE_SIZE && 0 <= i1 < self.chains@[b1].len() && 0
                <= i2 < self.chains@[b2].len() && #[trigger] self.chains@[b1][i1]
                == #[trigger] self.chains@[b2][i2] ==> b1 == b2 && i1 == i2
    }

    proof fn lemma_view_lookup(&self, id: i32)
        ensures
            map_lookup(self@, id) == self.find(id),
    {
    }

    /// Looks up the task stored under `id`, returning a copy of it.
    pub fn lookup(&self, id: i32) -> (r: Option<Task>)
        requires
            self.wf(),
        ensures
            r == map_lookup(self@, id),
    {
        proof {
            self.lemma_view_lookup(id);
        }
        let b = hash_id(id);
        let mut cur = self.buckets[b];
        let ghost chain = self.chains@[b as int];
        let ghost mut i: int = 0;
        assert(self.chain_ok(b as int));
        assert(chain.skip(0) =~= chain);
        while cur >= 0
            invariant
                self.wf(),
                b == bucket_of(id),
                chain == self.chains@[b as int],
                self.chain_ok(b as int),
                0 <= i <= chain.len(),
                cur == (if i < chain.len() { chain[i] } else { -1 }),
                self.find(id) == chain_find(self.pool@, chain.skip(i), id),
            decreases chain.len() - i,
        {
            let node = &self.pool[cur as usize];
            proof {
                assert(chain.skip(i)[0] == chain[i]);
            }
            if node.used == 1 && node.task.id == id {
                return Some(node.task);
            }
            cur = node.next;
            proof {
                assert(cur == (if i + 1 < chain.len() { chain[i + 1] } else { -1 })) by {
                    reveal(next_slot);
                }
                assert(chain.skip(i).drop_first() =~= chain.skip(i + 1));
                i = i + 1;
            }
        }
        None
    }

    /// Finds a free slot: the first freed slot below `pool_next`, else the
    /// next fresh one.  Returns -1 when every slot is in use.
    fn alloc_node(&mut self) -> (r: i32)
        requires
            old(self).wf(),
        ensures
            final(self).links_ok(),
            r == -1 ==> *final(self) == *old(self),
            r != -1 ==> r == old(self).pool_next && final(self).pool_next == old(self).pool_next + 1,
            final(self).pool == old(self).pool,
            final(self).buckets == old(self).buckets,
            final(self).chains == old(self).chains,
            r == -1 ==> final(self).pool_next == POOL_SIZE && forall|k: int|
                0 <= k < POOL_SIZE ==> #[trigger] old(self).pool@[k].used != 0,
            r != -1 ==> 0 <= r < final(self).pool_next && old(self).pool@[r as int].used == 0 || r
                == old(self).pool_next,
            r != -1 ==> 0 <= r < final(self).pool_next <= POOL_SIZE,
            r != -1 ==> forall|b2: int, i2: int|
                0 <= b2 < TABLE_SIZE && 0 <= i2 < final(self).chains@[b2].len()
                    ==> #[trigger] final(self).chains@[b2][i2] != r,
    {
        let mut i: usize = 0;
        while i < self.pool_next
            invariant
                self.wf(),
                *self == *old(self),
                i <= self.pool_next,
                forall|k: int| 0 <= k < i ==> #[trigger] self.pool@[k].used != 0,
            decreases self.pool_next - i,
        {
            if self.pool[i].used == 0 {
                proof {
                    assert forall|b2: int, i2: int|
                        0 <= b2 < TABLE_SIZE && 0 <= i2 < self.chains@[b2].len()
                            implies #[trigger] self.chains@[b2][i2] != i by {
                        assert(self.chain_ok(b2));
                    }
                }
                return i as i32;
            }
            i = i + 1;
        }
        if self.pool_next >= POOL_SIZE {
            return -1;
        }
        let idx = self.pool_next;
        self.pool_next = self.pool_next + 1;
        assert(self.links_ok()) by {
            assert forall|b: int| 0 <= b < TABLE_SIZE implies #[trigger] self.chain_ok(b) by {
                assert(old(self).chain_ok(b));
            }
        }
        assert forall|b2: int, i2: int|
            0 <= b2 < TABLE_SIZE && 0 <= i2 < self.chains@[b2].len()
                implies #[trigger] self.chains@[b2][i2] != idx by {
            assert(old(self).chain_ok(b2));
        }
        idx as i32
    }

    /// Stores `task` under its id, at the head of its bucket's chain.
    /// Nothing changes when the id is already stored or every pool slot is
    /// in use.
    pub fn insert(&mut self, task: Task) -> (r: TableInsert)
        requires
            old(self).wf(),
        ensures
            final(self).wf(),
            old(self)@.dom().contains(task.id) ==> r == TableInsert::DuplicateId,
            r == TableInsert::Inserted ==> final(self)@ == old(self)@.insert(task.id, task),
            r != TableInsert::Inserted ==> final(self)@ == old(self)@,
            r == TableInsert::PoolFull ==> !old(self)@.dom().contains(task.id),
            !old(self)@.dom().contains(task.id) && r != TableInsert::Inserted ==> r
                == TableInsert::PoolFull,
            r == TableInsert::PoolFull <==> !old(self)@.dom().contains(task.id) && old(self).free_slots() == 0,
            r == TableInsert::Inserted ==> final(self).free_slots() + 1 == old(self).free_slots(),
            r != TableInsert::Inserted ==> final(self).free_slots() == old(self).free_slots(),
            (final(self)@, final(self).free_slots()) == table_step(
                old(self)@,
                old(self).free_slots(),
                TableOp::Insert(task),
            ),
    {
        if self.lookup(task.id).is_some() {
            return TableInsert::DuplicateId;
        }
        proof {
            self.lemma_view_lookup(task.id);
        }
        let ghost old_view = self@;
        let ghost before = *self;
        let slot = self.alloc_node();
        if slot < 0 {
            proof {
                HashTable::lemma_same_view(before, *self);
            }
            return TableInsert::PoolFull;
        }
        let idx = slot as usize;
        let b = hash_id(task.id);
        let ghost mid = *self;
        let head = self.buckets[b];
        self.pool[idx] = HashNode { task: task, next: head, used: 1 };
        self.buckets[b] = slot;
        proof {
            self.chains@ = mid.chains@.update(b as int, seq![idx as int] + mid.chains@[b as int]);
            HashTable::lemma_push_front_wf(mid, *self, idx as int, b as int, task);
            HashTable::lemma_same_view(before, mid);
            HashTable::lemma_push_front_view(mid, *self, idx as int, b as int, task);
        }
        TableInsert::Inserted
    }

    /// Sets the status of the task stored under `id`.  Returns 0, or -1 with
    /// nothing changed when no task has that id.
    pub fn update_status(&mut self, id: i32, new_status: i32) -> (r: i32)
        requires
            old(self).wf(),
        ensures
            final(self).wf(),
            old(self)@.dom().contains(id) ==> r == 0 && final(self)@ == with_status(
                old(self)@,
                id,
                new_status,
            ),
            !old(self)@.dom().contains(id) ==> r == -1 && final(self)@ == old(self)@,
            final(self).free_slots() == old(self).free_slots(),
            (final(self)@, final(self).free_slots()) == table_step(
                old(self)@,
                old(self).free_slots(),
                TableOp::SetStatus(id, new_status),
            ),
    {
        proof {
            self.lemma_view_lookup(id);
        }
        let b = hash_id(id);
        let (slot, Ghost(i)) = self.find_slot(id, b);
        if slot < 0 {
            return -1;
        }
        let idx = slot as usize;
        let ghost pre = *self;
        let mut node = self.pool[idx];
        node.task.status = new_status;
        self.pool[idx] = node;
        proof {
            HashTable::lemma_status_set(pre, *self, b as int, i, id, new_status);
        }
        0
    }

    /// The slot of the first node of bucket `b`'s chain holding `id`, with its
    /// position on the chain, or -1 when there is none.
    fn find_slot(&self, id: i32, b: usize) -> (r: (i32, Ghost<int>))
        requires
            self.wf(),
            b == bucket_of(id),
        ensures
            r.0 >= 0 ==> {
                &&& r.0 < POOL_SIZE
                &&& 0 <= r.1@ < self.chains@[b as int].len()
                &&& r.0 == self.chains@[b as int][r.1@]
                &&& node_matches(self.pool@, r.0 as int, id)
                &&& forall|j: int|
                    0 <= j < r.1@ ==> !#[trigger] node_matches(self.pool@, self.chains@[b as int][j], id)
            },
            r.0 < 0 ==> r.0 == -1 && !self@.dom().contains(id),
    {
        let mut cur = self.buckets[b];
        let ghost chain = self.chains@[b as int];
        let ghost mut i: int = 0;
        assert(self.chain_ok(b as int));
        let ghost pool = self.pool@;
        while cur >= 0
            invariant
                self.pool_next <= POOL_SIZE,
                pool == self.pool@,
                chain == self.chains@[b as int],
                self.chain_ok(b as int),
                0 <= i <= chain.len(),
                cur == (if i < chain.len() { chain[i] } else { -1 }),
                forall|j: int| 0 <= j < i ==> !#[trigger] node_matches(pool, chain[j], id),
            decreases chain.len() - i,
        {
            let idx = cur as usize;
            if self.pool[idx].used == 1 && self.pool[idx].task.id == id {
                return (cur, Ghost(i));
            }
            cur = self.pool[idx].next;
            proof {
                assert(cur == (if i + 1 < chain.len() { chain[i + 1] } else { -1 })) by {
                    reveal(next_slot);
                }
                i = i + 1;
            }
        }
        proof {
            self.lemma_view_lookup(id);
            lemma_find_skip(self.pool@, chain, id, chain.len() as int);
            assert(chain.skip(chain.len() as int) =~= Seq::<int>::empty());
        }
        (-1, Ghost(0))
    }

    /// Setting the status in the first slot of bucket `b`'s chain that holds
    /// `id` keeps the invariant and changes the view by that status alone.
    proof fn lemma_status_set(pre: HashTable, post: HashTable, b: int, i: int, id: i32, st: i32)
        requires
            pre.wf(),
            b == bucket_of(id),
            0 <= i < pre.chains@[b].len(),
            node_matches(pre.pool@, pre.chains@[b][i], id),
            forall|j: int| 0 <= j < i ==> !node_matches(pre.pool@, #[trigger] pre.chains@[b][j], id),
            post.pool_next == pre.pool_next,
            post.buckets == pre.buckets,
            post.chains == pre.chains,
            post.pool@ == pre.pool@.update(
                pre.chains@[b][i],
                HashNode {
                    task: Task { status: st, ..pre.pool@[pre.chains@[b][i]].task },
                    ..pre.pool@[pre.chains@[b][i]]
                },
            ),
        ensures
            post.wf(),
            pre@.dom().contains(id),
            post@ == with_status(pre@, id, st),
    {
        let k = pre.chains@[b][i];
        let c = pre.chains@[b];
        let p1 = pre.pool@;
        let p2 = post.pool@;
        assert(pre.chain_ok(b));
        assert forall|b2: int| 0 <= b2 < TABLE_SIZE implies #[trigger] post.chain_ok(b2) by {
            assert(pre.chain_ok(b2));
        }
        // the first match of `id` before and after
        lemma_find_skip(p1, c, id, i);
        assert forall|j: int| 0 <= j < i implies !node_matches(p2, #[trigger] c[j], id) by {
            assert(c[j] != k);
        }
        lemma_find_skip(p2, c, id, i);
        assert(c.skip(i)[0] == k);
        pre.lemma_view_lookup(id);
        let target = with_status(pre@, id, st);
        assert forall|id2: i32| #[trigger] post.find(id2) == map_lookup(target, id2) by {
            pre.lemma_view_lookup(id2);
            if id2 != id {
                let c2 = pre.chains@[bucket_of(id2)];
                assert(pre.chain_ok(bucket_of(id2)));
                assert forall|j: int| 0 <= j < c2.len() implies {
                    &&& node_matches(p1, #[trigger] c2[j], id2) == node_matches(p2, c2[j], id2)
                    &&& node_matches(p1, c2[j], id2) ==> p1[c2[j]].task == p2[c2[j]].task
                } by {
                }
                lemma_find_agree(p1, p2, c2, id2);
            }
        }
        assert forall|id2: i32| #[trigger] post@.dom().contains(id2) == target.dom().contains(id2) by {
            assert(post.find(id2) == map_lookup(target, id2));
        }
        assert forall|id2: i32| post@.dom().contains(id2) implies #[trigger] post@[id2] == target[id2] by {
            assert(post.find(id2) == map_lookup(target, id2));
        }
        assert(post@ =~= target);
    }

    proof fn lemma_same_view(a: HashTable, b: HashTable)
        requires
            a.pool == b.pool,
            a.chains == b.chains,
        ensures
            a@ == b@,
    {
        assert(a@ =~= b@);
    }

    /// State after linking a fresh node for `task` in slot `idx` at the head
    /// of bucket `b`.
    spec fn pushed_front(mid: HashTable, post: HashTable, idx: int, b: int, task: Task) -> bool {
        &&& mid.links_ok()
        &&& 0 <= idx
        &&& idx + 1 == mid.pool_next
        &&& forall|k: int| 0 <= k < idx ==> #[trigger] mid.pool@[k].used == 1
        &&& 0 <= b < TABLE_SIZE
        &&& b == bucket_of(task.id)
        &&& forall|b2: int, i2: int|
            0 <= b2 < TABLE_SIZE && 0 <= i2 < mid.chains@[b2].len() ==> #[trigger] mid.chains@[b2][i2]
                != idx
        &&& post.pool_next == mid.pool_next
        &&& post.pool@ == mid.pool@.update(idx, HashNode { task: task, next: mid.buckets@[b], used: 1 })
        &&& post.buckets@ == mid.buckets@.update(b, idx as i32)
        &&& post.chains@ == mid.chains@.update(b, seq![idx] + mid.chains@[b])
    }

    proof fn lemma_push_front_wf(mid: HashTable, post: HashTable, idx: int, b: int, task: Task)
        requires
            HashTable::pushed_front(mid, post, idx, b, task),
        ensures
            post.wf(),
    {
        assert(mid.links_ok());
        let c = mid.chains@[b];
        assert forall|b2: int| 0 <= b2 < TABLE_SIZE implies #[trigger] post.chain_ok(b2) by {
            assert(mid.chain_ok(b2));
            let c2 = post.chains@[b2];
            assert forall|i: int| 0 <= i < c2.len() implies {
                let k = #[trigger] c2[i];
                &&& 0 <= k < post.pool_next
                &&& post.pool@[k].used == 1
                &&& bucket_of(post.pool@[k].task.id) == b2
                &&& post.pool@[k].next == next_slot(c2, i)
            } by {
                reveal(next_slot);
                if b2 == b {
                    if i > 0 {
                        assert(c2[i] == c[i - 1]);
                    }
                    if i + 1 < c2.len() {
                        assert(c2[i + 1] == c[i]);
                    }
                } else {
                    assert(c2[i] == mid.chains@[b2][i]);
                    assert(c2[i] != idx);
                }
            }
        }
        assert forall|b1: int, i1: int, b2: int, i2: int|
            0 <= b1 < TABLE_SIZE && 0 <= b2 < TABLE_SIZE && 0 <= i1 < post.chains@[b1].len() && 0
                <= i2 < post.chains@[b2].len() && #[trigger] post.chains@[b1][i1]
                == #[trigger] post.chains@[b2][i2] implies b1 == b2 && i1 == i2 by {
            let o1 = if b1 == b { i1 - 1 } else { i1 };
            let o2 = if b2 == b { i2 - 1 } else { i2 };
            if o1 >= 0 {
                assert(post.chains@[b1][i1] == mid.chains@[b1][o1]);
            }
            if o2 >= 0 {
                assert(post.chains@[b2][i2] == mid.chains@[b2][o2]);
            }
        }
    }

    proof fn lemma_push_front_view(mid: HashTable, post: HashTable, idx: int, b: int, task: Task)
        requires
            HashTable::pushed_front(mid, post, idx, b, task),
            mid.find(task.id) is None,
        ensures
            post@ == mid@.insert(task.id, task),
    {
        assert(mid.links_ok());
        let p1 = mid.pool@;
        let p2 = post.pool@;
        let target = mid@.insert(task.id, task);
        assert forall|id: i32| #[trigger] post.find(id) == map_lookup(target, id) by {
            mid.lemma_view_lookup(id);
            let bi = bucket_of(id);
            let ci = mid.chains@[bi];
            assert(mid.chain_ok(bi));
            assert forall|i: int| 0 <= i < ci.len() implies {
                &&& node_matches(p1, #[trigger] ci[i], id) == node_matches(p2, ci[i], id)
                &&& node_matches(p1, ci[i], id) ==> p1[ci[i]].task == p2[ci[i]].task
            } by {
                assert(ci[i] != idx);
            }
            lemma_find_agree(p1, p2, ci, id);
            if bi == b {
                assert(post.chains@[bi].drop_first() =~= ci);
            }
        }
        assert forall|id: i32| #[trigger] post@.dom().contains(id) == target.dom().contains(id) by {
            assert(post.find(id) == map_lookup(target, id));
        }
        assert forall|id: i32| post@.dom().contains(id) implies #[trigger] post@[id] == target[id] by {
            assert(post.find(id) == map_lookup(target, id));
        }
        assert(post@ =~= target);
    }

    /// The empty table.
    pub fn new() -> (t: HashTable)
        ensures
            t.wf(),
            t@ == Map::<i32, Task>::empty(),
            t.free_slots() == POOL_SIZE,
            (t@, t.free_slots()) == replay(Seq::empty()),
    {
        let t = HashTable {
            buckets: [-1; TABLE_SIZE],
            pool: [HashNode::empty(); POOL_SIZE],
            pool_next: 0,
            chains: Ghost(Seq::new(TABLE_SIZE as nat, |b: int| Seq::<int>::empty())),
        };
        assert forall|b: int| 0 <= b < TABLE_SIZE implies #[trigger] t.chain_ok(b) by {
            assert(t.buckets@[b] == -1);
        }
        assert(t@ =~= Map::<i32, Task>::empty());
        t
    }
}

} // verus!
