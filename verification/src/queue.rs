//! Bounded circular FIFO queue of task ids, the arrival buffer.

use vstd::prelude::*;

verus! {

/// Most ids the queue can hold.
pub const QUEUE_CAP: usize = 1024;

/// First in, first out: enqueuing behind a non-empty queue does not change
/// which id comes out next, and dequeuing commutes with enqueuing behind it.
pub proof fn law_fifo(q: Seq<i32>, x: i32)
    requires
        q.len() > 0,
    ensures
        q.push(x)[0] == q[0],
        q.push(x).drop_first() == q.drop_first().push(x),
{
    assert(q.push(x).drop_first() =~= q.drop_first().push(x));
}

/// Ring buffer: `count` ids starting at `front`, wrapping around the end;
/// `rear` is the slot the next id goes to.
pub struct Queue {
    data: [i32; QUEUE_CAP],
    front: usize,
    rear: usize,
    count: usize,
}

impl Queue {
    /// The ids held, oldest first.
    pub closed spec fn view(&self) -> Seq<i32> {
        Seq::new(self.count as nat, |k: int| self.data@[(self.front + k) % (QUEUE_CAP as int)])
    }

    /// The internal invariant of the ring buffer.
    pub closed spec fn wf(&self) -> bool {
        &&& self.front < QUEUE_CAP
        &&& self.rear < QUEUE_CAP
        &&& self.count <= QUEUE_CAP
        &&& self.rear == (self.front + self.count) % (QUEUE_CAP as int)
    }

    /// The empty queue.
    pub fn new() -> (q: Queue)
        ensures
            q.wf(),
            q@ == Seq::<i32>::empty(),
    {
        let q = Queue { data: [0; QUEUE_CAP], front: 0, rear: 0, count: 0 };
        assert(q@ =~= Seq::<i32>::empty());
        q
    }

    /// Adds `task_id` at the back.  Returns 0, or -1 with the queue unchanged
    /// when it already holds `QUEUE_CAP` ids.
    pub fn enqueue(&mut self, task_id: i32) -> (r: i32)
        requires
            old(self).wf(),
        ensures
            final(self).wf(),
            old(self)@.len() >= QUEUE_CAP ==> r == -1 && final(self)@ == old(self)@,
            old(self)@.len() < QUEUE_CAP ==> r == 0 && final(self)@ == old(self)@.push(task_id),
    {
        if self.count >= QUEUE_CAP {
            return -1;
        }
        let ghost before = self@;
        self.data[self.rear] = task_id;
        self.rear = (self.rear + 1) % QUEUE_CAP;
        self.count = self.count + 1;
        proof {
            assert forall|k: int| 0 <= k < self.count implies #[trigger] self@[k] == before.push(task_id)[k] by {
                if k < self.count - 1 {
                    assert((self.front + k) % (QUEUE_CAP as int) != (self.front + self.count - 1) % (
                    QUEUE_CAP as int));
                }
            }
            assert(self@ =~= before.push(task_id));
        }
        0
    }

    /// Removes and returns the id at the front, or returns -1 and changes
    /// nothing when the queue is empty.
    pub fn dequeue(&mut self) -> (r: i32)
        requires
            old(self).wf(),
        ensures
            final(self).wf(),
            old(self)@.len() == 0 ==> r == -1 && final(self)@ == old(self)@,
            old(self)@.len() > 0 ==> r == old(self)@[0] && final(self)@ == old(self)@.drop_first(),
    {
        if self.count == 0 {
            return -1;
        }
        let ghost before = self@;
        let val = self.data[self.front];
        self.front = (self.front + 1) % QUEUE_CAP;
        self.count = self.count - 1;
        proof {
            assert forall|k: int| 0 <= k < self.count implies #[trigger] self@[k] == before.drop_first()[k] by {
                assert((old(self).front + (k + 1)) % (QUEUE_CAP as int) == (self.front + k) % (
                QUEUE_CAP as int));
            }
            assert(self@ =~= before.drop_first());
        }
        val
    }

    /// Whether the queue holds no id.
    pub fn is_empty(&self) -> (r: bool)
        requires
            self.wf(),
        ensures
            r == (self@.len() == 0),
    {
        self.count == 0
    }
}

} // verus!
