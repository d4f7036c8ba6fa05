//! Bounded binary min-heap of scheduling entries, most urgent entry at the
//! root.  The tree is stored flat: the parent of slot `i` is `(i - 1) / 2`
//! and its children are `2 * i + 1` and `2 * i + 2`.

use vstd::prelude::*;
use vstd::multiset::Multiset;

verus! {

broadcast use {vstd::seq_lib::group_to_multiset_ensures, vstd::multiset::group_multiset_properties};

/// Most entries the heap can hold.
pub const HEAP_CAP: usize = 1024;

/// The part of a task that the heap orders by, plus the task's id.
#[derive(Clone, Copy)]
pub struct HeapEntry {
    /// 0 = critical ... 3 = low; lower is more urgent.
    pub rank: i32,
    /// Absolute deadline; earlier is more urgent.
    pub deadline: i32,
    /// Run time; shorter is more urgent.
    pub duration: i32,
    /// Arrival order; earlier is more urgent.
    pub order: i32,
    /// The task this entry stands for.
    pub task_id: i32,
}

/// The all-zero entry.
pub open spec fn empty_entry() -> HeapEntry {
    HeapEntry { rank: 0, deadline: 0, duration: 0, order: 0, task_id: 0 }
}

/// `a` goes before `b`: lexicographically smaller on
/// (rank, deadline, duration, order).  The task id plays no part.
pub open spec fn more_urgent(a: HeapEntry, b: HeapEntry) -> bool {
    if a.rank != b.rank {
        a.rank < b.rank
    } else if a.deadline != b.deadline {
        a.deadline < b.deadline
    } else if a.duration != b.duration {
        a.duration < b.duration
    } else {
        a.order < b.order
    }
}

/// No entry of `m` is more urgent than `e`.
pub open spec fn is_most_urgent_in(e: HeapEntry, m: Multiset<HeapEntry>) -> bool {
    forall|x: HeapEntry| m.contains(x) ==> !#[trigger] more_urgent(x, e)
}

pub open spec fn parent(i: int) -> int {
    (i - 1) / 2
}

/// Heap order on the first `n` slots: no slot is more urgent than its parent.
pub open spec fn heap_ordered(s: Seq<HeapEntry>, n: int) -> bool {
    forall|i: int| 0 < i < n ==> !more_urgent(#[trigger] s[i], s[parent(i)])
}

/// Heap order except between slot `k` and its parent, with the parent of
/// `k` still no less urgent than the children of `k` (state during sift-up).
spec fn ordered_except_up(s: Seq<HeapEntry>, n: int, k: int) -> bool {
    &&& forall|i: int| 0 < i < n && i != k ==> !more_urgent(#[trigger] s[i], s[parent(i)])
    &&& k > 0 ==> forall|c: int|
        0 < c < n && parent(c) == k ==> !more_urgent(#[trigger] s[c], s[parent(k)])
}

/// A new entry placed at slot `k` after `k` slots in heap order is ready to
/// be sifted up: the first `k + 1` slots are in heap order except between
/// `k` and its parent (slot `k` has no children among them).
proof fn lemma_ready_for_sift_up(s: Seq<HeapEntry>, k: int)
    requires
        0 <= k,
        heap_ordered(s, k),
    ensures
        ordered_except_up(s, k + 1, k),
{
}

/// Heap order except between slot `k` and its children, with the parent of
/// `k` still no less urgent than the children of `k` (state during sift-down).
spec fn ordered_except_down(s: Seq<HeapEntry>, n: int, k: int) -> bool {
    &&& forall|i: int| 0 < i < n && parent(i) != k ==> !more_urgent(#[trigger] s[i], s[parent(i)])
    &&& k > 0 ==> forall|c: int|
        0 < c < n && parent(c) == k ==> !more_urgent(#[trigger] s[c], s[parent(k)])
}

/// Extraction order: once the most urgent entry `a` of `m` is taken out,
/// no entry left is more urgent than `a`, so entries leave the heap from
/// most to least urgent.
pub proof fn law_extraction_order(m: Multiset<HeapEntry>, a: HeapEntry, b: HeapEntry)
    requires
        m.contains(a),
        is_most_urgent_in(a, m),
        m.remove(a).contains(b),
    ensures
        !more_urgent(b, a),
{
    assert(m.contains(b));
}

/// Urgency is a strict weak order: irreflexive and transitive, and
/// "not more urgent" is transitive and total.
pub proof fn lemma_urgency_order(a: HeapEntry, b: HeapEntry, c: HeapEntry)
    ensures
        !more_urgent(a, a),
        more_urgent(a, b) && more_urgent(b, c) ==> more_urgent(a, c),
        !more_urgent(a, b) && !more_urgent(b, c) ==> !more_urgent(a, c),
        more_urgent(a, b) ==> !more_urgent(b, a),
{
}

proof fn lemma_swap_multiset(s: Seq<HeapEntry>, i: int, j: int)
    requires
        0 <= i < s.len(),
        0 <= j < s.len(),
    ensures
        s.update(i, s[j]).update(j, s[i]).to_multiset() == s.to_multiset(),
{
    let t = s.update(i, s[j]);
    assert(t.to_multiset() == s.to_multiset().insert(s[j]).remove(s[i]));
    assert(t.update(j, s[i]).to_multiset() == t.to_multiset().insert(s[i]).remove(t[j]));
    if i == j {
        assert(t.update(j, s[i]) =~= s);
    } else {
        assert(t[j] == s[j]);
        assert(t.update(j, s[i]).to_multiset() =~= s.to_multiset());
    }
}

/// Swapping slots `i` and `j` below `n` keeps the multiset of the first `n` slots.
proof fn lemma_swap_prefix_multiset(s: Seq<HeapEntry>, n: int, i: int, j: int)
    requires
        0 <= i < n,
        0 <= j < n,
        n <= s.len(),
    ensures
        s.update(i, s[j]).update(j, s[i]).take(n).to_multiset() == s.take(n).to_multiset(),
{
    let p = s.take(n);
    lemma_swap_multiset(p, i, j);
    assert(s.update(i, s[j]).update(j, s[i]).take(n) =~= p.update(i, p[j]).update(j, p[i]));
}

/// `a` is more urgent than `b`.
fn is_higher(a: &HeapEntry, b: &HeapEntry) -> (r: bool)
    ensures
        r == more_urgent(*a, *b),
{
    if a.rank != b.rank {
        return a.rank < b.rank;
    }
    if a.deadline != b.deadline {
        return a.deadline < b.deadline;
    }
    if a.duration != b.duration {
        return a.duration < b.duration;
    }
    a.order < b.order
}

impl HeapEntry {
    /// The all-zero entry.
    pub fn empty() -> (e: HeapEntry)
        ensures
            e == empty_entry(),
    {
        HeapEntry { rank: 0, deadline: 0, duration: 0, order: 0, task_id: 0 }
    }
}

/// Priority queue of up to `HEAP_CAP` entries.
pub struct Heap {
    data: [HeapEntry; HEAP_CAP],
    count: usize,
}

impl Heap {
    /// The entries held, as a multiset.
    pub closed spec fn view(&self) -> Multiset<HeapEntry> {
        self.data@.take(self.count as int).to_multiset()
    }

    /// The internal invariant: the count fits and the first `count` slots
    /// are in heap order.
    pub closed spec fn wf(&self) -> bool {
        &&& self.count <= HEAP_CAP
        &&& heap_ordered(self.data@, self.count as int)
    }

    /// The empty heap.
    pub fn new() -> (h: Heap)
        ensures
            h.wf(),
            h@ == Multiset::<HeapEntry>::empty(),
    {
        let h = Heap { data: [HeapEntry::empty(); HEAP_CAP], count: 0 };
        assert(h.data@.take(0) =~= Seq::<HeapEntry>::empty());
        h
    }

    /// Whether the heap holds no entry.
    pub fn is_empty(&self) -> (r: bool)
        requires
            self.wf(),
        ensures
            r == (self@.len() == 0),
    {
        proof {
            assert(self.data@.take(self.count as int).len() == self.count);
        }
        self.count == 0
    }

    /// Adds `entry`.  Returns 0, or -1 with the heap unchanged when it
    /// already holds `HEAP_CAP` entries.
    pub fn insert(&mut self, entry: HeapEntry) -> (r: i32)
        requires
            old(self).wf(),
        ensures
            final(self).wf(),
            old(self)@.len() >= HEAP_CAP ==> r == -1 && final(self)@ == old(self)@,
            old(self)@.len() < HEAP_CAP ==> r == 0 && final(self)@ == old(self)@.insert(entry),
    {
        proof {
            assert(self.data@.take(self.count as int).len() == self.count);
        }
        if self.count >= HEAP_CAP {
            return -1;
        }
        let ghost before = self.data@;
        let n = self.count;
        self.data[n] = entry;
        proof {
            assert(self.data@.take(n as int) =~= before.take(n as int));
            assert(self.data@.take(n + 1) =~= before.take(n as int).push(entry));
            assert forall|i: int| 0 < i < n implies !more_urgent(
                #[trigger] self.data@[i],
                self.data@[parent(i)],
            ) by {
                assert(self.data@[i] == before[i]);
            }
            lemma_ready_for_sift_up(self.data@, n as int);
        }
        self.sift_up(n, Ghost((n + 1) as int));
        self.count = n + 1;
        0
    }

    /// Moves the entry at `idx` up while it is more urgent than its parent.
    fn sift_up(&mut self, idx: usize, Ghost(n): Ghost<int>)
        requires
            idx < n <= HEAP_CAP,
            ordered_except_up(old(self).data@, n, idx as int),
        ensures
            heap_ordered(final(self).data@, n),
            final(self).data@.take(n).to_multiset() == old(self).data@.take(n).to_multiset(),
            final(self).data@.skip(n) == old(self).data@.skip(n),
            final(self).count == old(self).count,
    {
        let mut idx = idx;
        while idx > 0
            invariant
                idx < n <= HEAP_CAP,
                ordered_except_up(self.data@, n, idx as int),
                self.data@.take(n).to_multiset() == old(self).data@.take(n).to_multiset(),
                self.data@.len() == old(self).data@.len(),
                self.data@.skip(n) == old(self).data@.skip(n),
                self.count == old(self).count,
            ensures
                heap_ordered(self.data@, n),
            decreases idx,
        {
            let p = (idx - 1) / 2;
            if is_higher(&self.data[idx], &self.data[p]) {
                let ghost s = self.data@;
                let tmp = self.data[idx];
                self.data[idx] = self.data[p];
                self.data[p] = tmp;
                proof {
                    assert(self.data@ =~= s.update(idx as int, s[p as int]).update(p as int, s[idx as int]));
                    assert(self.data@.skip(n) =~= s.skip(n));
                    lemma_swap_prefix_multiset(s, n, idx as int, p as int);
                    let t = self.data@;
                    assert forall|i: int| 0 < i < n && i != p implies !more_urgent(
                        #[trigger] t[i],
                        t[parent(i)],
                    ) by {
                        if i == idx {
                        } else if parent(i) == idx {
                            assert(!more_urgent(s[i], s[p as int]));
                        } else if parent(i) == p {
                            // sibling of idx
                            assert(!more_urgent(s[i], s[p as int]));
                            lemma_urgency_order(s[idx as int], s[p as int], s[i]);
                        } else {
                        }
                    }
                    if p > 0 {
                        let g = parent(p as int);
                        assert(!more_urgent(s[p as int], s[g]));
                        assert forall|c: int| 0 < c < n && parent(c) == p implies !more_urgent(
                            #[trigger] t[c],
                            t[parent(p as int)],
                        ) by {
                            if c == idx {
                            } else {
                                assert(!more_urgent(s[c], s[p as int]));
                                lemma_urgency_order(s[c], s[p as int], s[g]);
                            }
                        }
                    }
                }
                idx = p;
            } else {
                break;
            }
        }
    }

    /// Removes and returns the most urgent entry.  On an empty heap returns
    /// the all-zero entry and changes nothing.
    pub fn extract_min(&mut self) -> (r: HeapEntry)
        requires
            old(self).wf(),
        ensures
            final(self).wf(),
            old(self)@.len() == 0 ==> r == empty_entry() && final(self)@ == old(self)@,
            old(self)@.len() > 0 ==> {
                &&& old(self)@.contains(r)
                &&& is_most_urgent_in(r, old(self)@)
                &&& final(self)@ == old(self)@.remove(r)
            },
    {
        proof {
            assert(self.data@.take(self.count as int).len() == self.count);
        }
        if self.count == 0 {
            return HeapEntry::empty();
        }
        let ghost before = self.data@;
        let ghost n0 = self.count as int;
        proof {
            self.lemma_root_most_urgent();
        }
        let min = self.data[0];
        self.count = self.count - 1;
        let n = self.count;
        if n > 0 {
            self.data[0] = self.data[n];
            proof {
                let s = self.data@;
                // the new prefix is the old one with the root replaced by the last entry
                assert(s.take(n as int) =~= before.take(n0).remove(n as int).update(0, before[n as int]));
                assert(before.take(n0).remove(n as int).to_multiset() == before.take(n0).to_multiset().remove(before[n as int]));
                assert(before.take(n0).remove(n as int)[0] == before[0]);
                assert(s.take(n as int).to_multiset() =~= before.take(n0).to_multiset().remove(before[0]));
                assert forall|i: int| 0 < i < n && parent(i) != 0 implies !more_urgent(
                    #[trigger] s[i],
                    s[parent(i)],
                ) by {
                    assert(s[i] == before[i]);
                    assert(s[parent(i)] == before[parent(i)]);
                }
            }
            self.sift_down(0, Ghost(n as int));
        } else {
            proof {
                assert(self.data@.take(0) =~= Seq::<HeapEntry>::empty());
                assert(before.take(1) =~= seq![before[0]]);
                assert(before.take(1).to_multiset() =~= Multiset::<HeapEntry>::empty().insert(before[0]));
            }
        }
        min
    }

    /// The root of a non-empty ordered heap is one of its most urgent entries.
    proof fn lemma_root_most_urgent(&self)
        requires
            self.wf(),
            self.count > 0,
        ensures
            self@.contains(self.data@[0]),
            is_most_urgent_in(self.data@[0], self@),
    {
        let s = self.data@;
        let n = self.count as int;
        assert(s.take(n)[0] == s[0]);
        assert(s.take(n).contains(s[0]));
        assert forall|i: int| 0 <= i < n implies !more_urgent(#[trigger] s[i], s[0]) by {
            self.lemma_below_root(i);
        }
        assert forall|x: HeapEntry| self@.contains(x) implies !#[trigger] more_urgent(x, s[0]) by {
            assert(s.take(n).contains(x));
            let i = choose|i: int| 0 <= i < n && s.take(n)[i] == x;
            assert(s[i] == x);
        }
    }

    proof fn lemma_below_root(&self, i: int)
        requires
            self.wf(),
            0 <= i < self.count,
        ensures
            !more_urgent(self.data@[i], self.data@[0]),
        decreases i,
    {
        if i > 0 {
            self.lemma_below_root(parent(i));
            lemma_urgency_order(self.data@[i], self.data@[parent(i)], self.data@[0]);
        }
    }

    /// Moves the entry at `idx` down while a child is more urgent, swapping it
    /// with the more urgent child.
    fn sift_down(&mut self, idx: usize, Ghost(n): Ghost<int>)
        requires
            n == old(self).count,
            idx < n <= HEAP_CAP,
            ordered_except_down(old(self).data@, n, idx as int),
        ensures
            heap_ordered(final(self).data@, n),
            final(self).data@.take(n).to_multiset() == old(self).data@.take(n).to_multiset(),
            final(self).data@.skip(n) == old(self).data@.skip(n),
            final(self).count == old(self).count,
    {
        let mut idx = idx;
        loop
            invariant
                n == self.count,
                idx < n <= HEAP_CAP,
                ordered_except_down(self.data@, n, idx as int),
                self.data@.take(n).to_multiset() == old(self).data@.take(n).to_multiset(),
                self.data@.len() == old(self).data@.len(),
                self.data@.skip(n) == old(self).data@.skip(n),
                self.count == old(self).count,
            ensures
                heap_ordered(self.data@, n),
            decreases n - idx,
        {
            let left = 2 * idx + 1;
            let right = 2 * idx + 2;
            let mut smallest = idx;
            if left < self.count && is_higher(&self.data[left], &self.data[smallest]) {
                smallest = left;
            }
            if right < self.count && is_higher(&self.data[right], &self.data[smallest]) {
                smallest = right;
            }
            let ghost s = self.data@;
            proof {
                // the chosen slot is no less urgent than `idx` and its children
                assert(!more_urgent(s[idx as int], s[smallest as int]));
                if left < n {
                    assert(parent(left as int) == idx);
                    assert(!more_urgent(s[left as int], s[smallest as int])) by {
                        lemma_urgency_order(s[left as int], s[idx as int], s[smallest as int]);
                        lemma_urgency_order(s[right as int], s[left as int], s[smallest as int]);
                    }
                }
                if right < n {
                    assert(parent(right as int) == idx);
                    assert(!more_urgent(s[right as int], s[smallest as int]));
                }
            }
            if smallest != idx {
                let tmp = self.data[idx];
                self.data[idx] = self.data[smallest];
                self.data[smallest] = tmp;
                proof {
                    let m = smallest as int;
                    let k = idx as int;
                    assert(self.data@ =~= s.update(k, s[m]).update(m, s[k]));
                    assert(self.data@.skip(n) =~= s.skip(n));
                    lemma_swap_prefix_multiset(s, n, k, m);
                    let t = self.data@;
                    assert(parent(m) == k);
                    assert(more_urgent(s[m], s[k]));
                    assert forall|i: int| 0 < i < n && parent(i) != m implies !more_urgent(
                        #[trigger] t[i],
                        t[parent(i)],
                    ) by {
                        if i == m {
                        } else if parent(i) == k {
                            // the other child of k
                            assert(i == left || i == right);
                        } else if i == k {
                            // k below its own parent
                            assert(!more_urgent(s[m], s[parent(k)]));
                        } else {
                            assert(t[i] == s[i]);
                            assert(t[parent(i)] == s[parent(i)]);
                        }
                    }
                    assert forall|c: int| 0 < c < n && parent(c) == m implies !more_urgent(
                        #[trigger] t[c],
                        t[parent(m)],
                    ) by {
                        assert(t[c] == s[c]);
                        assert(!more_urgent(s[c], s[m]));
                    }
                }
                idx = smallest;
            } else {
                proof {
                    assert forall|i: int| 0 < i < n implies !more_urgent(
                        #[trigger] s[i],
                        s[parent(i)],
                    ) by {
                        if parent(i) == idx {
                            assert(i == left || i == right);
                        }
                    }
                }
                break;
            }
        }
    }
}

} // verus!
