use vstd::prelude::*;

use crate::node::{ProcessId, ProcessNode, NIL};

verus! {

/// Fixed-capacity round-robin run queue.
///
/// Every scheduling record lives in `arena`, a backing store that is filled
/// from the front and whose slots are never reused: a record is carved out of
/// the store once, stays in its slot for the store's whole lifetime, and is
/// only ever linked into or unlinked from the queue in place. The queue order
/// itself is kept as explicit previous/next slot indices inside the records
/// (`NIL` marking an end), so no unlink or relink moves a record.
///
/// Abstractly a queue is the sequence of queued identifiers, head first
/// (`self@`); the head is the next process to run, the tail the most recently
/// run. The well-formedness predicate `wf` ties the link fields, the `head`,
/// `tail` and `count` fields, and the ghost `order` of arena slots to that
/// sequence; every operation requires and preserves it.
pub struct RunQueue {
    capacity: usize,
    arena: Vec<ProcessNode>,
    head: usize,
    tail: usize,
    count: usize,
    order: Ghost<Seq<int>>,
}

impl View for RunQueue {
    type V = Seq<ProcessId>;

    /// The queued identifiers in rotation order, head first.
    closed spec fn view(&self) -> Seq<ProcessId> {
        Seq::new(self.order@.len(), |k: int| self.arena@[self.order@[k]].identifier)
    }
}

impl RunQueue {
    /// Maximum number of records the backing store can ever hold.
    pub closed spec fn cap(self) -> int {
        self.capacity as int
    }

    /// Number of records carved out of the backing store so far, queued and
    /// retired together. Retired slots are never reused, so this only grows.
    pub closed spec fn node_count(self) -> int {
        self.arena@.len() as int
    }

    /// The queue's internal invariant: the ghost `order` lists the arena
    /// slots of the queued records, and the link fields, ends and counters
    /// all agree with it.
    pub closed spec fn wf(self) -> bool {
        &&& self.capacity < NIL
        &&& self.arena@.len() <= self.capacity
        &&& self.count == self.order@.len()
        &&& self.order@.len() <= self.arena@.len()
        &&& (forall|k: int|
            0 <= k < self.order@.len() ==> 0 <= #[trigger] self.order@[k] < self.arena@.len())
        &&& self.order@.no_duplicates()
        &&& (forall|i: int|
            0 <= i < self.arena@.len() ==> ((#[trigger] self.arena@[i].in_queue) <==> self.order@.contains(
                i,
            )))
        &&& (forall|k1: int, k2: int|
            0 <= k1 < k2 < self.order@.len() ==> self.arena@[#[trigger] self.order@[k1]].identifier
                != self.arena@[#[trigger] self.order@[k2]].identifier)
        &&& (self.order@.len() == 0 ==> self.head == NIL && self.tail == NIL)
        &&& (self.order@.len() > 0 ==> {
            &&& self.head as int == self.order@[0]
            &&& self.tail as int == self.order@[self.order@.len() - 1]
            &&& self.arena@[self.order@[0]].prev == NIL
            &&& self.arena@[self.order@[self.order@.len() - 1]].next == NIL
        })
        &&& (forall|k: int|
            0 <= k < self.order@.len() - 1 ==> self.arena@[#[trigger] self.order@[k]].next as int
                == self.order@[k + 1])
        &&& (forall|k: int|
            1 <= k < self.order@.len() ==> self.arena@[#[trigger] self.order@[k]].prev as int
                == self.order@[k - 1])
    }

    /// The membership invariant, made public: a well-formed queue never holds
    /// two records with the same identifier, so its abstract sequence never
    /// repeats one.
    pub proof fn lemma_no_duplicate_identifiers(self)
        requires
            self.wf(),
        ensures
            self@.no_duplicates(),
    {
        assert forall|k1: int, k2: int|
            0 <= k1 < self@.len() && 0 <= k2 < self@.len() && k1 != k2 implies self@[k1]
            != self@[k2] by {
            if k1 < k2 {
                assert(self.arena@[self.order@[k1]].identifier
                    != self.arena@[self.order@[k2]].identifier);
            } else {
                assert(self.arena@[self.order@[k2]].identifier
                    != self.arena@[self.order@[k1]].identifier);
            }
        }
    }

    /// Builds an empty queue over a backing store of `capacity` record slots,
    /// allocated here once for the queue's whole lifetime.
    pub fn new(capacity: usize) -> (q: RunQueue)
        requires
            capacity < usize::MAX,
        ensures
            q.wf(),
            q@ == Seq::<ProcessId>::empty(),
            q.cap() == capacity,
            q.node_count() == 0,
    {
        let q = RunQueue {
            capacity,
            arena: Vec::with_capacity(capacity),
            head: NIL,
            tail: NIL,
            count: 0,
            order: Ghost(Seq::empty()),
        };
        proof {
            assert(q@ =~= Seq::<ProcessId>::empty());
        }
        q
    }

    /// Number of queued processes.
    pub fn len(&self) -> (n: usize)
        requires
            self.wf(),
        ensures
            n == self@.len(),
    {
        self.count
    }

    /// True when no process is queued.
    pub fn is_empty(&self) -> (r: bool)
        requires
            self.wf(),
        ensures
            r == (self@.len() == 0),
    {
        self.count == 0
    }

    /// Returns the head — the next process to run — without removing it, or
    /// nothing when the queue is idle.
    pub fn peek_head(&self) -> (r: Option<ProcessId>)
        requires
            self.wf(),
        ensures
            self@.len() == 0 ==> r is None,
            self@.len() > 0 ==> r == Some(self@[0]),
    {
        if self.count == 0 {
            None
        } else {
            proof {
                assert(self.head as int == self.order@[0]);
            }
            Some(self.arena[self.head].identifier)
        }
    }

    /// Appends a new record for `identifier` at the tail: the position of the
    /// most recently run process. The identifier must not be queued already
    /// (at most one record per identifier), and the backing store must still
    /// have a free slot — the seeding contract makes exceeding the store a
    /// caller bug, not a recoverable state.
    pub fn push_tail(&mut self, identifier: ProcessId)
        requires
            old(self).wf(),
            old(self).node_count() < old(self).cap(),
            !old(self)@.contains(identifier),
        ensures
            final(self).wf(),
            final(self)@ == old(self)@.push(identifier),
            final(self).cap() == old(self).cap(),
            final(self).node_count() == old(self).node_count() + 1,
    {
        let idx = self.arena.len();
        let mut node = ProcessNode::new(identifier);
        node.in_queue = true;
        node.prev = self.tail;
        if self.count == 0 {
            node.prev = NIL;
            self.arena.push(node);
            self.head = idx;
            self.tail = idx;
        } else {
            self.arena.push(node);
            let t = self.tail;
            proof {
                assert(t as int == old(self).order@[old(self).order@.len() - 1]);
            }
            self.arena[t].next = idx;
            self.tail = idx;
        }
        self.count = self.count + 1;
        proof {
            let o0 = old(self).order@;
            let o1 = o0.push(idx as int);
            self.order@ = o1;
            assert forall|k: int| 0 <= k < o1.len() implies 0 <= #[trigger] o1[k]
                < self.arena@.len() by {
                if k < o0.len() {
                    assert(o1[k] == o0[k]);
                }
            }
            assert forall|k1: int, k2: int| 0 <= k1 < k2 < o1.len() implies o1[k1] != o1[k2] by {
                if k2 < o0.len() {
                    assert(o0.no_duplicates());
                } else {
                    assert(o1[k2] == idx as int);
                    assert(o0[k1] < idx as int);
                }
            }
            assert(o1.no_duplicates());
            assert forall|i: int| 0 <= i < self.arena@.len() implies ((
            #[trigger] self.arena@[i].in_queue) <==> o1.contains(i)) by {
                if i == idx as int {
                    assert(o1[o0.len() as int] == i);
                    assert(o1.contains(i));
                } else {
                    assert(self.arena@[i].in_queue == old(self).arena@[i].in_queue);
                    if old(self).order@.contains(i) {
                        let k = choose|k: int| 0 <= k < o0.len() && o0[k] == i;
                        assert(o1[k] == i);
                        assert(o1.contains(i));
                    }
                    if o1.contains(i) {
                        let k = choose|k: int| 0 <= k < o1.len() && o1[k] == i;
                        assert(k < o0.len());
                        assert(o0[k] == i);
                        assert(o0.contains(i));
                    }
                }
            }
            assert forall|k1: int, k2: int| 0 <= k1 < k2 < o1.len() implies self.arena@[#[trigger] o1[k1]].identifier
                != self.arena@[#[trigger] o1[k2]].identifier by {
                if k2 < o0.len() {
                    assert(self.arena@[o0[k1]].identifier == old(self).arena@[o0[k1]].identifier);
                    assert(self.arena@[o0[k2]].identifier == old(self).arena@[o0[k2]].identifier);
                } else {
                    assert(old(self)@[k1] == old(self).arena@[o0[k1]].identifier);
                    assert(!old(self)@.contains(identifier));
                    assert(old(self)@[k1] != identifier);
                    assert(self.arena@[o1[k2]].identifier == identifier);
                }
            }
            assert(self@ =~= old(self)@.push(identifier));
        }
    }

    /// Prepends a new record for `identifier` at the head, making it the next
    /// process to run. Same capacity and uniqueness demands as `push_tail`.
    pub fn push_head(&mut self, identifier: ProcessId)
        requires
            old(self).wf(),
            old(self).node_count() < old(self).cap(),
            !old(self)@.contains(identifier),
        ensures
            final(self).wf(),
            final(self)@ == old(self)@.insert(0, identifier),
            final(self).cap() == old(self).cap(),
            final(self).node_count() == old(self).node_count() + 1,
    {
        let idx = self.arena.len();
        let mut node = ProcessNode::new(identifier);
        node.in_queue = true;
        node.next = self.head;
        if self.count == 0 {
            node.next = NIL;
            self.arena.push(node);
            self.head = idx;
            self.tail = idx;
        } else {
            self.arena.push(node);
            let hd = self.head;
            proof {
                assert(hd as int == old(self).order@[0]);
            }
            self.arena[hd].prev = idx;
            self.head = idx;
        }
        self.count = self.count + 1;
        proof {
            let a0 = old(self).arena@;
            let a1 = self.arena@;
            let o0 = old(self).order@;
            let o1 = o0.insert(0, idx as int);
            self.order@ = o1;
            assert(o1 =~= seq![idx as int] + o0);
            assert(o1[0] == idx as int);
            assert(forall|k: int| 1 <= k < o1.len() ==> #[trigger] o1[k] == o0[k - 1]);
            assert(forall|i: int| 0 <= i < a0.len() ==> (#[trigger] a1[i]).identifier
                == a0[i].identifier);
            assert(forall|i: int| 0 <= i < a0.len() ==> (#[trigger] a1[i]).in_queue
                == a0[i].in_queue);
            assert forall|k1: int, k2: int| 0 <= k1 < k2 < o1.len() implies o1[k1] != o1[k2] by {
                if k1 == 0 {
                    assert(o0[k2 - 1] < idx as int);
                } else {
                    assert(o0.no_duplicates());
                }
            }
            assert(o1.no_duplicates());
            assert forall|i: int| 0 <= i < a1.len() implies ((#[trigger] a1[i].in_queue)
                <==> o1.contains(i)) by {
                if i == idx as int {
                    assert(o1[0] == i);
                    assert(o1.contains(i));
                } else {
                    if o0.contains(i) {
                        let k = choose|k: int| 0 <= k < o0.len() && o0[k] == i;
                        assert(o1[k + 1] == i);
                        assert(o1.contains(i));
                    }
                    if o1.contains(i) {
                        let k = choose|k: int| 0 <= k < o1.len() && o1[k] == i;
                        assert(k >= 1);
                        assert(o0[k - 1] == i);
                        assert(o0.contains(i));
                    }
                }
            }
            assert forall|k1: int, k2: int| 0 <= k1 < k2 < o1.len() implies self.arena@[#[trigger] o1[k1]].identifier
                != self.arena@[#[trigger] o1[k2]].identifier by {
                if k1 == 0 {
                    assert(old(self)@[k2 - 1] == a0[o0[k2 - 1]].identifier);
                    assert(!old(self)@.contains(identifier));
                    assert(old(self)@[k2 - 1] != identifier);
                } else {
                    assert(a1[o0[k1 - 1]].identifier == a0[o0[k1 - 1]].identifier);
                    assert(a1[o0[k2 - 1]].identifier == a0[o0[k2 - 1]].identifier);
                }
            }
            assert(self@ =~= old(self)@.insert(0, identifier));
        }
    }

    /// Unlinks the record whose identifier matches, wherever it stands in the
    /// queue, retiring it without re-enqueueing; the records around it keep
    /// their relative order. Returns whether a removal happened: asking to
    /// remove an identifier that is not queued is a benign no-op, since
    /// independent teardown paths may both report the same process.
    #[verifier::rlimit(60)]
    #[verifier::loop_isolation(false)]
    pub fn remove(&mut self, identifier: ProcessId) -> (r: bool)
        requires
            old(self).wf(),
        ensures
            final(self).wf(),
            final(self).cap() == old(self).cap(),
            final(self).node_count() == old(self).node_count(),
            r == old(self)@.contains(identifier),
            final(self)@ == old(self)@.remove_value(identifier),
            !r ==> *final(self) == *old(self),
    {
        let ghost q0 = *self;
        let mut cur = self.head;
        let ghost mut k: int = 0;
        while cur != NIL
            invariant
                *self == q0,
                self.wf(),
                0 <= k <= self@.len(),
                k < self@.len() ==> cur as int == self.order@[k],
                k == self@.len() ==> cur == NIL,
                forall|j: int| 0 <= j < k ==> self@[j] != identifier,
            decreases self@.len() - k,
        {
            proof {
                assert(k < self@.len()) by {
                    if k == self@.len() {
                        assert(cur == NIL);
                    }
                }
                assert(cur as int == self.order@[k]);
                assert(0 <= self.order@[k] < self.arena@.len());
            }
            if self.arena[cur].identifier == identifier {
                proof {
                    assert(self@[k] == identifier);
                }
                self.unlink_at(cur, Ghost(k));
                proof {
                    assert(self@ == q0@.remove(k));
                    assert(q0@.contains(identifier)) by {
                        assert(q0@[k] == identifier);
                    }
                    q0@.index_of_first_ensures(identifier);
                    let i0 = q0@.index_of_first(identifier)->Some_0;
                    assert(i0 == k) by {
                        if i0 < k {
                            assert(q0@[i0] != identifier);
                        }
                        if i0 > k {
                            assert(q0@[k] != identifier);
                        }
                    }
                    assert(q0@.remove_value(identifier) == q0@.remove(k));
                }
                return true;
            }
            cur = self.arena[cur].next;
            proof {
                let o0 = self.order@;
                let n = o0.len() as int;
                assert(self@[k] != identifier);
                if k < n - 1 {
                    assert(cur as int == o0[k + 1]);
                } else {
                    assert(cur == NIL);
                }
                k = k + 1;
            }
        }
        proof {
            assert(k == self@.len());
            assert(!old(self)@.contains(identifier)) by {
                if old(self)@.contains(identifier) {
                    let j = choose|j: int|
                        0 <= j < old(self)@.len() && old(self)@[j] == identifier;
                    assert(old(self)@[j] != identifier);
                }
            }
            old(self)@.index_of_first_ensures(identifier);
            assert(old(self)@.remove_value(identifier) == old(self)@);
        }
        false
    }

    /// Copies the queued identifiers out in rotation order, head first: a
    /// snapshot of the queue for callers that inspect the order without
    /// driving the rotation.
    pub fn ids(&self) -> (r: Vec<ProcessId>)
        requires
            self.wf(),
        ensures
            r@ == self@,
    {
        let mut r: Vec<ProcessId> = Vec::new();
        let mut cur = self.head;
        let ghost mut k: int = 0;
        while cur != NIL
            invariant
                self.wf(),
                0 <= k <= self@.len(),
                k < self@.len() ==> cur as int == self.order@[k],
                k == self@.len() ==> cur == NIL,
                r@ == self@.subrange(0, k),
            decreases self@.len() - k,
        {
            proof {
                assert(k < self@.len()) by {
                    if k == self@.len() {
                        assert(cur == NIL);
                    }
                }
                assert(cur as int == self.order@[k]);
                assert(0 <= self.order@[k] < self.arena@.len());
            }
            r.push(self.arena[cur].identifier);
            proof {
                assert(r@ =~= self@.subrange(0, k + 1));
            }
            cur = self.arena[cur].next;
            proof {
                if k < self@.len() - 1 {
                    assert(cur as int == self.order@[k + 1]);
                } else {
                    assert(cur == NIL);
                }
                k = k + 1;
            }
        }
        proof {
            assert(self@.subrange(0, self@.len() as int) =~= self@);
        }
        r
    }

    /// Unlinks the record in arena slot `cur`, which stands at position `k`
    /// of the queue order, splicing its neighbours together in place.
    fn unlink_at(&mut self, cur: usize, Ghost(k): Ghost<int>)
        requires
            old(self).wf(),
            0 <= k < old(self)@.len(),
            cur as int == old(self).order@[k],
        ensures
            final(self).wf(),
            final(self)@ == old(self)@.remove(k),
            final(self).cap() == old(self).cap(),
            final(self).node_count() == old(self).node_count(),
    {
        let prv = self.arena[cur].prev;
        let nxt = self.arena[cur].next;
        proof {
            let o0 = self.order@;
            let n = o0.len() as int;
            assert(k > 0 ==> prv as int == o0[k - 1] && prv != NIL);
            assert(k == 0 ==> prv == NIL);
            assert(k < n - 1 ==> nxt as int == o0[k + 1] && nxt != NIL);
            assert(k == n - 1 ==> nxt == NIL);
            assert(o0.no_duplicates());
        }
        self.arena[cur].in_queue = false;
        self.arena[cur].prev = NIL;
        self.arena[cur].next = NIL;
        if prv == NIL {
            self.head = nxt;
        } else {
            self.arena[prv].next = nxt;
        }
        if nxt == NIL {
            self.tail = prv;
        } else {
            self.arena[nxt].prev = prv;
        }
        self.count = self.count - 1;
        proof {
            self.order@ = old(self).order@.remove(k);
            RunQueue::lemma_unlink_preserves(*old(self), *self, k, cur, prv, nxt);
        }
    }

    /// Splicing the neighbours of the record at position `k` of the queue
    /// order together, and retiring that record, preserves the queue
    /// invariant and removes exactly position `k` from the abstract sequence.
    /// `q0` is the queue before the splice, `q1` after; `cur`, `prv` and
    /// `nxt` are the arena slots of the record and its two neighbours.
    #[verifier::rlimit(100)]
    proof fn lemma_unlink_preserves(
        q0: RunQueue,
        q1: RunQueue,
        k: int,
        cur: usize,
        prv: usize,
        nxt: usize,
    )
        requires
            q0.wf(),
            0 <= k < q0.order@.len(),
            cur as int == q0.order@[k],
            k > 0 ==> prv as int == q0.order@[k - 1],
            k == 0 ==> prv == NIL,
            k < q0.order@.len() - 1 ==> nxt as int == q0.order@[k + 1],
            k == q0.order@.len() - 1 ==> nxt == NIL,
            q1.capacity == q0.capacity,
            q1.count as int == q0.count - 1,
            q1.order@ == q0.order@.remove(k),
            q1.arena@.len() == q0.arena@.len(),
            q1.arena@[cur as int] == (ProcessNode {
                prev: NIL,
                next: NIL,
                in_queue: false,
                ..q0.arena@[cur as int]
            }),
            k > 0 ==> q1.arena@[prv as int] == (ProcessNode { next: nxt, ..q0.arena@[prv as int] }),
            k < q0.order@.len() - 1 ==> q1.arena@[nxt as int] == (ProcessNode {
                prev: prv,
                ..q0.arena@[nxt as int]
            }),
            forall|i: int|
                0 <= i < q1.arena@.len() && i != cur as int && i != prv as int && i != nxt as int
                    ==> q1.arena@[i] == q0.arena@[i],
            q1.head == (if k == 0 {
                nxt
            } else {
                q0.head
            }),
            q1.tail == (if k == q0.order@.len() - 1 {
                prv
            } else {
                q0.tail
            }),
        ensures
            q1.wf(),
            q1@ == q0@.remove(k),
    {
        let a0 = q0.arena@;
        let a1 = q1.arena@;
        let o0 = q0.order@;
        let n = o0.len() as int;
        let o1 = o0.remove(k);
        let ci = cur as int;
        assert(forall|j: int| 0 <= j < k ==> #[trigger] o1[j] == o0[j]);
        assert(forall|j: int| k <= j < n - 1 ==> #[trigger] o1[j] == o0[j + 1]);
        assert forall|i: int| 0 <= i < a1.len() implies (#[trigger] a1[i]).identifier
            == a0[i].identifier by {
            if i != ci && i != prv as int && i != nxt as int {
                assert(a1[i] == a0[i]);
            }
        }
        assert forall|i: int| 0 <= i < a1.len() && i != ci implies (#[trigger] a1[i]).in_queue
            == a0[i].in_queue by {
            if i != prv as int && i != nxt as int {
                assert(a1[i] == a0[i]);
            }
        }
        assert forall|k1: int, k2: int| 0 <= k1 < k2 < o1.len() implies o1[k1] != o1[k2] by {
            assert(o0.no_duplicates());
            assert(o1[k1] == if k1 < k {
                o0[k1]
            } else {
                o0[k1 + 1]
            });
            assert(o1[k2] == if k2 < k {
                o0[k2]
            } else {
                o0[k2 + 1]
            });
        }
        assert(o1.no_duplicates());
        assert forall|i: int| 0 <= i < a1.len() implies ((#[trigger] a1[i].in_queue)
            <==> o1.contains(i)) by {
            if i == ci {
                assert(!a1[i].in_queue);
                if o1.contains(i) {
                    let j = choose|j: int| 0 <= j < o1.len() && o1[j] == i;
                    if j < k {
                        assert(o0[j] == i && o0[k] == i);
                    } else {
                        assert(o0[j + 1] == i && o0[k] == i);
                    }
                    assert(o0.no_duplicates());
                    assert(false);
                }
            } else {
                if o0.contains(i) {
                    let j = choose|j: int| 0 <= j < o0.len() && o0[j] == i;
                    assert(j != k);
                    if j < k {
                        assert(o1[j] == i);
                    } else {
                        assert(o1[j - 1] == i);
                    }
                    assert(o1.contains(i));
                }
                if o1.contains(i) {
                    let j = choose|j: int| 0 <= j < o1.len() && o1[j] == i;
                    if j < k {
                        assert(o0[j] == i);
                    } else {
                        assert(o0[j + 1] == i);
                    }
                    assert(o0.contains(i));
                }
            }
        }
        assert forall|k1: int, k2: int| 0 <= k1 < k2 < o1.len() implies a1[#[trigger] o1[k1]].identifier
            != a1[#[trigger] o1[k2]].identifier by {
            let j1 = if k1 < k {
                k1
            } else {
                k1 + 1
            };
            let j2 = if k2 < k {
                k2
            } else {
                k2 + 1
            };
            assert(o1[k1] == o0[j1] && o1[k2] == o0[j2]);
            assert(a0[o0[j1]].identifier != a0[o0[j2]].identifier);
        }
        if o1.len() > 0 {
            assert(q1.head as int == o1[0]) by {
                if k == 0 {
                    assert(o1[0] == o0[1]);
                } else {
                    assert(o1[0] == o0[0]);
                }
            }
            assert(q1.tail as int == o1[o1.len() - 1]) by {
                if k == n - 1 {
                    assert(o1[n - 2] == o0[n - 2]);
                } else {
                    assert(o1[n - 2] == o0[n - 1]);
                }
            }
            assert(a1[o1[0]].prev == NIL) by {
                if k == 0 {
                    assert(a1[o0[1]].prev == NIL);
                } else {
                    assert(o0[0] != ci && o0[0] != nxt as int);
                    if o0[0] == prv as int {
                        assert(k == 1);
                        assert(a1[prv as int].prev == a0[prv as int].prev);
                    } else {
                        assert(a1[o0[0]] == a0[o0[0]]);
                    }
                }
            }
            assert(a1[o1[o1.len() - 1]].next == NIL) by {
                if k == n - 1 {
                    assert(a1[o0[n - 2]].next == nxt);
                } else {
                    assert(o0[n - 1] != ci && o0[n - 1] != prv as int);
                    if o0[n - 1] == nxt as int {
                        assert(k == n - 2);
                        assert(a1[nxt as int].next == a0[nxt as int].next);
                    } else {
                        assert(a1[o0[n - 1]] == a0[o0[n - 1]]);
                    }
                }
            }
        }
        assert forall|j: int| 0 <= j < o1.len() - 1 implies a1[#[trigger] o1[j]].next as int
            == o1[j + 1] by {
            if j == k - 1 {
                assert(o1[j] == prv as int);
                assert(a1[prv as int].next == nxt);
                assert(o1[j + 1] == o0[k + 1]);
            } else if j < k - 1 {
                assert(o1[j] == o0[j] && o1[j + 1] == o0[j + 1]);
                assert(o0[j] != ci && o0[j] != prv as int);
                if o0[j] == nxt as int {
                    assert(a1[o0[j]].next == a0[o0[j]].next);
                } else {
                    assert(a1[o0[j]] == a0[o0[j]]);
                }
            } else {
                assert(o1[j] == o0[j + 1] && o1[j + 1] == o0[j + 2]);
                assert(o0[j + 1] != ci && o0[j + 1] != prv as int);
                if o0[j + 1] == nxt as int {
                    assert(a1[o0[j + 1]].next == a0[o0[j + 1]].next);
                } else {
                    assert(a1[o0[j + 1]] == a0[o0[j + 1]]);
                }
            }
        }
        assert forall|j: int| 1 <= j < o1.len() implies a1[#[trigger] o1[j]].prev as int == o1[j
            - 1] by {
            if j == k {
                assert(o1[j] == o0[k + 1] && o1[j] == nxt as int);
                assert(a1[nxt as int].prev == prv);
                assert(o1[j - 1] == o0[k - 1]);
            } else if j < k {
                assert(o1[j] == o0[j] && o1[j - 1] == o0[j - 1]);
                assert(o0[j] != ci && o0[j] != nxt as int);
                if o0[j] == prv as int {
                    assert(a1[o0[j]].prev == a0[o0[j]].prev);
                } else {
                    assert(a1[o0[j]] == a0[o0[j]]);
                }
            } else {
                assert(o1[j] == o0[j + 1] && o1[j - 1] == o0[j]);
                assert(o0[j + 1] != ci && o0[j + 1] != nxt as int);
                if o0[j + 1] == prv as int {
                    assert(a1[o0[j + 1]].prev == a0[o0[j + 1]].prev);
                } else {
                    assert(a1[o0[j + 1]] == a0[o0[j + 1]]);
                }
            }
        }
        assert(q1@ =~= q0@.remove(k));
    }

    /// Removes and returns the head — the process that has waited longest —
    /// retiring its record, or returns nothing and leaves the queue untouched
    /// when it is idle.
    pub fn pop_head(&mut self) -> (r: Option<ProcessId>)
        requires
            old(self).wf(),
        ensures
            final(self).wf(),
            final(self).cap() == old(self).cap(),
            final(self).node_count() == old(self).node_count(),
            old(self)@.len() == 0 ==> r is None && *final(self) == *old(self),
            old(self)@.len() > 0 ==> r == Some(old(self)@[0]) && final(self)@ == old(
                self,
            )@.drop_first(),
    {
        if self.count == 0 {
            return None;
        }
        let h = self.head;
        proof {
            assert(h as int == self.order@[0]);
        }
        let nxt = self.arena[h].next;
        let identifier = self.arena[h].identifier;
        self.arena[h].in_queue = false;
        self.arena[h].prev = NIL;
        self.arena[h].next = NIL;
        if nxt == NIL {
            proof {
                assert(old(self).order@.len() == 1) by {
                    if old(self).order@.len() > 1 {
                        assert(old(self).arena@[old(self).order@[0]].next as int == old(
                            self,
                        ).order@[1]);
                    }
                }
            }
            self.head = NIL;
            self.tail = NIL;
        } else {
            proof {
                assert(old(self).order@.len() > 1) by {
                    if old(self).order@.len() == 1 {
                        assert(old(self).order@[0] == old(self).order@[old(self).order@.len()
                            - 1]);
                    }
                }
                assert(nxt as int == old(self).order@[1]);
            }
            self.head = nxt;
            self.arena[nxt].prev = NIL;
        }
        self.count = self.count - 1;
        proof {
            let a0 = old(self).arena@;
            let a1 = self.arena@;
            let o0 = old(self).order@;
            let o1 = o0.drop_first();
            self.order@ = o1;
            let hi = h as int;
            assert(forall|i: int| 0 <= i < a1.len() ==> (#[trigger] a1[i]).identifier
                == a0[i].identifier);
            assert(forall|i: int|
                0 <= i < a1.len() && i != hi && i != nxt as int ==> a1[i] == a0[i]);
            assert forall|k1: int, k2: int| 0 <= k1 < k2 < o1.len() implies o1[k1] != o1[k2] by {
                assert(o1[k1] == o0[k1 + 1]);
                assert(o1[k2] == o0[k2 + 1]);
            }
            assert(o1.no_duplicates());
            assert forall|i: int| 0 <= i < a1.len() implies ((#[trigger] a1[i].in_queue)
                <==> o1.contains(i)) by {
                if i == hi {
                    assert(!a1[i].in_queue);
                    if o1.contains(i) {
                        let k = choose|k: int| 0 <= k < o1.len() && o1[k] == i;
                        assert(o0[k + 1] == i);
                        assert(o0[0] == i);
                        assert(o0.no_duplicates());
                        assert(false);
                    }
                } else {
                    assert(a1[i].in_queue == a0[i].in_queue);
                    if o0.contains(i) {
                        let k = choose|k: int| 0 <= k < o0.len() && o0[k] == i;
                        assert(k != 0);
                        assert(o1[k - 1] == i);
                        assert(o1.contains(i));
                    }
                    if o1.contains(i) {
                        let k = choose|k: int| 0 <= k < o1.len() && o1[k] == i;
                        assert(o0[k + 1] == i);
                        assert(o0.contains(i));
                    }
                }
            }
            assert(self@ =~= old(self)@.drop_first());
        }
        Some(identifier)
    }

    /// Rotates the queue one step: the head — which has just run — is relinked
    /// behind the tail, becoming the most recently run process, and the next
    /// waiter becomes the head. On an idle queue this changes nothing.
    pub fn rotate_to_back(&mut self)
        requires
            old(self).wf(),
        ensures
            final(self).wf(),
            final(self).cap() == old(self).cap(),
            final(self).node_count() == old(self).node_count(),
            old(self)@.len() == 0 ==> *final(self) == *old(self),
            old(self)@.len() > 0 ==> final(self)@ == old(self)@.drop_first().push(old(self)@[0]),
    {
        if self.count == 0 {
            return ;
        }
        let h = self.head;
        proof {
            assert(h as int == self.order@[0]);
        }
        let nxt = self.arena[h].next;
        if nxt == NIL {
            proof {
                assert(old(self).order@.len() == 1) by {
                    if old(self).order@.len() > 1 {
                        assert(old(self).arena@[old(self).order@[0]].next as int == old(
                            self,
                        ).order@[1]);
                    }
                }
                assert(old(self)@.drop_first().push(old(self)@[0]) =~= old(self)@);
            }
            return ;
        }
        proof {
            assert(old(self).order@.len() > 1) by {
                if old(self).order@.len() == 1 {
                    assert(old(self).order@[0] == old(self).order@[old(self).order@.len() - 1]);
                }
            }
            assert(nxt as int == old(self).order@[1]);
        }
        let t = self.tail;
        proof {
            assert(t as int == self.order@[self.order@.len() - 1]);
            assert(self.order@.no_duplicates());
            assert(t != h);
        }
        self.head = nxt;
        self.arena[nxt].prev = NIL;
        self.arena[t].next = h;
        self.arena[h].prev = t;
        self.arena[h].next = NIL;
        self.tail = h;
        proof {
            let a0 = old(self).arena@;
            let a1 = self.arena@;
            let o0 = old(self).order@;
            let o1 = o0.drop_first().push(o0[0]);
            self.order@ = o1;
            let n = o0.len() as int;
            let hi = h as int;
            let ti = t as int;
            assert(forall|i: int| 0 <= i < a1.len() ==> (#[trigger] a1[i]).identifier
                == a0[i].identifier);
            assert(forall|i: int| 0 <= i < a1.len() ==> (#[trigger] a1[i]).in_queue
                == a0[i].in_queue);
            assert(forall|i: int|
                0 <= i < a1.len() && i != hi && i != nxt as int && i != ti ==> a1[i] == a0[i]);
            assert(forall|k: int| 0 <= k < n - 1 ==> #[trigger] o1[k] == o0[k + 1]);
            assert(o1[n - 1] == o0[0]);
            assert forall|k1: int, k2: int| 0 <= k1 < k2 < o1.len() implies o1[k1] != o1[k2] by {
                assert(o0.no_duplicates());
            }
            assert(o1.no_duplicates());
            assert forall|i: int| 0 <= i < a1.len() implies ((#[trigger] a1[i].in_queue)
                <==> o1.contains(i)) by {
                if o0.contains(i) {
                    let k = choose|k: int| 0 <= k < o0.len() && o0[k] == i;
                    if k == 0 {
                        assert(o1[n - 1] == i);
                    } else {
                        assert(o1[k - 1] == i);
                    }
                    assert(o1.contains(i));
                }
                if o1.contains(i) {
                    let k = choose|k: int| 0 <= k < o1.len() && o1[k] == i;
                    if k == n - 1 {
                        assert(o0[0] == i);
                    } else {
                        assert(o0[k + 1] == i);
                    }
                    assert(o0.contains(i));
                }
            }
            assert(a1[o1[0]].prev == NIL);
            assert(a1[o1[n - 1]].next == NIL);
            assert forall|k: int| 0 <= k < o1.len() - 1 implies self.arena@[#[trigger] o1[k]].next
                as int == o1[k + 1] by {
                if k < n - 2 {
                    assert(o1[k] == o0[k + 1]);
                    assert(o0[k + 1] != hi && o0[k + 1] != ti && o0[k + 1] != nxt as int || k + 1
                        == 1);
                    if o0[k + 1] == nxt as int {
                        assert(a1[nxt as int].next == a0[nxt as int].next);
                    } else {
                        assert(a1[o0[k + 1]].next == a0[o0[k + 1]].next);
                    }
                } else {
                    assert(o1[k] == ti);
                    assert(a1[ti].next as int == hi);
                }
            }
            assert forall|k: int| 1 <= k < o1.len() implies self.arena@[#[trigger] o1[k]].prev
                as int == o1[k - 1] by {
                if k < n - 1 {
                    assert(o1[k] == o0[k + 1]);
                    assert(a1[o0[k + 1]].prev == a0[o0[k + 1]].prev);
                } else {
                    assert(o1[k] == hi);
                    assert(a1[hi].prev as int == ti);
                }
            }
            assert(self@ =~= old(self)@.drop_first().push(old(self)@[0]));
        }
    }
}

} // verus!
