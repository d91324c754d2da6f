use vstd::prelude::*;

use crate::node::ProcessId;
use crate::queue::RunQueue;

verus! {

/// Default timeslice quantum, in microseconds: the single, global maximum a
/// process may run before the external timer reports it as `Exhausted`.
pub const DEFAULT_TIMESLICE_US: u32 = 10000;

/// How the previously selected process's execution ended, as reported by the
/// kernel loop.
#[derive(Clone, Copy, PartialEq, Eq, Structural, Debug)]
pub enum Outcome {
    /// The process ran until the timer expired its timeslice.
    Exhausted,
    /// The process gave up the processor before its timeslice expired.
    Yielded,
    /// The process faulted and is no longer runnable.
    Faulted,
}

/// One round-robin rotation step: the head moves behind the tail; an idle
/// queue stays idle.
pub open spec fn rotate(queue: Seq<ProcessId>) -> Seq<ProcessId> {
    if queue.len() == 0 {
        queue
    } else {
        queue.drop_first().push(queue[0])
    }
}

/// `n` rotation steps in a row.
pub open spec fn rotations(queue: Seq<ProcessId>, n: nat) -> Seq<ProcessId>
    decreases n,
{
    if n == 0 {
        queue
    } else {
        rotations(rotate(queue), (n - 1) as nat)
    }
}

/// What `notify` leaves in the queue: an exhausted or yielding process is
/// sent behind the tail; a faulted one is retired without re-enqueueing, and
/// a fault report for a process that is no longer queued changes nothing.
pub open spec fn notify_effect(
    queue: Seq<ProcessId>,
    identifier: ProcessId,
    outcome: Outcome,
) -> Seq<ProcessId> {
    match outcome {
        Outcome::Exhausted | Outcome::Yielded => queue.drop_first().push(identifier),
        Outcome::Faulted => if queue.contains(identifier) {
            queue.drop_first()
        } else {
            queue
        },
    }
}

/// The decision surface consumed by the kernel loop: it owns the run queue
/// and the timeslice quantum, and is stateless otherwise — there is no
/// "currently running" flag. The loop is expected to call `next`, run that
/// process until it suspends, then report the outcome through `notify`
/// before calling `next` again.
pub struct SchedulerCore {
    processes: RunQueue,
    timeslice_us: u32,
}

impl View for SchedulerCore {
    type V = Seq<ProcessId>;

    /// The queued identifiers in rotation order, head first.
    closed spec fn view(&self) -> Seq<ProcessId> {
        self.processes@
    }
}

impl SchedulerCore {
    /// The scheduler's internal invariant: its run queue is well formed.
    pub closed spec fn wf(self) -> bool {
        self.processes.wf()
    }

    /// Maximum number of scheduling records the backing store can ever hold.
    pub closed spec fn cap(self) -> int {
        self.processes.cap()
    }

    /// Number of records carved out of the backing store so far; retired
    /// records keep their slot, so this never shrinks.
    pub closed spec fn node_count(self) -> int {
        self.processes.node_count()
    }

    /// The timeslice quantum this scheduler was built with.
    pub closed spec fn timeslice(self) -> u32 {
        self.timeslice_us
    }

    /// The membership invariant, made public: a well-formed scheduler never
    /// queues the same identifier twice, so a retired process can only come
    /// back through an explicit `add_process`.
    pub proof fn lemma_no_duplicate_identifiers(self)
        requires
            self.wf(),
        ensures
            self@.no_duplicates(),
    {
        self.processes.lemma_no_duplicate_identifiers();
    }

    /// Builds an idle scheduler over a backing store of `capacity` record
    /// slots, with the default timeslice quantum.
    pub fn new(capacity: usize) -> (s: SchedulerCore)
        requires
            capacity < usize::MAX,
        ensures
            s.wf(),
            s@ == Seq::<ProcessId>::empty(),
            s.cap() == capacity,
            s.node_count() == 0,
            s.timeslice() == DEFAULT_TIMESLICE_US,
    {
        SchedulerCore {
            processes: RunQueue::new(capacity),
            timeslice_us: DEFAULT_TIMESLICE_US,
        }
    }

    /// Selects the next process to run: the queue head, left in place, so
    /// that repeated calls without an intervening `notify` return the same
    /// answer. An empty queue yields nothing — the first-class idle signal,
    /// telling the kernel loop to enter its wait state.
    pub fn next(&self) -> (r: Option<ProcessId>)
        requires
            self.wf(),
        ensures
            self@.len() == 0 ==> r is None,
            self@.len() > 0 ==> r == Some(self@[0]),
    {
        self.processes.peek_head()
    }

    /// Number of queued processes.
    pub fn len(&self) -> (n: usize)
        requires
            self.wf(),
        ensures
            n == self@.len(),
    {
        self.processes.len()
    }

    /// True when no process is queued and the kernel loop may idle.
    pub fn is_idle(&self) -> (r: bool)
        requires
            self.wf(),
        ensures
            r == (self@.len() == 0),
    {
        self.processes.is_empty()
    }

    /// Reports how the previously selected process's execution ended.
    ///
    /// `identifier` must be the identifier most recently returned by `next` —
    /// that is, the queue head; a mismatch means the kernel loop and the
    /// scheduler disagree about what is running, a fatal inconsistency that
    /// the contract rules out rather than recovers from. The one exception is
    /// a `Faulted` report for a process no longer queued at all: independent
    /// teardown paths may both report it, so that is a benign no-op.
    ///
    /// `Exhausted` and `Yielded` rotate the head behind the tail — a process
    /// that yields early is deliberately treated exactly like one that ran
    /// out its timeslice, trading latency for freedom from starvation.
    /// `Faulted` retires the head without re-enqueueing it.
    pub fn notify(&mut self, identifier: ProcessId, outcome: Outcome)
        requires
            old(self).wf(),
            !(outcome is Faulted) ==> old(self)@.len() > 0 && old(self)@[0] == identifier,
            outcome is Faulted && old(self)@.contains(identifier) ==> old(self)@[0] == identifier,
        ensures
            final(self).wf(),
            final(self)@ == notify_effect(old(self)@, identifier, outcome),
            outcome is Faulted && !old(self)@.contains(identifier) ==> *final(self) == *old(self),
            final(self).cap() == old(self).cap(),
            final(self).node_count() == old(self).node_count(),
            final(self).timeslice() == old(self).timeslice(),
    {
        match outcome {
            Outcome::Exhausted | Outcome::Yielded => {
                self.processes.rotate_to_back();
            },
            Outcome::Faulted => {
                let head = self.processes.peek_head();
                match head {
                    Option::Some(h) => {
                        if h == identifier {
                            proof {
                                assert(old(self)@[0] == identifier);
                                assert(old(self)@.contains(identifier));
                            }
                            let _ = self.processes.pop_head();
                        } else {
                            proof {
                                assert(!old(self)@.contains(identifier));
                            }
                        }
                    },
                    Option::None => {
                        proof {
                            assert(!old(self)@.contains(identifier));
                        }
                    },
                }
            },
        }
    }

    /// Unlinks `identifier` from the run queue wherever it stands, for
    /// teardown paths other than a fault during execution. Returns whether a
    /// removal happened; asking for an identifier that is not queued is a
    /// benign no-op. The processes around it keep their relative order.
    pub fn remove(&mut self, identifier: ProcessId) -> (r: bool)
        requires
            old(self).wf(),
        ensures
            final(self).wf(),
            r == old(self)@.contains(identifier),
            final(self)@ == old(self)@.remove_value(identifier),
            final(self).cap() == old(self).cap(),
            final(self).node_count() == old(self).node_count(),
            final(self).timeslice() == old(self).timeslice(),
    {
        self.processes.remove(identifier)
    }

    /// Adds a newly loaded process at the tail, with the same contract as the
    /// initial seeding: the identifier must not be queued already, and the
    /// backing store must still have a free record slot — exceeding it is a
    /// configuration bug that the contract rules out, not a recoverable
    /// error.
    pub fn add_process(&mut self, identifier: ProcessId)
        requires
            old(self).wf(),
            old(self).node_count() < old(self).cap(),
            !old(self)@.contains(identifier),
        ensures
            final(self).wf(),
            final(self)@ == old(self)@.push(identifier),
            final(self).cap() == old(self).cap(),
            final(self).node_count() == old(self).node_count() + 1,
            final(self).timeslice() == old(self).timeslice(),
    {
        self.processes.push_tail(identifier)
    }

    /// Copies the queued identifiers out in rotation order, head first: a
    /// snapshot for lifecycle bookkeeping that must not drive the rotation.
    pub fn queued(&self) -> (r: Vec<ProcessId>)
        requires
            self.wf(),
        ensures
            r@ == self@,
    {
        self.processes.ids()
    }

    /// The timeslice quantum, in microseconds.
    pub fn timeslice_us(&self) -> (t: u32)
        ensures
            t == self.timeslice(),
    {
        self.timeslice_us
    }
}

/// A voluntary yield rotates the queue exactly as timeslice exhaustion does:
/// for every queue and every identifier, `notify` with `Yielded` leaves the
/// same order as `notify` with `Exhausted`.
pub proof fn lemma_yield_equals_exhaustion(queue: Seq<ProcessId>, identifier: ProcessId)
    ensures
        notify_effect(queue, identifier, Outcome::Yielded) == notify_effect(
            queue,
            identifier,
            Outcome::Exhausted,
        ),
{
}

/// Reporting the head as exhausted (or yielding) performs exactly one
/// round-robin rotation step.
pub proof fn lemma_notify_rotates(queue: Seq<ProcessId>, outcome: Outcome)
    requires
        queue.len() > 0,
        !(outcome is Faulted),
    ensures
        notify_effect(queue, queue[0], outcome) == rotate(queue),
{
}

/// Round-robin closure: rotating a queue once per queued process brings it
/// back to exactly its original order, so the schedule is periodic with the
/// queue length as its period.
pub proof fn lemma_round_robin_period(queue: Seq<ProcessId>)
    ensures
        rotations(queue, queue.len()) == queue,
{
    lemma_rotations_shift(queue, queue.len());
    assert(queue.subrange(queue.len() as int, queue.len() as int) + queue.subrange(
        0,
        queue.len() as int,
    ) =~= queue);
}

/// After `n` rotation steps the queue is its own suffix of length `len - n`
/// followed by its own prefix of length `n`.
proof fn lemma_rotations_shift(queue: Seq<ProcessId>, n: nat)
    requires
        n <= queue.len(),
    ensures
        rotations(queue, n) == queue.subrange(n as int, queue.len() as int) + queue.subrange(
            0,
            n as int,
        ),
    decreases n,
{
    if n == 0 {
        assert(queue.subrange(0, queue.len() as int) + queue.subrange(0, 0) =~= queue);
    } else {
        let r = rotate(queue);
        assert(queue.len() > 0);
        lemma_rotations_shift(r, (n - 1) as nat);
        assert(r.subrange(n as int - 1, r.len() as int) + r.subrange(0, n as int - 1) =~= queue.subrange(
            n as int,
            queue.len() as int,
        ) + queue.subrange(0, n as int));
    }
}

} // verus!
