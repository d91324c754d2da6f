use vstd::prelude::*;

use crate::node::ProcessId;
use crate::sched::SchedulerCore;

verus! {

/// The identifiers of the occupied entries of a process-table snapshot, in
/// table order: what one boot-time seeding pass leaves in the run queue.
pub open spec fn seeded(table: Seq<Option<ProcessId>>) -> Seq<ProcessId>
    decreases table.len(),
{
    if table.len() == 0 {
        Seq::empty()
    } else {
        match table.last() {
            Some(identifier) => seeded(table.drop_last()).push(identifier),
            None => seeded(table.drop_last()),
        }
    }
}

/// A table cannot seed more processes than it has entries.
pub proof fn lemma_seeded_len(table: Seq<Option<ProcessId>>)
    ensures
        seeded(table).len() <= table.len(),
    decreases table.len(),
{
    if table.len() > 0 {
        lemma_seeded_len(table.drop_last());
    }
}

/// An identifier is seeded exactly when some table entry holds it.
pub proof fn lemma_seeded_contains(table: Seq<Option<ProcessId>>, identifier: ProcessId)
    ensures
        seeded(table).contains(identifier) <==> exists|i: int|
            0 <= i < table.len() && table[i] == Some(identifier),
    decreases table.len(),
{
    if table.len() > 0 {
        let prefix = table.drop_last();
        lemma_seeded_contains(prefix, identifier);
        assert(forall|i: int| 0 <= i < prefix.len() ==> #[trigger] prefix[i] == table[i]);
        if seeded(table).contains(identifier) {
            let j = choose|j: int|
                0 <= j < seeded(table).len() && seeded(table)[j] == identifier;
            match table.last() {
                Some(last_id) => {
                    if j < seeded(prefix).len() {
                        assert(seeded(prefix)[j] == identifier);
                        assert(seeded(prefix).contains(identifier));
                    } else {
                        assert(last_id == identifier);
                        assert(table[table.len() - 1] == Some(identifier));
                    }
                },
                None => {
                    assert(seeded(prefix)[j] == identifier);
                    assert(seeded(prefix).contains(identifier));
                },
            }
        }
        if exists|i: int| 0 <= i < table.len() && table[i] == Some(identifier) {
            let i = choose|i: int| 0 <= i < table.len() && table[i] == Some(identifier);
            if i < table.len() - 1 {
                assert(prefix[i] == Some(identifier));
                assert(seeded(prefix).contains(identifier));
                let j = choose|j: int|
                    0 <= j < seeded(prefix).len() && seeded(prefix)[j] == identifier;
                assert(seeded(table)[j] == identifier);
                assert(seeded(table).contains(identifier));
            } else {
                match table.last() {
                    Some(last_id) => {
                        assert(seeded(table).last() == identifier);
                        assert(seeded(table).contains(identifier));
                    },
                    None => {},
                }
            }
        }
    }
}

/// One-shot builder: given the size of the caller's backing store — one
/// record slot per potential process — and a snapshot of the process table,
/// it creates one scheduling record per occupied entry, in table order, seeds
/// the run queue with them, and hands back a ready scheduler. Empty entries
/// are skipped: the queue holds only the processes that exist at boot;
/// processes loaded later go through `SchedulerCore::add_process`. No
/// partially seeded scheduler is ever observable outside this function.
///
/// The table may not list the same identifier in two occupied entries (a
/// process occupies at most one slot), and may not be longer than the backing
/// store — the seeding can then never exceed the store's capacity.
pub fn initialize(capacity: usize, table: &Vec<Option<ProcessId>>) -> (s: SchedulerCore)
    requires
        capacity < usize::MAX,
        table@.len() <= capacity,
        forall|i: int, j: int|
            0 <= i < j < table@.len() && #[trigger] table@[i] is Some && #[trigger] table@[j] is Some
                ==> table@[i] != table@[j],
    ensures
        s.wf(),
        s@ == seeded(table@),
        s.cap() == capacity,
        s.node_count() == seeded(table@).len(),
        s.node_count() <= s.cap(),
        s.timeslice() == crate::sched::DEFAULT_TIMESLICE_US,
{
    let mut s = SchedulerCore::new(capacity);
    let n = table.len();
    let mut i: usize = 0;
    while i < n
        invariant
            s.wf(),
            s.cap() == capacity as int,
            s.timeslice() == crate::sched::DEFAULT_TIMESLICE_US,
            n == table@.len(),
            table@.len() <= capacity,
            0 <= i <= n,
            s@ == seeded(table@.subrange(0, i as int)),
            s.node_count() == s@.len(),
            forall|p: int, q: int|
                0 <= p < q < table@.len() && #[trigger] table@[p] is Some
                    && #[trigger] table@[q] is Some ==> table@[p] != table@[q],
        decreases n - i,
    {
        let ghost prefix = table@.subrange(0, i as int);
        let entry = table[i];
        match entry {
            Option::Some(identifier) => {
                proof {
                    lemma_seeded_len(prefix);
                    lemma_seeded_contains(prefix, identifier);
                    assert(forall|p: int| 0 <= p < i ==> #[trigger] prefix[p] == table@[p]);
                    assert(!s@.contains(identifier)) by {
                        if s@.contains(identifier) {
                            let p = choose|p: int|
                                0 <= p < prefix.len() && prefix[p] == Some(identifier);
                            assert(table@[p] == Some(identifier));
                            assert(table@[i as int] == Some(identifier));
                            assert(table@[p] is Some && table@[i as int] is Some);
                        }
                    }
                }
                s.add_process(identifier);
            },
            Option::None => {},
        }
        proof {
            let longer = table@.subrange(0, i as int + 1);
            assert(longer.drop_last() =~= prefix);
            assert(longer.last() == table@[i as int]);
            assert(s@ == seeded(longer));
        }
        i = i + 1;
    }
    proof {
        assert(table@.subrange(0, n as int) =~= table@);
        lemma_seeded_len(table@);
    }
    s
}

} // verus!
