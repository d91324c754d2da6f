use vstd::prelude::*;

verus! {

/// Link value meaning "no neighbour" / "not linked". It can never collide
/// with a valid arena index because the arena's capacity is kept strictly
/// below `usize::MAX`.
pub const NIL: usize = usize::MAX;

/// Opaque, stable identity of a process slot in the process table.
///
/// The scheduler only ever compares identifiers; it never dereferences them
/// or interprets the number inside.
#[derive(Clone, Copy, PartialEq, Eq, Structural, Debug)]
pub struct ProcessId {
    pub id: u32,
}

impl ProcessId {
    pub fn new(id: u32) -> (p: ProcessId)
        ensures
            p.id == id,
    {
        ProcessId { id }
    }
}

/// One scheduling record: a process identity plus the intrusive position
/// bookkeeping (arena indices of the previous and next queued record) that
/// lets the run queue unlink and relink it in place, without pointer chasing
/// and without moving the record out of its fixed slot.
#[derive(Clone, Copy, Debug)]
pub struct ProcessNode {
    pub identifier: ProcessId,
    pub prev: usize,
    pub next: usize,
    pub in_queue: bool,
}

impl ProcessNode {
    /// Builds an unlinked record for `identifier`. Construction is total: it
    /// cannot fail given a valid identifier.
    pub fn new(identifier: ProcessId) -> (n: ProcessNode)
        ensures
            n.identifier == identifier,
            !n.in_queue,
            n.prev == NIL,
            n.next == NIL,
    {
        ProcessNode { identifier, prev: NIL, next: NIL, in_queue: false }
    }
}

} // verus!
