use round_robin::node::{ProcessId, ProcessNode, NIL};
use round_robin::queue::RunQueue;

fn pid(id: u32) -> ProcessId {
    ProcessId::new(id)
}

#[test]
fn node_construction_is_total_and_unlinked() {
    let n = ProcessNode::new(pid(42));
    assert_eq!(n.identifier, pid(42));
    assert!(!n.in_queue);
    assert_eq!(n.prev, NIL);
    assert_eq!(n.next, NIL);
}

#[test]
fn new_queue_is_empty() {
    let q = RunQueue::new(8);
    assert!(q.is_empty());
    assert_eq!(q.len(), 0);
    assert_eq!(q.peek_head(), None);
    assert_eq!(q.ids(), Vec::<ProcessId>::new());
}

#[test]
fn push_tail_appends_in_order() {
    let mut q = RunQueue::new(4);
    q.push_tail(pid(1));
    q.push_tail(pid(2));
    q.push_tail(pid(3));
    assert_eq!(q.len(), 3);
    assert_eq!(q.ids(), vec![pid(1), pid(2), pid(3)]);
    assert_eq!(q.peek_head(), Some(pid(1)));
}

#[test]
fn push_head_prepends() {
    let mut q = RunQueue::new(4);
    q.push_tail(pid(2));
    q.push_head(pid(1));
    assert_eq!(q.ids(), vec![pid(1), pid(2)]);
    assert_eq!(q.peek_head(), Some(pid(1)));
}

#[test]
fn pop_head_returns_fifo_order() {
    let mut q = RunQueue::new(3);
    q.push_tail(pid(1));
    q.push_tail(pid(2));
    assert_eq!(q.pop_head(), Some(pid(1)));
    assert_eq!(q.pop_head(), Some(pid(2)));
    assert_eq!(q.pop_head(), None);
    assert!(q.is_empty());
}

#[test]
fn pop_on_empty_queue_is_none() {
    let mut q = RunQueue::new(2);
    assert_eq!(q.pop_head(), None);
    assert_eq!(q.pop_head(), None);
}

#[test]
fn rotate_moves_head_to_tail() {
    let mut q = RunQueue::new(3);
    q.push_tail(pid(1));
    q.push_tail(pid(2));
    q.push_tail(pid(3));
    q.rotate_to_back();
    assert_eq!(q.ids(), vec![pid(2), pid(3), pid(1)]);
    q.rotate_to_back();
    q.rotate_to_back();
    assert_eq!(q.ids(), vec![pid(1), pid(2), pid(3)]);
}

#[test]
fn rotate_on_empty_or_single_changes_nothing() {
    let mut q = RunQueue::new(2);
    q.rotate_to_back();
    assert!(q.is_empty());
    q.push_tail(pid(9));
    q.rotate_to_back();
    assert_eq!(q.ids(), vec![pid(9)]);
    assert_eq!(q.peek_head(), Some(pid(9)));
}

#[test]
fn remove_unlinks_mid_queue() {
    let mut q = RunQueue::new(4);
    q.push_tail(pid(1));
    q.push_tail(pid(2));
    q.push_tail(pid(3));
    q.push_tail(pid(4));
    assert!(q.remove(pid(3)));
    assert_eq!(q.ids(), vec![pid(1), pid(2), pid(4)]);
    assert!(!q.remove(pid(3)));
    assert_eq!(q.ids(), vec![pid(1), pid(2), pid(4)]);
}

#[test]
fn remove_head_and_tail() {
    let mut q = RunQueue::new(3);
    q.push_tail(pid(1));
    q.push_tail(pid(2));
    q.push_tail(pid(3));
    assert!(q.remove(pid(1)));
    assert_eq!(q.peek_head(), Some(pid(2)));
    assert!(q.remove(pid(3)));
    assert_eq!(q.ids(), vec![pid(2)]);
    assert!(q.remove(pid(2)));
    assert!(q.is_empty());
}

#[test]
fn retired_slots_are_not_reused_but_queue_keeps_working() {
    let mut q = RunQueue::new(4);
    q.push_tail(pid(1));
    q.push_tail(pid(2));
    assert_eq!(q.pop_head(), Some(pid(1)));
    q.push_tail(pid(3));
    q.push_tail(pid(4));
    assert_eq!(q.ids(), vec![pid(2), pid(3), pid(4)]);
}
