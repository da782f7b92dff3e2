//! The slots of the entry list.

use vstd::prelude::*;

verus! {

/// One entry of the list. Its neighbours are named by the handles of their
/// slots, so a removed entry leaves no reference behind.
pub struct Node<K, V> {
    pub key: K,
    pub value: V,
    pub visited: bool,
    /// The neighbour towards the tail.
    pub next: Option<usize>,
    /// The neighbour towards the head.
    pub prev: Option<usize>,
}

impl<K, V> Node<K, V> {
    /// An unvisited entry without neighbours.
    pub fn new(key: K, value: V) -> (node: Self)
        ensures
            node.key == key,
            node.value == value,
            !node.visited,
            node.next is None,
            node.prev is None,
    {
        Node { key, value, visited: false, next: None, prev: None }
    }
}

/// Writes the tailward neighbour of the entry in `slot`.
pub(crate) fn set_next<K, V>(nodes: &mut Vec<Option<Node<K, V>>>, slot: usize, next: Option<usize>)
    requires
        slot < old(nodes)@.len(),
        old(nodes)@[slot as int] is Some,
    ensures
        final(nodes)@ == old(nodes)@.update(
            slot as int,
            Some(Node { next, ..old(nodes)@[slot as int]->0 }),
        ),
{
    match &mut nodes[slot] {
        Some(node) => {
            node.next = next;
        },
        None => {},
    }
}

/// Writes the headward neighbour of the entry in `slot`.
pub(crate) fn set_prev<K, V>(nodes: &mut Vec<Option<Node<K, V>>>, slot: usize, prev: Option<usize>)
    requires
        slot < old(nodes)@.len(),
        old(nodes)@[slot as int] is Some,
    ensures
        final(nodes)@ == old(nodes)@.update(
            slot as int,
            Some(Node { prev, ..old(nodes)@[slot as int]->0 }),
        ),
{
    match &mut nodes[slot] {
        Some(node) => {
            node.prev = prev;
        },
        None => {},
    }
}

/// Writes the visited bit of the entry in `slot`.
pub(crate) fn set_visited<K, V>(nodes: &mut Vec<Option<Node<K, V>>>, slot: usize, visited: bool)
    requires
        slot < old(nodes)@.len(),
        old(nodes)@[slot as int] is Some,
    ensures
        final(nodes)@ == old(nodes)@.update(
            slot as int,
            Some(Node { visited, ..old(nodes)@[slot as int]->0 }),
        ),
{
    match &mut nodes[slot] {
        Some(node) => {
            node.visited = visited;
        },
        None => {},
    }
}

/// Stores `value` in the entry in `slot` and marks the entry visited.
pub(crate) fn overwrite<K, V>(nodes: &mut Vec<Option<Node<K, V>>>, slot: usize, value: V)
    requires
        slot < old(nodes)@.len(),
        old(nodes)@[slot as int] is Some,
    ensures
        final(nodes)@ == old(nodes)@.update(
            slot as int,
            Some(Node { value, visited: true, ..old(nodes)@[slot as int]->0 }),
        ),
{
    match &mut nodes[slot] {
        Some(node) => {
            node.visited = true;
            node.value = value;
        },
        None => {},
    }
}

} // verus!
