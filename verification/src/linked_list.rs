//! Linking an entry in at the head of the list, and unlinking one.

use std::hash::Hash;
use vstd::prelude::*;
use crate::node::set_next;
use crate::node::set_prev;
use crate::node::Node;
use crate::sieve::SieveCache;
use crate::types::CacheError;

verus! {

impl<K: Eq + Hash + Clone, V: Clone> SieveCache<K, V> {
    /// Puts a new unvisited entry at the head of the list and registers its
    /// key. The key must be absent and the cache not full.
    pub(crate) fn insert_node(&mut self, key: K, value: V) -> (r: Result<(), CacheError>)
        requires
            old(self).wf(),
            old(self)@.len() < old(self)@.capacity,
            !old(self)@.contains(key),
        ensures
            final(self).wf(),
            final(self)@ == old(self)@.with_head(key, value),
            r is Ok,
    {
        proof {
            self.lemma_locate(key);
        }
        let stored_key = key.clone();
        assert(cloned(key, stored_key));
        let mut node = Node::new(stored_key, value);
        node.next = self.head;
        let slot = match self.free.pop() {
            Some(s) => {
                self.nodes[s] = Some(node);
                s
            },
            None => {
                self.nodes.push(Some(node));
                self.nodes.len() - 1
            },
        };
        assert(!old(self).order@.contains(slot));
        match self.head {
            Some(h) => {
                set_prev(&mut self.nodes, h, Some(slot));
            },
            None => {},
        }
        self.head = Some(slot);
        if self.tail.is_none() {
            self.tail = Some(slot);
        }
        self.index.insert(key, slot);
        self.size += 1;
        proof {
            self.order = Ghost(seq![slot] + old(self).order@);
            self.hand_at = Ghost(
                match old(self).hand_at@ {
                    Some(h) => Some(h + 1),
                    None => None,
                },
            );
            let old_order = old(self).order@;
            let order = self.order@;
            assert(order[0] == slot);
            assert forall|i: int| 1 <= i < order.len() implies #[trigger] order[i] == old_order[i
                - 1] by {}
            assert(order.no_duplicates());
            assert(self.list_ok());
            assert(stored_key == key);
            assert(!old(self).index@.contains_key(key));
            assert forall|i: int| 0 <= i < order.len() implies self.index@.contains_key(
                self.node(#[trigger] order[i]).key,
            ) && self.index@[self.node(order[i]).key] == order[i] by {
                if i > 0 {
                    assert(order[i] == old_order[i - 1]);
                    assert(self.node(order[i]).key == old(self).node(old_order[i - 1]).key);
                }
            }
            assert forall|k: K| #[trigger] self.index@.contains_key(k) implies order.contains(
                self.index@[k],
            ) && self.node(self.index@[k]).key == k by {
                if k == key {
                    assert(order[0] == slot);
                } else {
                    let i = choose|i: int|
                        0 <= i < old_order.len() && old_order[i] == old(self).index@[k];
                    assert(order[i + 1] == old_order[i]);
                }
            }
            assert(self.index_ok());
            assert(self@.entries =~= old(self)@.with_head(key, value).entries);
        }
        Ok(())
    }

    /// Takes the entry in `slot`, which stands at index `p` of the list, out
    /// of the list and vacates the slot. Its neighbours are joined; `head`
    /// and `tail` move off the entry, and so does the hand, towards the head.
    /// The index is left as it is.
    pub(crate) fn unlink_node(&mut self, slot: usize, Ghost(p): Ghost<int>) -> (r: Result<
        (),
        CacheError,
    >)
        requires
            old(self).list_ok(),
            0 <= p < old(self).order@.len(),
            old(self).order@[p] == slot,
        ensures
            r is Ok,
            final(self).list_ok(),
            final(self).order@ == old(self).order@.remove(p),
            final(self)@ == old(self)@.without(p),
            final(self).index == old(self).index,
            final(self).size == old(self).size,
            forall|s: usize|
                s != slot && old(self).live(s) ==> #[trigger] final(self).live(s)
                    && final(self).node(s).key == old(self).node(s).key,
    {
        let ghost old_order = self.order@;
        let (next, prev) = match &self.nodes[slot] {
            Some(node) => (node.next, node.prev),
            None => (None, None),
        };
        proof {
            if p > 0 {
                assert(prev == Some(old_order[p - 1]));
            }
            if p + 1 < old_order.len() {
                assert(next == Some(old_order[p + 1]));
            }
        }
        match prev {
            Some(before) => {
                set_next(&mut self.nodes, before, next);
            },
            None => {
                self.head = next;
            },
        }
        match next {
            Some(after) => {
                set_prev(&mut self.nodes, after, prev);
            },
            None => {
                self.tail = prev;
            },
        }
        let on_hand = match self.hand {
            Some(h) => h == slot,
            None => false,
        };
        if on_hand {
            self.hand = prev;
        }
        self.nodes[slot] = None;
        self.free.push(slot);
        proof {
            self.order = Ghost(old_order.remove(p));
            self.hand_at = Ghost(old(self)@.without(p).hand);
            let order = self.order@;
            assert forall|i: int| 0 <= i < order.len() implies #[trigger] order[i] == (if i < p {
                old_order[i]
            } else {
                old_order[i + 1]
            }) by {}
            assert(order.no_duplicates());
            assert forall|i: int| 0 <= i < order.len() implies self.live(#[trigger] order[i]) by {
                let k = if i < p { i } else { i + 1 };
                assert(old(self).live(old_order[k]));
            }
            assert forall|i: int, j: int|
                #![trigger order[i], order[j]]
                0 <= i && j == i + 1 && j < order.len() implies self.node(order[i]).next == Some(
                order[j],
            ) && self.node(order[j]).prev == Some(order[i]) by {
                let a = if i < p { i } else { i + 1 };
                let b = if j < p { j } else { j + 1 };
                assert(order[i] == old_order[a] && order[j] == old_order[b]);
                if b == a + 1 {
                    assert(old(self).node(old_order[a]).next == Some(old_order[b]));
                } else {
                    assert(a == p - 1 && b == p + 1);
                }
            }
            assert(self.list_ok());
            assert(self@.entries =~= old(self)@.without(p).entries);
        }
        Ok(())
    }
}

} // verus!
