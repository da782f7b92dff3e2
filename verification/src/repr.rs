//! The representation of the cache and the invariant that ties its parts
//! together: the slots, the list that links them, the key index and the hand.

use std::hash::Hash;
use vstd::prelude::*;
use vstd::std_specs::hash::obeys_key_model;
use crate::model::CacheView;
use crate::model::Entry;
use crate::node::Node;
use crate::sieve::SieveCache;

verus! {

/// What the cache needs of its key type: hashing and `==` agree with
/// equality of values, so that a hash map keyed by it behaves as a map, and a
/// clone of a key is that key. The integer types meet this.
pub open spec fn key_model<K: Clone>() -> bool {
    &&& obeys_key_model::<K>()
    &&& forall|a: K, b: K| #[trigger] cloned(a, b) ==> a == b
}

impl<K, V> View for SieveCache<K, V> {
    type V = CacheView<K, V>;

    open(crate) spec fn view(&self) -> CacheView<K, V> {
        CacheView {
            entries: Seq::new(self.order@.len(), |i: int| self.entry_at(i)),
            hand: self.hand_at@,
            capacity: self.capacity as nat,
            hits: self.stats.hits as nat,
            misses: self.stats.misses as nat,
        }
    }
}

impl<K, V> SieveCache<K, V> {
    /// Slot `s` holds an entry.
    pub open(crate) spec fn live(&self, s: usize) -> bool {
        (s as int) < self.nodes@.len() && self.nodes@[s as int] is Some
    }

    /// The entry in slot `s`.
    pub open(crate) spec fn node(&self, s: usize) -> Node<K, V> {
        self.nodes@[s as int]->0
    }

    /// The entry at index `i` of the list.
    pub open(crate) spec fn entry_at(&self, i: int) -> Entry<K, V> {
        let n = self.node(self.order@[i]);
        Entry { key: n.key, value: n.value, visited: n.visited }
    }

    /// The slots in `order` are linked in that order, `head`, `tail` and
    /// `hand` name slots of it, and the slots set aside for reuse are vacant.
    pub open(crate) spec fn list_ok(&self) -> bool {
        let order = self.order@;
        let n = order.len();
        &&& order.no_duplicates()
        &&& forall|i: int| 0 <= i < n ==> self.live(#[trigger] order[i])
        &&& forall|i: int, j: int|
            #![trigger order[i], order[j]]
            0 <= i && j == i + 1 && j < n ==> self.node(order[i]).next == Some(order[j])
                && self.node(order[j]).prev == Some(order[i])
        &&& n > 0 ==> self.node(order[0]).prev is None && self.node(order[n - 1]).next is None
        &&& self.head == (if n == 0 {
            None
        } else {
            Some(order[0])
        })
        &&& self.tail == (if n == 0 {
            None
        } else {
            Some(order[n - 1])
        })
        &&& match self.hand_at@ {
            Some(p) => 0 <= p < n && self.hand == Some(order[p]),
            None => self.hand is None,
        }
        &&& self.free@.no_duplicates()
        &&& forall|j: int|
            0 <= j < self.free@.len() ==> (#[trigger] self.free@[j] as int) < self.nodes@.len()
                && self.nodes@[self.free@[j] as int] is None
    }

    /// The index maps the key of every listed entry to its slot, and nothing
    /// else.
    pub open(crate) spec fn index_ok(&self) -> bool {
        let order = self.order@;
        &&& forall|i: int|
            0 <= i < order.len() ==> self.index@.contains_key(self.node(#[trigger] order[i]).key)
                && self.index@[self.node(order[i]).key] == order[i]
        &&& forall|k: K| #[trigger]
            self.index@.contains_key(k) ==> order.contains(self.index@[k]) && self.node(
                self.index@[k],
            ).key == k
    }
}

impl<K: Eq + Hash + Clone, V: Clone> SieveCache<K, V> {
    /// The invariant of the representation. Every constructor establishes
    /// it and every operation keeps it.
    pub open(crate) spec fn wf(&self) -> bool {
        &&& key_model::<K>()
        &&& 1 <= self.capacity
        &&& self.size == self.order@.len()
        &&& self.size <= self.capacity
        &&& self.list_ok()
        &&& self.index_ok()
    }

    /// The index and the list hold the same keys, each once, and the index
    /// leads to the slot of the entry that holds the key.
    pub(crate) proof fn lemma_locate(&self, key: K)
        requires
            self.list_ok(),
            self.index_ok(),
        ensures
            self@.keys_distinct(),
            self.index@.contains_key(key) <==> self@.contains(key),
            self@.contains(key) ==> {
                let p = self@.position(key);
                &&& self@.holds_at(key, p)
                &&& self.order@[p] == self.index@[key]
            },
    {
        let order = self.order@;
        assert forall|i: int, j: int|
            0 <= i < self@.entries.len() && 0 <= j < self@.entries.len() && self@.entries[i].key
                == self@.entries[j].key implies i == j by {
            let k = self@.entries[i].key;
            assert(self.node(order[i]).key == k);
            assert(self.node(order[j]).key == k);
            assert(order[i] == self.index@[k]);
            assert(order[j] == self.index@[k]);
        }
        if self.index@.contains_key(key) {
            let s = self.index@[key];
            let i = choose|i: int| 0 <= i < order.len() && order[i] == s;
            assert(self@.holds_at(key, i));
        }
        if self@.contains(key) {
            let p = self@.position(key);
            assert(self@.holds_at(key, p));
            assert(self.node(order[p]).key == key);
        }
    }

    /// A change to value and visited bit of the entry at index `p` alone
    /// keeps the representation sound and every other entry as it was.
    pub(crate) proof fn lemma_rewritten(&self, before: &Self, p: int)
        requires
            before.wf(),
            0 <= p < before.order@.len(),
            self.nodes@.len() == before.nodes@.len(),
            self.live(before.order@[p]),
            self.node(before.order@[p]).key == before.node(before.order@[p]).key,
            self.node(before.order@[p]).next == before.node(before.order@[p]).next,
            self.node(before.order@[p]).prev == before.node(before.order@[p]).prev,
            forall|s: int|
                0 <= s < before.nodes@.len() && s != before.order@[p] ==> self.nodes@[s]
                    == before.nodes@[s],
            self.index == before.index,
            self.free == before.free,
            self.head == before.head,
            self.tail == before.tail,
            self.hand == before.hand,
            self.size == before.size,
            self.capacity == before.capacity,
            self.order == before.order,
            self.hand_at == before.hand_at,
        ensures
            self.wf(),
            self@.entries.len() == before@.entries.len(),
            self@.entries[p] == self.entry_at(p),
            forall|i: int|
                0 <= i < before@.entries.len() && i != p ==> #[trigger] self@.entries[i]
                    == before@.entries[i],
    {
        let order = self.order@;
        assert forall|i: int| 0 <= i < order.len() && i != p implies self.nodes@[order[i] as int]
            == before.nodes@[#[trigger] order[i] as int] by {
            assert(before.live(order[i]));
        }
        assert forall|i: int| 0 <= i < order.len() implies self.live(#[trigger] order[i]) by {
            assert(before.live(order[i]));
        }
        assert forall|i: int, j: int|
            #![trigger order[i], order[j]]
            0 <= i && j == i + 1 && j < order.len() implies self.node(order[i]).next == Some(
            order[j],
        ) && self.node(order[j]).prev == Some(order[i]) by {
            assert(before.node(order[i]).next == Some(order[j]));
        }
        assert(self.list_ok());
        assert forall|i: int| 0 <= i < order.len() implies self.index@.contains_key(
            self.node(#[trigger] order[i]).key,
        ) && self.index@[self.node(order[i]).key] == order[i] by {
            assert(before.index@[before.node(order[i]).key] == order[i]);
        }
        assert forall|k: K| #[trigger] self.index@.contains_key(k) implies order.contains(
            self.index@[k],
        ) && self.node(self.index@[k]).key == k by {
            let i = choose|i: int| 0 <= i < order.len() && order[i] == before.index@[k];
            assert(before.live(order[i]));
        }
        assert forall|i: int| 0 <= i < before@.entries.len() && i != p implies #[trigger] self@.entries[i]
            == before@.entries[i] by {
            assert(self.entry_at(i) == before.entry_at(i));
        }
    }

    /// Once the entry at index `p` has been unlinked and its key taken out of
    /// the index, index and list agree again.
    pub(crate) proof fn lemma_index_after_unlink(before: &Self, after: &Self, p: int, key: K)
        requires
            before.list_ok(),
            before.index_ok(),
            0 <= p < before.order@.len(),
            before.node(before.order@[p]).key == key,
            after.order@ == before.order@.remove(p),
            after.index@ == before.index@.remove(key),
            forall|s: usize|
                s != before.order@[p] && before.live(s) ==> #[trigger] after.live(s)
                    && after.node(s).key == before.node(s).key,
        ensures
            after.index_ok(),
    {
        let old_order = before.order@;
        let order = after.order@;
        assert forall|i: int| 0 <= i < order.len() implies after.index@.contains_key(
            after.node(#[trigger] order[i]).key,
        ) && after.index@[after.node(order[i]).key] == order[i] by {
            let a = if i < p {
                i
            } else {
                i + 1
            };
            assert(order[i] == old_order[a]);
            assert(before.live(old_order[a]));
            assert(after.live(old_order[a]));
            assert(before.index@[before.node(old_order[a]).key] == old_order[a]);
            assert(before.index@[before.node(old_order[p]).key] == old_order[p]);
        }
        assert forall|k: K| #[trigger] after.index@.contains_key(k) implies order.contains(
            after.index@[k],
        ) && after.node(after.index@[k]).key == k by {
            let s = before.index@[k];
            let a = choose|a: int| 0 <= a < old_order.len() && old_order[a] == s;
            assert(before.live(old_order[a]));
            assert(after.live(s));
            if a < p {
                assert(order[a] == s);
            } else {
                assert(order[a - 1] == s);
            }
        }
    }

    /// The key is registered in the index.
    pub open(crate) spec fn indexed(&self, key: K) -> bool {
        self.index@.contains_key(key)
    }

    /// Index and list hold the same keys: a key is registered in the index
    /// exactly if an entry of the list holds it, and no two entries of the
    /// list hold the same key.
    pub proof fn lemma_index_matches_list(&self)
        requires
            self.wf(),
        ensures
            self@.keys_distinct(),
            forall|key: K| #[trigger] self.indexed(key) <==> self@.contains(key),
    {
        self.lemma_view_wf();
        assert forall|key: K| #[trigger] self.indexed(key) <==> self@.contains(key) by {
            self.lemma_locate(key);
        }
    }

    /// The state of a sound cache is a sound state of the model.
    pub proof fn lemma_view_wf(&self)
        requires
            self.wf(),
        ensures
            self@.wf(),
    {
        if self.order@.len() > 0 {
            self.lemma_locate(self.node(self.order@[0]).key);
        } else {
            assert(self@.keys_distinct());
        }
    }
}

} // verus!
