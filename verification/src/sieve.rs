//! The cache store: the key index, the entry list and the statistics.

use std::collections::HashMap;
use std::hash::Hash;
use vstd::prelude::*;
use crate::repr::key_model;
use crate::iter::CacheIterator;
use crate::model::CacheView;
use crate::node::overwrite;
use crate::node::set_visited;
use crate::node::Node;
use crate::types::CacheError;
use crate::types::CacheStats;

verus! {

/// A cache of at most `capacity` entries that evicts with the SIEVE policy.
///
/// Entries are kept in slots and named by their slot's handle, both by the
/// key index and by their list neighbours. Every operation takes the cache
/// exclusively.
pub struct SieveCache<K, V> {
    pub(crate) index: HashMap<K, usize>,
    pub(crate) nodes: Vec<Option<Node<K, V>>>,
    pub(crate) free: Vec<usize>,
    pub(crate) head: Option<usize>,
    pub(crate) tail: Option<usize>,
    pub(crate) hand: Option<usize>,
    pub(crate) size: usize,
    pub(crate) capacity: usize,
    pub(crate) stats: CacheStats,
    /// The handles of the listed slots, head first.
    pub(crate) order: Ghost<Seq<usize>>,
    /// The hand's index in `order`.
    pub(crate) hand_at: Ghost<Option<int>>,
}

impl<K: Eq + Hash + Clone, V: Clone> SieveCache<K, V> {
    /// An empty cache that holds at most `capacity` entries. A capacity
    /// below one is refused.
    pub fn new(capacity: usize) -> (r: Result<Self, CacheError>)
        requires
            key_model::<K>(),
        ensures
            r is Ok <==> capacity >= 1,
            r matches Ok(cache) ==> cache.wf() && cache@ == CacheView::<K, V>::empty(
                capacity as nat,
            ),
            r matches Err(e) ==> e matches CacheError::CapacityError(msg) && msg@
                == "Cache capacity cannot be zero"@,
    {
        if capacity < 1 {
            return Err(CacheError::CapacityError("Cache capacity cannot be zero".to_string()));
        }
        let cache = SieveCache {
            index: HashMap::new(),
            nodes: Vec::new(),
            free: Vec::new(),
            head: None,
            tail: None,
            hand: None,
            size: 0,
            capacity,
            stats: CacheStats { hits: 0, misses: 0 },
            order: Ghost(Seq::empty()),
            hand_at: Ghost(None),
        };
        assert(cache@.entries =~= Seq::empty());
        Ok(cache)
    }

    /// The number of entries.
    pub fn len(&self) -> (n: usize)
        requires
            self.wf(),
        ensures
            n == self@.len(),
            n <= self@.capacity,
    {
        self.size
    }

    /// The largest number of entries the cache holds.
    pub fn capacity(&self) -> (n: usize)
        requires
            self.wf(),
        ensures
            n == self@.capacity,
            n >= 1,
    {
        self.capacity
    }

    /// Whether the cache holds no entry.
    pub fn is_empty(&self) -> (b: bool)
        requires
            self.wf(),
        ensures
            b == (self@.len() == 0),
    {
        self.size == 0
    }

    /// The hit and miss counters.
    pub fn get_stats(&self) -> (stats: &CacheStats)
        ensures
            stats.hits == self@.hits,
            stats.misses == self@.misses,
    {
        &self.stats
    }

    /// Reads the value stored under `key`. A hit marks the entry visited and
    /// returns a clone of its value; the list keeps its order. Hits and
    /// misses are counted.
    pub fn get(&mut self, key: &K) -> (r: Result<Option<V>, CacheError>)
        requires
            old(self).wf(),
        ensures
            final(self).wf(),
            final(self)@ == old(self)@.after_get(*key),
            match r {
                Ok(Some(v)) => old(self)@.lookup(*key) matches Some(stored) && cloned(stored, v),
                Ok(None) => old(self)@.lookup(*key) is None,
                Err(_) => false,
            },
    {
        proof {
            self.lemma_locate(*key);
        }
        let found = match self.index.get(key) {
            Some(slot) => Some(*slot),
            None => None,
        };
        match found {
            Some(slot) => {
                let ghost p = self@.position(*key);
                set_visited(&mut self.nodes, slot, true);
                if self.stats.hits < usize::MAX {
                    self.stats.hits += 1;
                }
                let value = self.nodes[slot].as_ref().unwrap().value.clone();
                proof {
                    self.lemma_rewritten(old(self), p);
                    assert(self@.entries =~= old(self)@.after_get(*key).entries);
                }
                Ok(Some(value))
            },
            None => {
                if self.stats.misses < usize::MAX {
                    self.stats.misses += 1;
                }
                assert(self@.entries =~= old(self)@.entries);
                Ok(None)
            },
        }
    }

    /// How full the cache is, in whole percent.
    pub fn usage_percent(&self) -> (percent: usize)
        requires
            self.wf(),
        ensures
            percent == self@.usage_percent(),
            percent <= 100,
    {
        let used: u128 = self.size as u128;
        let room: u128 = self.capacity as u128;
        assert((used * 100) as int / (room as int) <= 100) by (nonlinear_arith)
            requires
                0 <= used <= room,
                room >= 1,
        ;
        (used * 100 / room) as usize
    }

    /// The share of reads that were hits, in whole percent; zero before the
    /// first read.
    pub fn hit_rate_percent(&self) -> (percent: usize)
        ensures
            percent == self@.hit_rate_percent(),
            percent <= 100,
    {
        let hits: u128 = self.stats.hits as u128;
        let reads: u128 = self.stats.hits as u128 + self.stats.misses as u128;
        if reads > 0 {
            assert((hits * 100) as int / (reads as int) <= 100) by (nonlinear_arith)
                requires
                    0 <= hits <= reads,
                    reads >= 1,
            ;
            (hits * 100 / reads) as usize
        } else {
            0
        }
    }

    /// A traversal of the entries from the head to the tail.
    pub fn iter(&self) -> (it: CacheIterator<'_, K, V>)
        requires
            self.wf(),
        ensures
            it.wf(),
            it.remaining() == self@.entries,
    {
        let it = CacheIterator { cache: self, current: self.head, at: Ghost(0) };
        assert(it.remaining() =~= self@.entries);
        it
    }

    /// Inserts an absent key: a full cache evicts one entry first, then the
    /// new entry becomes the head.
    pub(crate) fn insert(&mut self, key: K, value: V) -> (r: Result<(), CacheError>)
        requires
            old(self).wf(),
            !old(self)@.contains(key),
        ensures
            r is Ok,
            final(self).wf(),
            final(self)@ == old(self)@.after_insert(key, value),
    {
        proof {
            self.lemma_view_wf();
        }
        if self.size == self.capacity {
            proof {
                self@.lemma_evict();
            }
            let _ = self.evict();
        }
        self.insert_node(key, value)
    }

    /// Stores `value` under `key`. A present entry takes the value and is
    /// marked visited, and the result is `true`. An absent key is inserted
    /// at the head, after one eviction if the cache is full, and the result
    /// is `false`.
    #[must_use]
    pub fn add(&mut self, key: K, value: V) -> (r: Result<bool, CacheError>)
        requires
            old(self).wf(),
        ensures
            final(self).wf(),
            final(self)@ == old(self)@.after_add(key, value),
            r matches Ok(existed) && existed == old(self)@.contains(key),
    {
        proof {
            self.lemma_locate(key);
        }
        let found = match self.index.get(&key) {
            Some(slot) => Some(*slot),
            None => None,
        };
        match found {
            Some(slot) => {
                let ghost p = self@.position(key);
                overwrite(&mut self.nodes, slot, value);
                proof {
                    self.lemma_rewritten(old(self), p);
                    assert(self@.entries =~= old(self)@.after_add(key, value).entries);
                }
                Ok(true)
            },
            None => {
                let _ = self.insert(key, value);
                Ok(false)
            },
        }
    }

    /// Reads the value under `key`, or stores `value` there if the key is
    /// absent. A present entry is left untouched, visited bit included, and
    /// a clone of its value is returned with `true`. For an absent key a
    /// clone of `value` is inserted and `value` is returned with `false`.
    /// Probes are not counted as hits or misses.
    #[must_use]
    pub fn probe(&mut self, key: K, value: V) -> (r: Result<(V, bool), CacheError>)
        requires
            old(self).wf(),
        ensures
            final(self).wf(),
            r matches Ok((got, existed)) && existed == old(self)@.contains(key),
            old(self)@.lookup(key) matches Some(stored) ==> {
                &&& r matches Ok((got, _)) && cloned(stored, got)
                &&& final(self)@ == old(self)@
            },
            old(self)@.lookup(key) is None ==> {
                &&& r matches Ok((got, _)) && got == value
                &&& exists|kept: V| #[trigger]
                    cloned(value, kept) && final(self)@ == old(self)@.after_probe(key, kept)
            },
    {
        proof {
            self.lemma_locate(key);
        }
        let found = match self.index.get(&key) {
            Some(slot) => Some(*slot),
            None => None,
        };
        match found {
            Some(slot) => {
                let got = self.nodes[slot].as_ref().unwrap().value.clone();
                Ok((got, true))
            },
            None => {
                let kept = value.clone();
                assert(cloned(value, kept));
                let _ = self.insert(key, kept);
                assert(final(self)@ == old(self)@.after_probe(key, kept));
                Ok((value, false))
            },
        }
    }

    /// Removes the entry under `key` and says whether there was one.
    pub fn delete(&mut self, key: &K) -> (r: Result<bool, CacheError>)
        requires
            old(self).wf(),
        ensures
            final(self).wf(),
            final(self)@ == old(self)@.after_delete(*key),
            r matches Ok(existed) && existed == old(self)@.contains(*key),
    {
        proof {
            self.lemma_locate(*key);
        }
        match self.index.remove(key) {
            Some(slot) => {
                let ghost p = old(self)@.position(*key);
                let ghost mid = *self;
                assert(mid@.entries =~= old(self)@.entries);
                let _ = self.unlink_node(slot, Ghost(p));
                let ghost unlinked = *self;
                self.size -= 1;
                proof {
                    assert(self@.entries =~= unlinked@.entries);
                    assert forall|s: usize|
                        s != old(self).order@[p] && old(self).live(s) implies #[trigger] self.live(
                        s,
                    ) && self.node(s).key == old(self).node(s).key by {
                        assert(mid.live(s));
                        assert(unlinked.live(s));
                    }
                    Self::lemma_index_after_unlink(old(self), self, p, *key);
                }
                Ok(true)
            },
            None => {
                assert(self.index@ =~= old(self).index@);
                assert(self@.entries =~= old(self)@.entries);
                Ok(false)
            },
        }
    }

    /// Removes every entry and unsets the hand. Capacity and statistics stay
    /// as they are.
    pub fn purge(&mut self)
        requires
            old(self).wf(),
        ensures
            final(self).wf(),
            final(self)@ == old(self)@.after_purge(),
    {
        self.index.clear();
        self.nodes.clear();
        self.free.clear();
        self.head = None;
        self.tail = None;
        self.hand = None;
        self.size = 0;
        proof {
            self.order = Ghost(Seq::empty());
            self.hand_at = Ghost(None);
            assert(self@.entries =~= Seq::empty());
        }
    }
}

} // verus!
