//! The mathematical state of a cache and the transitions its operations make.

use vstd::prelude::*;

verus! {

/// One entry as contracts see it: its key, its value and its visited bit.
pub struct Entry<K, V> {
    pub key: K,
    pub value: V,
    pub visited: bool,
}

/// The abstract state of a cache.
///
/// `entries` lists the entries from the head (index 0, inserted last) to the
/// tail (last index, inserted first). `hand` is the index of the entry the
/// eviction hand rests on, if it is set.
pub struct CacheView<K, V> {
    pub entries: Seq<Entry<K, V>>,
    pub hand: Option<int>,
    pub capacity: nat,
    pub hits: nat,
    pub misses: nat,
}

/// One operation on a cache, with its arguments.
pub enum Operation<K, V> {
    Get(K),
    Add(K, V),
    Probe(K, V),
    Delete(K),
    Sweep,
    Evict,
    Purge,
}

/// A statistics counter after one more event: it counts up and stays at the
/// largest machine value once it has reached it.
pub open spec fn bump(n: nat) -> nat {
    if n < usize::MAX {
        n + 1
    } else {
        n
    }
}

impl<K, V> CacheView<K, V> {
    /// The state of a freshly built cache.
    pub open spec fn empty(capacity: nat) -> Self {
        CacheView { entries: Seq::empty(), hand: None, capacity, hits: 0, misses: 0 }
    }

    /// The number of entries.
    pub open spec fn len(self) -> nat {
        self.entries.len()
    }

    /// How full the cache is, in whole percent.
    pub open spec fn usage_percent(self) -> nat
        recommends
            self.capacity > 0,
    {
        (self.entries.len() * 100) / self.capacity
    }

    /// The share of reads that were hits, in whole percent; zero before the
    /// first read.
    pub open spec fn hit_rate_percent(self) -> nat {
        if self.hits + self.misses > 0 {
            (self.hits * 100) / (self.hits + self.misses)
        } else {
            0
        }
    }

    /// No key occurs in two entries.
    pub open spec fn keys_distinct(self) -> bool {
        forall|i: int, j: int|
            #![trigger self.entries[i], self.entries[j]]
            0 <= i < self.entries.len() && 0 <= j < self.entries.len() && self.entries[i].key
                == self.entries[j].key ==> i == j
    }

    /// What holds of every reachable state: the capacity is positive and never
    /// exceeded, keys are unique, and a set hand rests on an entry of the list.
    pub open spec fn wf(self) -> bool {
        &&& 1 <= self.capacity
        &&& self.entries.len() <= self.capacity
        &&& self.keys_distinct()
        &&& self.hand matches Some(h) ==> 0 <= h < self.entries.len()
    }

    /// The entry at index `i` holds `key`.
    pub open spec fn holds_at(self, key: K, i: int) -> bool {
        0 <= i < self.entries.len() && self.entries[i].key == key
    }

    /// Some entry holds `key`.
    pub open spec fn contains(self, key: K) -> bool {
        exists|i: int| self.holds_at(key, i)
    }

    /// The index of the entry that holds `key`, where there is one.
    pub open spec fn position(self, key: K) -> int {
        choose|i: int| self.holds_at(key, i)
    }

    /// The value stored under `key`.
    pub open spec fn lookup(self, key: K) -> Option<V> {
        if self.contains(key) {
            Some(self.entries[self.position(key)].value)
        } else {
            None
        }
    }

    /// The keys in list order, head first.
    pub open spec fn key_seq(self) -> Seq<K> {
        Seq::new(self.entries.len(), |i: int| self.entries[i].key)
    }

    /// The set of keys that can be retrieved.
    pub open spec fn keys(self) -> Set<K> {
        self.key_seq().to_set()
    }

    // ----- the sweep of the eviction hand -----
    /// Where a sweep begins: at the hand, or at the tail when the hand is unset.
    pub open spec fn sweep_start(self) -> int {
        match self.hand {
            Some(h) => h,
            None => self.entries.len() - 1,
        }
    }

    /// How many entries the hand inspects before it first reaches index `i`:
    /// it walks from the start towards the head and wraps from the head to the
    /// tail.
    pub open spec fn rank(self, i: int) -> int {
        let s = self.sweep_start();
        if i <= s {
            s - i
        } else {
            s + self.entries.len() - i
        }
    }

    /// Every entry has its visited bit set.
    pub open spec fn all_visited(self) -> bool {
        forall|i: int| 0 <= i < self.entries.len() ==> (#[trigger] self.entries[i]).visited
    }

    /// Index `v` is the first unvisited entry on the hand's way.
    pub open spec fn first_unvisited(self, v: int) -> bool {
        &&& 0 <= v < self.entries.len()
        &&& !self.entries[v].visited
        &&& forall|j: int|
            0 <= j < self.entries.len() && !(#[trigger] self.entries[j]).visited ==> self.rank(v)
                <= self.rank(j)
    }

    /// The index of the entry that the next eviction removes: the first
    /// unvisited entry on the hand's way, or, where every entry is visited,
    /// the entry the sweep started at, which the hand reaches again after it
    /// has cleared every bit.
    pub open spec fn victim(self) -> int {
        if self.all_visited() {
            self.sweep_start()
        } else {
            choose|v: int| self.first_unvisited(v)
        }
    }

    /// The number of entries that one sweep passes and gives a second
    /// chance: those before the victim on the hand's way, or all of them
    /// where every entry is visited.
    pub open spec fn second_chances(self) -> nat {
        if self.entries.len() == 0 {
            0
        } else if self.all_visited() {
            self.entries.len()
        } else {
            self.rank(self.victim()) as nat
        }
    }

    /// The number of visited bits that one sweep reads: one for each entry
    /// it passes and one for the victim.
    pub open spec fn inspections(self) -> nat {
        if self.entries.len() == 0 {
            0
        } else {
            self.second_chances() + 1
        }
    }

    /// The hand passes the entry at index `i` before it stops at the victim.
    pub open spec fn passed(self, i: int) -> bool {
        self.all_visited() || self.rank(i) < self.rank(self.victim())
    }

    /// The entries after the sweep and before the victim leaves: every entry
    /// that the hand passed has its visited bit cleared.
    pub open spec fn swept(self) -> Seq<Entry<K, V>> {
        Seq::new(
            self.entries.len(),
            |i: int|
                if self.passed(i) {
                    Entry { visited: false, ..self.entries[i] }
                } else {
                    self.entries[i]
                },
        )
    }

    // ----- transitions -----
    /// The state without the entry at index `i`. A hand that rested on that
    /// entry moves to its neighbour towards the head, and is unset where there
    /// is none; a hand elsewhere stays on its entry.
    pub open spec fn without(self, i: int) -> Self {
        CacheView {
            entries: self.entries.remove(i),
            hand: match self.hand {
                Some(h) => if h < i {
                    Some(h)
                } else if h == 0 {
                    None
                } else {
                    Some(h - 1)
                },
                None => None,
            },
            ..self
        }
    }

    /// The state with a new unvisited entry at the head.
    pub open spec fn with_head(self, key: K, value: V) -> Self {
        CacheView {
            entries: seq![Entry { key, value, visited: false }] + self.entries,
            hand: match self.hand {
                Some(h) => Some(h + 1),
                None => None,
            },
            ..self
        }
    }

    /// One sweep: the hand clears the visited bits of the entries it passes
    /// and comes to rest on the victim. Nothing changes in an empty cache.
    pub open spec fn after_sweep(self) -> Self {
        if self.entries.len() == 0 {
            self
        } else {
            CacheView { entries: self.swept(), hand: Some(self.victim()), ..self }
        }
    }

    /// One eviction: the hand sweeps to the victim, which leaves. Nothing
    /// changes in an empty cache.
    pub open spec fn after_evict(self) -> Self {
        if self.entries.len() == 0 {
            self
        } else {
            self.after_sweep().without(self.victim())
        }
    }

    /// Insertion of a key that is absent: a full cache evicts once, then the
    /// new entry becomes the head.
    pub open spec fn after_insert(self, key: K, value: V) -> Self {
        if self.entries.len() == self.capacity {
            self.after_evict().with_head(key, value)
        } else {
            self.with_head(key, value)
        }
    }

    /// A read of `key`: a hit marks the entry visited, and either a hit or a
    /// miss is counted. The list keeps its order.
    pub open spec fn after_get(self, key: K) -> Self {
        if self.contains(key) {
            let p = self.position(key);
            CacheView {
                entries: self.entries.update(p, Entry { visited: true, ..self.entries[p] }),
                hits: bump(self.hits),
                ..self
            }
        } else {
            CacheView { misses: bump(self.misses), ..self }
        }
    }

    /// A write of `value` under `key`: a present entry takes the value and is
    /// marked visited, an absent key is inserted.
    pub open spec fn after_add(self, key: K, value: V) -> Self {
        if self.contains(key) {
            let p = self.position(key);
            CacheView {
                entries: self.entries.update(
                    p,
                    Entry { key: self.entries[p].key, value, visited: true },
                ),
                ..self
            }
        } else {
            self.after_insert(key, value)
        }
    }

    /// A read-or-insert of `key`: a present entry is left as it is, an absent
    /// key is inserted. The statistics do not count a probe.
    pub open spec fn after_probe(self, key: K, value: V) -> Self {
        if self.contains(key) {
            self
        } else {
            self.after_insert(key, value)
        }
    }

    /// Removal of `key`, if it is present.
    pub open spec fn after_delete(self, key: K) -> Self {
        if self.contains(key) {
            self.without(self.position(key))
        } else {
            self
        }
    }

    /// Removal of every entry. Capacity and statistics stay.
    pub open spec fn after_purge(self) -> Self {
        CacheView { entries: Seq::empty(), hand: None, ..self }
    }

    /// The state after one operation.
    pub open spec fn after(self, op: Operation<K, V>) -> Self {
        match op {
            Operation::Get(key) => self.after_get(key),
            Operation::Add(key, value) => self.after_add(key, value),
            Operation::Probe(key, value) => self.after_probe(key, value),
            Operation::Delete(key) => self.after_delete(key),
            Operation::Sweep => self.after_sweep(),
            Operation::Evict => self.after_evict(),
            Operation::Purge => self.after_purge(),
        }
    }

    /// The state after a sequence of operations, the first one first.
    pub open spec fn after_all(self, ops: Seq<Operation<K, V>>) -> Self
        decreases ops.len(),
    {
        if ops.len() == 0 {
            self
        } else {
            self.after_all(ops.drop_last()).after(ops.last())
        }
    }
}

} // verus!
