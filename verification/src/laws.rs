//! What holds of every cache state and of every operation, proved of the
//! model that the operations implement.

use vstd::prelude::*;
use crate::model::bump;
use crate::model::CacheView;
use crate::model::Entry;
use crate::model::Operation;

verus! {

impl<K, V> CacheView<K, V> {
    /// The index that the hand inspects after `r` earlier inspections of one
    /// round.
    spec fn at_rank(self, r: int) -> int {
        let s = self.sweep_start();
        if r <= s {
            s - r
        } else {
            s + self.entries.len() - r
        }
    }

    /// Some entry is first on the hand's way among the unvisited ones, as
    /// soon as the hand has passed `r` visited entries and an unvisited one
    /// is left.
    proof fn lemma_first_unvisited_exists(self, r: int)
        requires
            self.wf(),
            0 <= r <= self.entries.len(),
            !self.all_visited(),
            forall|i: int|
                0 <= i < self.entries.len() && self.rank(i) < r ==> (
                #[trigger] self.entries[i]).visited,
        ensures
            exists|v: int| self.first_unvisited(v),
        decreases self.entries.len() - r,
    {
        let len = self.entries.len() as int;
        if r == len {
            assert forall|i: int| 0 <= i < len implies (#[trigger] self.entries[i]).visited by {
                assert(self.rank(i) < len);
            }
        } else {
            let i = self.at_rank(r);
            assert(0 <= i < len && self.rank(i) == r);
            if !self.entries[i].visited {
                assert(self.first_unvisited(i));
            } else {
                assert forall|j: int| 0 <= j < len && self.rank(j) < r + 1 implies (
                #[trigger] self.entries[j]).visited by {
                    if self.rank(j) == r {
                        assert(j == i);
                    }
                }
                self.lemma_first_unvisited_exists(r + 1);
            }
        }
    }

    /// The victim is an entry of the list. Where some entry is unvisited, the
    /// victim is unvisited and no unvisited entry comes before it on the
    /// hand's way; where all are visited, it is the entry the sweep starts at.
    pub proof fn lemma_victim(self)
        requires
            self.wf(),
            self.entries.len() > 0,
        ensures
            0 <= self.victim() < self.entries.len(),
            0 <= self.sweep_start() < self.entries.len(),
            !self.all_visited() ==> self.first_unvisited(self.victim()),
            self.all_visited() ==> self.victim() == self.sweep_start(),
    {
        if !self.all_visited() {
            self.lemma_first_unvisited_exists(0);
        }
    }

    /// An eviction reads at most one visited bit more than there are
    /// entries, and so at most twice as many bits as there are entries: one
    /// full round and the final hit.
    pub proof fn lemma_sweep_bound(self)
        requires
            self.wf(),
        ensures
            self.second_chances() <= self.entries.len(),
            self.inspections() <= self.entries.len() + 1,
            self.inspections() <= 2 * self.entries.len(),
            self.entries.len() > 0 ==> self.inspections() >= 1,
    {
        if self.entries.len() > 0 {
            self.lemma_victim();
        }
    }

    /// An eviction from a cache that is not empty removes exactly the victim:
    /// one entry fewer, every other entry still there in its place with its
    /// key and value, and the state is sound again.
    pub proof fn lemma_evict(self)
        requires
            self.wf(),
            self.entries.len() > 0,
        ensures
            self.after_evict().wf(),
            self.after_evict().entries.len() == self.entries.len() - 1,
            forall|k: K|
                #[trigger] self.after_evict().contains(k) <==> self.contains(k) && k
                    != self.entries[self.victim()].key,
            forall|k: K|
                self.contains(k) && k != self.entries[self.victim()].key
                    ==> #[trigger] self.after_evict().lookup(k) == self.lookup(k),
            self.after_evict().capacity == self.capacity,
            self.after_evict().hits == self.hits,
            self.after_evict().misses == self.misses,
    {
        self.lemma_victim();
        let v = self.victim();
        let swept = self.after_sweep();
        assert(swept.wf()) by {
            assert forall|i: int, j: int|
                0 <= i < swept.entries.len() && 0 <= j < swept.entries.len()
                    && swept.entries[i].key == swept.entries[j].key implies i == j by {
                assert(self.entries[i].key == self.entries[j].key);
            }
        }
        assert forall|i: int| 0 <= i < swept.entries.len() implies (
        #[trigger] swept.entries[i]).key == self.entries[i].key && swept.entries[i].value
            == self.entries[i].value by {}
        swept.lemma_without(v);
        assert forall|k: K|
            #[trigger] self.after_evict().contains(k) <==> self.contains(k) && k
                != self.entries[v].key by {
            if swept.contains(k) {
                let i = swept.position(k);
                assert(swept.holds_at(k, i));
                assert(self.holds_at(k, i));
            }
            if self.contains(k) {
                let i = self.position(k);
                assert(self.holds_at(k, i));
                assert(swept.holds_at(k, i));
            }
        }
        assert forall|k: K|
            self.contains(k) && k != self.entries[v].key implies #[trigger] self.after_evict().lookup(
            k,
        ) == self.lookup(k) by {
            let i = self.position(k);
            assert(self.holds_at(k, i));
            assert(swept.holds_at(k, i));
            swept.lemma_position(k, i);
            self.lemma_position(k, i);
        }
    }

    /// In a sound state the entry that holds a key is the only one.
    pub proof fn lemma_position(self, key: K, i: int)
        requires
            self.keys_distinct(),
            self.holds_at(key, i),
        ensures
            self.contains(key),
            self.position(key) == i,
            self.lookup(key) == Some(self.entries[i].value),
    {
        let p = self.position(key);
        assert(self.holds_at(key, p));
        assert(self.entries[p].key == self.entries[i].key);
    }

    /// Taking out the entry at index `i` removes its key and nothing else,
    /// and keeps the state sound.
    pub proof fn lemma_without(self, i: int)
        requires
            self.wf(),
            0 <= i < self.entries.len(),
        ensures
            self.without(i).wf(),
            self.without(i).entries.len() == self.entries.len() - 1,
            forall|k: K|
                #[trigger] self.without(i).contains(k) <==> self.contains(k) && k
                    != self.entries[i].key,
            forall|k: K|
                self.contains(k) && k != self.entries[i].key ==> #[trigger] self.without(i).lookup(k)
                    == self.lookup(k),
    {
        let out = self.without(i);
        assert forall|a: int| 0 <= a < out.entries.len() implies #[trigger] out.entries[a] == (if a
            < i {
            self.entries[a]
        } else {
            self.entries[a + 1]
        }) by {}
        assert(out.keys_distinct()) by {
            assert forall|a: int, b: int|
                0 <= a < out.entries.len() && 0 <= b < out.entries.len() && out.entries[a].key
                    == out.entries[b].key implies a == b by {
                let a2 = if a < i { a } else { a + 1 };
                let b2 = if b < i { b } else { b + 1 };
                assert(self.entries[a2].key == self.entries[b2].key);
            }
        }
        assert forall|k: K|
            #[trigger] out.contains(k) <==> self.contains(k) && k != self.entries[i].key by {
            if out.contains(k) {
                let a = out.position(k);
                assert(out.holds_at(k, a));
                let a2 = if a < i { a } else { a + 1 };
                assert(self.holds_at(k, a2));
                assert(self.entries[a2].key == k);
                if k == self.entries[i].key {
                    assert(self.entries[a2].key == self.entries[i].key);
                }
            }
            if self.contains(k) && k != self.entries[i].key {
                let a = self.position(k);
                assert(self.holds_at(k, a));
                let a2 = if a < i { a } else { a - 1 };
                assert(out.holds_at(k, a2));
            }
        }
        assert forall|k: K|
            self.contains(k) && k != self.entries[i].key implies #[trigger] out.lookup(k)
            == self.lookup(k) by {
            let a = self.position(k);
            assert(self.holds_at(k, a));
            let a2 = if a < i { a } else { a - 1 };
            assert(out.holds_at(k, a2));
            out.lemma_position(k, a2);
            self.lemma_position(k, a);
        }
    }

    /// A new head entry under an absent key adds that key and nothing else,
    /// and keeps a state sound that had room for it.
    pub proof fn lemma_with_head(self, key: K, value: V)
        requires
            self.wf(),
            self.entries.len() < self.capacity,
            !self.contains(key),
        ensures
            self.with_head(key, value).wf(),
            self.with_head(key, value).entries.len() == self.entries.len() + 1,
            self.with_head(key, value).lookup(key) == Some(value),
            forall|k: K|
                #[trigger] self.with_head(key, value).contains(k) <==> self.contains(k) || k == key,
            forall|k: K|
                k != key ==> #[trigger] self.with_head(key, value).lookup(k) == self.lookup(k),
    {
        let out = self.with_head(key, value);
        assert(out.entries[0].key == key);
        assert forall|a: int| 1 <= a < out.entries.len() implies #[trigger] out.entries[a]
            == self.entries[a - 1] by {}
        assert(out.keys_distinct()) by {
            assert forall|a: int, b: int|
                0 <= a < out.entries.len() && 0 <= b < out.entries.len() && out.entries[a].key
                    == out.entries[b].key implies a == b by {
                if a > 0 {
                    assert(self.holds_at(out.entries[a].key, a - 1));
                }
                if b > 0 {
                    assert(self.holds_at(out.entries[b].key, b - 1));
                }
                if a > 0 && b > 0 {
                    assert(self.entries[a - 1].key == self.entries[b - 1].key);
                }
            }
        }
        assert(out.holds_at(key, 0));
        out.lemma_position(key, 0);
        assert forall|k: K| #[trigger] out.contains(k) <==> self.contains(k) || k == key by {
            if out.contains(k) {
                let a = out.position(k);
                assert(out.holds_at(k, a));
                if a > 0 {
                    assert(self.holds_at(k, a - 1));
                }
            }
            if self.contains(k) {
                let a = self.position(k);
                assert(self.holds_at(k, a));
                assert(out.holds_at(k, a + 1));
            }
        }
        assert forall|k: K| k != key implies #[trigger] out.lookup(k) == self.lookup(k) by {
            if self.contains(k) {
                let a = self.position(k);
                assert(self.holds_at(k, a));
                assert(out.holds_at(k, a + 1));
                out.lemma_position(k, a + 1);
                self.lemma_position(k, a);
            }
        }
    }

    /// Two states whose lists hold the same keys and values at the same
    /// indices find the same value under every key.
    proof fn lemma_same_entries_same_lookups(self, other: Self)
        requires
            self.keys_distinct(),
            other.entries.len() == self.entries.len(),
            forall|i: int|
                0 <= i < self.entries.len() ==> (#[trigger] other.entries[i]).key
                    == self.entries[i].key && other.entries[i].value == self.entries[i].value,
        ensures
            other.keys_distinct(),
            forall|k: K| #[trigger] other.contains(k) == self.contains(k),
            forall|k: K| #[trigger] other.lookup(k) == self.lookup(k),
            forall|k: K| other.contains(k) ==> #[trigger] other.position(k) == self.position(k),
    {
        assert forall|a: int, b: int|
            0 <= a < other.entries.len() && 0 <= b < other.entries.len() && other.entries[a].key
                == other.entries[b].key implies a == b by {
            assert(self.entries[a].key == self.entries[b].key);
        }
        assert forall|k: K|
            other.contains(k) == self.contains(k) && other.lookup(k) == self.lookup(k) && (
            other.contains(k) ==> other.position(k) == self.position(k)) by {
            if self.contains(k) {
                let i = self.position(k);
                assert(self.holds_at(k, i));
                assert(other.holds_at(k, i));
                other.lemma_position(k, i);
            }
            if other.contains(k) {
                let i = other.position(k);
                assert(other.holds_at(k, i));
                assert(self.holds_at(k, i));
            }
        }
    }

    /// The number of entries never exceeds the capacity, and it is the
    /// number of distinct keys that can be retrieved: a key is in the set
    /// of keys exactly if a lookup finds it.
    pub proof fn lemma_len_counts_keys(self)
        requires
            self.wf(),
        ensures
            self.len() <= self.capacity,
            self.keys().finite(),
            self.keys().len() == self.len(),
            forall|k: K| #[trigger] self.keys().contains(k) <==> self.lookup(k) is Some,
    {
        let ks = self.key_seq();
        assert(ks.no_duplicates()) by {
            assert forall|i: int, j: int|
                0 <= i < ks.len() && 0 <= j < ks.len() && i != j implies ks[i] != ks[j] by {
                if ks[i] == ks[j] {
                    assert(self.entries[i].key == self.entries[j].key);
                }
            }
        }
        ks.unique_seq_to_set();
        vstd::seq_lib::seq_to_set_is_finite(ks);
        assert forall|k: K| #[trigger] self.keys().contains(k) <==> self.lookup(k) is Some by {
            if self.keys().contains(k) {
                let i = choose|i: int| 0 <= i < ks.len() && ks[i] == k;
                assert(self.holds_at(k, i));
            }
            if self.contains(k) {
                let i = self.position(k);
                assert(self.holds_at(k, i));
                assert(ks[i] == k);
            }
        }
    }

    /// A read leads from a sound state to a sound state.
    pub proof fn lemma_get_keeps_wf(self, key: K)
        requires
            self.wf(),
        ensures
            self.after_get(key).wf(),
            self.after_get(key).capacity == self.capacity,
    {
        if self.contains(key) {
            let p = self.position(key);
            assert(self.holds_at(key, p));
            let got = self.after_get(key);
            assert forall|i: int, j: int|
                0 <= i < got.entries.len() && 0 <= j < got.entries.len() && got.entries[i].key
                    == got.entries[j].key implies i == j by {
                assert(self.entries[i].key == self.entries[j].key);
            }
        }
    }

    /// A deletion leads from a sound state to a sound state.
    pub proof fn lemma_delete_keeps_wf(self, key: K)
        requires
            self.wf(),
        ensures
            self.after_delete(key).wf(),
            self.after_delete(key).capacity == self.capacity,
    {
        if self.contains(key) {
            let p = self.position(key);
            assert(self.holds_at(key, p));
            self.lemma_without(p);
        }
    }

    /// A sweep and an eviction lead from a sound state to a sound state.
    pub proof fn lemma_sweep_keeps_wf(self)
        requires
            self.wf(),
        ensures
            self.after_sweep().wf(),
            self.after_sweep().capacity == self.capacity,
            self.after_evict().wf(),
            self.after_evict().capacity == self.capacity,
    {
        if self.entries.len() > 0 {
            self.lemma_evict();
            self.lemma_victim();
            let swept = self.after_sweep();
            assert forall|i: int, j: int|
                0 <= i < swept.entries.len() && 0 <= j < swept.entries.len()
                    && swept.entries[i].key == swept.entries[j].key implies i == j by {
                assert(self.entries[i].key == self.entries[j].key);
            }
        }
    }

    /// A write and a probe lead from a sound state to a sound state.
    pub proof fn lemma_write_keeps_wf(self, key: K, value: V)
        requires
            self.wf(),
        ensures
            self.after_add(key, value).wf(),
            self.after_add(key, value).capacity == self.capacity,
            self.after_probe(key, value).wf(),
            self.after_probe(key, value).capacity == self.capacity,
    {
        if self.contains(key) {
            let p = self.position(key);
            assert(self.holds_at(key, p));
            let added = self.after_add(key, value);
            assert forall|i: int, j: int|
                0 <= i < added.entries.len() && 0 <= j < added.entries.len()
                    && added.entries[i].key == added.entries[j].key implies i == j by {
                assert(self.entries[i].key == self.entries[j].key);
            }
        } else {
            self.lemma_insert(key, value);
        }
    }

    /// Whatever operations are applied to a sound state, in whatever order,
    /// the state stays sound: the capacity is the same and the number of
    /// entries never exceeds it.
    pub proof fn lemma_capacity_is_never_exceeded(self, ops: Seq<Operation<K, V>>)
        requires
            self.wf(),
        ensures
            self.after_all(ops).wf(),
            self.after_all(ops).capacity == self.capacity,
            self.after_all(ops).len() <= self.capacity,
        decreases ops.len(),
    {
        if ops.len() > 0 {
            self.lemma_capacity_is_never_exceeded(ops.drop_last());
            let before = self.after_all(ops.drop_last());
            match ops.last() {
                Operation::Get(key) => {
                    before.lemma_get_keeps_wf(key);
                },
                Operation::Add(key, value) => {
                    before.lemma_write_keeps_wf(key, value);
                },
                Operation::Probe(key, value) => {
                    before.lemma_write_keeps_wf(key, value);
                },
                Operation::Delete(key) => {
                    before.lemma_delete_keeps_wf(key);
                },
                Operation::Sweep => {
                    before.lemma_sweep_keeps_wf();
                },
                Operation::Evict => {
                    before.lemma_sweep_keeps_wf();
                },
                Operation::Purge => {},
            }
        }
    }

    /// Inserting an absent key keeps the state sound. The key is then
    /// present with the given value at the head, unvisited. Whatever else is
    /// present was present before and has kept its value, and everything
    /// that was present is still there, but for the victim where the cache
    /// was full.
    pub proof fn lemma_insert(self, key: K, value: V)
        requires
            self.wf(),
            !self.contains(key),
        ensures
            self.after_insert(key, value).wf(),
            self.after_insert(key, value).capacity == self.capacity,
            self.after_insert(key, value).lookup(key) == Some(value),
            self.after_insert(key, value).entries[0] == (Entry { key, value, visited: false }),
            self.after_insert(key, value).len() == (if self.len() == self.capacity {
                self.len()
            } else {
                self.len() + 1
            }),
            forall|k: K|
                k != key && #[trigger] self.after_insert(key, value).contains(k) ==> self.contains(
                    k,
                ) && self.after_insert(key, value).lookup(k) == self.lookup(k),
            forall|k: K|
                #[trigger] self.contains(k) && !(self.len() == self.capacity && k
                    == self.entries[self.victim()].key) ==> self.after_insert(key, value).contains(
                    k,
                ),
    {
        if self.entries.len() == self.capacity {
            self.lemma_evict();
            let mid = self.after_evict();
            assert(!mid.contains(key));
            mid.lemma_with_head(key, value);
            let out = self.after_insert(key, value);
            assert forall|k: K| k != key && #[trigger] out.contains(k) implies self.contains(k)
                && out.lookup(k) == self.lookup(k) by {
                assert(mid.contains(k));
                assert(out.lookup(k) == mid.lookup(k));
                assert(mid.lookup(k) == self.lookup(k));
            }
            assert forall|k: K|
                #[trigger] self.contains(k) && !(self.len() == self.capacity && k
                    == self.entries[self.victim()].key) implies out.contains(k) by {
                assert(mid.contains(k));
            }
        } else {
            self.lemma_with_head(key, value);
            let out = self.after_insert(key, value);
            assert forall|k: K| k != key && #[trigger] out.contains(k) implies self.contains(k)
                && out.lookup(k) == self.lookup(k) by {}
        }
    }

    /// A read never moves an entry: the list holds the same keys and values
    /// in the same order, the hand stays, and no visited bit changes but the
    /// one of the entry read, which is set.
    pub proof fn lemma_get_keeps_order(self, key: K)
        requires
            self.wf(),
        ensures
            self.after_get(key).entries.len() == self.entries.len(),
            self.after_get(key).key_seq() == self.key_seq(),
            self.after_get(key).hand == self.hand,
            forall|i: int|
                0 <= i < self.entries.len() ==> (#[trigger] self.after_get(key).entries[i]).value
                    == self.entries[i].value,
            forall|i: int|
                0 <= i < self.entries.len() && self.entries[i].key != key ==> #[trigger] self.after_get(
                    key,
                ).entries[i] == self.entries[i],
            forall|i: int|
                0 <= i < self.entries.len() && self.entries[i].key == key ==> (
                #[trigger] self.after_get(key).entries[i]).visited,
            forall|k: K| #[trigger] self.after_get(key).lookup(k) == self.lookup(k),
    {
        let got = self.after_get(key);
        if self.contains(key) {
            let p = self.position(key);
            assert(self.holds_at(key, p));
            assert forall|i: int|
                0 <= i < self.entries.len() && self.entries[i].key == key implies (
            #[trigger] got.entries[i]).visited by {
                assert(self.entries[i].key == self.entries[p].key);
            }
        } else {
            assert forall|i: int|
                0 <= i < self.entries.len() && self.entries[i].key == key implies (
            #[trigger] got.entries[i]).visited by {
                assert(self.holds_at(key, i));
            }
        }
        self.lemma_same_entries_same_lookups(got);
        assert(got.key_seq() =~= self.key_seq());
    }

    /// A write to a present key replaces its value in place: the key is
    /// then found with the new value, and every other key as before.
    pub proof fn lemma_add_present(self, key: K, value: V)
        requires
            self.wf(),
            self.contains(key),
        ensures
            self.after_add(key, value).lookup(key) == Some(value),
            self.after_add(key, value).key_seq() == self.key_seq(),
            self.after_add(key, value).hand == self.hand,
            forall|k: K| k != key ==> #[trigger] self.after_add(key, value).lookup(k) == self.lookup(k),
    {
        let p = self.position(key);
        assert(self.holds_at(key, p));
        let out = self.after_add(key, value);
        assert forall|i: int| 0 <= i < out.entries.len() implies (#[trigger] out.entries[i]).key
            == self.entries[i].key by {}
        assert(out.keys_distinct()) by {
            assert forall|a: int, b: int|
                0 <= a < out.entries.len() && 0 <= b < out.entries.len() && out.entries[a].key
                    == out.entries[b].key implies a == b by {
                assert(self.entries[a].key == self.entries[b].key);
            }
        }
        assert(out.holds_at(key, p));
        out.lemma_position(key, p);
        assert(out.key_seq() =~= self.key_seq());
        assert forall|k: K| k != key implies #[trigger] out.lookup(k) == self.lookup(k) by {
            if self.contains(k) {
                let i = self.position(k);
                assert(self.holds_at(k, i));
                assert(out.holds_at(k, i));
                out.lemma_position(k, i);
            }
            if out.contains(k) {
                let i = out.position(k);
                assert(out.holds_at(k, i));
                assert(self.holds_at(k, i));
            }
        }
    }

    /// A probe of a present key changes nothing, whatever value it offers:
    /// the state is the same, and so is the value found under the key.
    pub proof fn lemma_probe_present(self, key: K, offered: V)
        requires
            self.wf(),
            self.contains(key),
        ensures
            self.after_probe(key, offered) == self,
            self.after_probe(key, offered).lookup(key) == self.lookup(key),
    {
    }

    /// Deleting an absent key changes nothing. After the deletion of a
    /// present key a read does not find it, every other key is found as
    /// before, and the key can be added again as a new entry.
    pub proof fn lemma_delete(self, key: K)
        requires
            self.wf(),
        ensures
            !self.contains(key) ==> self.after_delete(key) == self,
            self.contains(key) ==> self.after_delete(key).len() == self.len() - 1,
            !self.after_delete(key).contains(key),
            self.after_delete(key).lookup(key) is None,
            self.after_delete(key).after_get(key).lookup(key) is None,
            forall|k: K| k != key ==> #[trigger] self.after_delete(key).lookup(k) == self.lookup(k),
            forall|value: V| #[trigger]
                self.after_delete(key).after_add(key, value).lookup(key) == Some(value),
    {
        let out = self.after_delete(key);
        if self.contains(key) {
            let p = self.position(key);
            assert(self.holds_at(key, p));
            self.lemma_without(p);
            assert forall|k: K| k != key implies #[trigger] out.lookup(k) == self.lookup(k) by {
                if !self.contains(k) {
                    assert(!out.contains(k));
                }
            }
        }
        assert(out.wf());
        out.lemma_get_keeps_order(key);
        assert forall|value: V| #[trigger]
            out.after_add(key, value).lookup(key) == Some(value) by {
            out.lemma_insert(key, value);
        }
    }

    /// A purge leaves no entry and no key to be found, unsets the hand, and
    /// keeps the capacity and the counts of hits and misses.
    pub proof fn lemma_purge(self)
        ensures
            self.after_purge().len() == 0,
            self.after_purge().hand is None,
            forall|k: K| #[trigger] self.after_purge().lookup(k) is None,
            self.after_purge().hits == self.hits,
            self.after_purge().misses == self.misses,
            self.after_purge().capacity == self.capacity,
    {
        let out = self.after_purge();
        assert forall|k: K| #[trigger] out.lookup(k) is None by {
            if out.contains(k) {
                let i = out.position(k);
                assert(out.holds_at(k, i));
            }
        }
    }

    /// The statistics only count up: a read adds one hit or one miss, and
    /// no other operation touches them.
    pub proof fn lemma_stats(self, key: K, value: V)
        requires
            self.wf(),
        ensures
            self.after_get(key).hits == (if self.contains(key) {
                bump(self.hits)
            } else {
                self.hits
            }),
            self.after_get(key).misses == (if self.contains(key) {
                self.misses
            } else {
                bump(self.misses)
            }),
            self.hits <= bump(self.hits),
            self.misses <= bump(self.misses),
            self.after_add(key, value).hits == self.hits,
            self.after_add(key, value).misses == self.misses,
            self.after_probe(key, value).hits == self.hits,
            self.after_probe(key, value).misses == self.misses,
            self.after_delete(key).hits == self.hits,
            self.after_delete(key).misses == self.misses,
            self.after_evict().hits == self.hits,
            self.after_evict().misses == self.misses,
    {
    }
}

} // verus!
