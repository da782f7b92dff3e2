//! The eviction engine: the sweep of the hand that finds and removes the next
//! victim.

use std::hash::Hash;
use vstd::prelude::*;
use crate::model::CacheView;
use crate::model::Entry;
use crate::node::set_visited;
use crate::sieve::SieveCache;
use crate::types::CacheError;

verus! {

impl<K: Eq + Hash + Clone, V: Clone> SieveCache<K, V> {
    /// Moves the hand to the next victim: the hand starts where it last
    /// stopped, or at the tail, walks towards the head and wraps to the tail,
    /// clears every visited bit it finds set, and stops at the first entry it
    /// finds unvisited. Returns the number of bits it cleared, which is at
    /// most the number of entries. An empty cache is left as it is.
    pub fn sweep(&mut self) -> (cleared: usize)
        requires
            old(self).wf(),
        ensures
            final(self).wf(),
            final(self)@ == old(self)@.after_sweep(),
            cleared == old(self)@.second_chances(),
            cleared <= old(self)@.len(),
            old(self)@.len() > 0 ==> cleared + 1 == old(self)@.inspections(),
    {
        let mut cur: usize = match self.hand {
            Some(h) => h,
            None => match self.tail {
                Some(t) => t,
                None => {
                    return 0;
                },
            },
        };
        let ghost orig = self@;
        let ghost len = orig.entries.len() as int;
        let ghost start = orig.sweep_start();
        let ghost mut pos: int = start;
        let mut steps: usize = 0;
        self.hand = Some(cur);
        proof {
            self.hand_at = Ghost(Some(start));
            assert(self@.entries =~= orig.entries);
        }
        loop
            invariant
                self.wf(),
                orig == old(self)@,
                len == orig.entries.len(),
                len > 0,
                start == orig.sweep_start(),
                0 <= start < len,
                self.order@ == old(self).order@,
                self.hand == Some(cur),
                self.hand_at@ == Some(pos),
                0 <= pos < len,
                self.order@[pos] == cur,
                0 <= steps <= len,
                steps < len ==> orig.rank(pos) == steps,
                steps == len ==> pos == start,
                self@.entries.len() == len,
                forall|i: int|
                    0 <= i < len ==> #[trigger] self@.entries[i] == (if orig.rank(i) < steps {
                        Entry { visited: false, ..orig.entries[i] }
                    } else {
                        orig.entries[i]
                    }),
                forall|i: int|
                    0 <= i < len && orig.rank(i) < steps ==> (#[trigger] orig.entries[i]).visited,
                self@.capacity == orig.capacity,
                self@.hits == orig.hits,
                self@.misses == orig.misses,
            decreases len - steps,
        {
            let ghost before = *self;
            let node = self.nodes[cur].as_ref().unwrap();
            let visited = node.visited;
            let prev = node.prev;
            assert(visited == self@.entries[pos].visited);
            if !visited {
                proof {
                    Self::lemma_sweep_stops(orig, steps as int, pos);
                    assert(self@.entries =~= orig.swept());
                }
                return steps;
            }
            set_visited(&mut self.nodes, cur, false);
            cur = match prev {
                Some(headward) => headward,
                None => self.tail.unwrap(),
            };
            self.hand = Some(cur);
            proof {
                let here = pos;
                assert(orig.rank(start) == 0);
                assert(steps < len);
                pos = if pos == 0 {
                    len - 1
                } else {
                    pos - 1
                };
                if here > 0 {
                    assert(prev == Some(self.order@[here - 1]));
                }
                self.hand_at = Ghost(Some(pos));
                assert forall|i: int| 0 <= i < len implies #[trigger] self@.entries[i] == (
                if orig.rank(i) < steps + 1 {
                    Entry { visited: false, ..orig.entries[i] }
                } else {
                    orig.entries[i]
                }) by {
                    assert(self.order@[i] != self.order@[here] <==> i != here);
                    assert(before@.entries[i] == before.entry_at(i));
                    assert(self@.entries[i] == self.entry_at(i));
                }
            }
            steps = steps + 1;
        }
    }

    /// Removes one entry, chosen by the SIEVE sweep: the hand moves to the
    /// next victim, the victim leaves index and list, and the hand is left on
    /// the victim's neighbour towards the head. An empty cache is left as it
    /// is.
    pub fn evict(&mut self) -> (r: Result<(), CacheError>)
        requires
            old(self).wf(),
        ensures
            r is Ok,
            final(self).wf(),
            final(self)@ == old(self)@.after_evict(),
    {
        let _ = self.sweep();
        match self.hand {
            Some(slot) => {
                let ghost swept = *self;
                let ghost p = old(self)@.victim();
                let key = self.nodes[slot].as_ref().unwrap().key.clone();
                assert(cloned(self.node(slot).key, key));
                self.index.remove(&key);
                let ghost mid = *self;
                assert(mid@.entries =~= swept@.entries);
                let _ = self.unlink_node(slot, Ghost(p));
                let ghost unlinked = *self;
                self.size -= 1;
                proof {
                    assert(self@.entries =~= unlinked@.entries);
                    assert forall|s: usize|
                        s != swept.order@[p] && swept.live(s) implies #[trigger] self.live(s)
                        && self.node(s).key == swept.node(s).key by {
                        assert(mid.live(s));
                        assert(unlinked.live(s));
                    }
                    Self::lemma_index_after_unlink(&swept, self, p, key);
                }
            },
            None => {},
        }
        Ok(())
    }

    /// When the sweep finds the entry at index `pos` unvisited after it has
    /// passed `steps` visited entries, that entry is the victim.
    pub(crate) proof fn lemma_sweep_stops(orig: CacheView<K, V>, steps: int, pos: int)
        requires
            orig.entries.len() > 0,
            0 <= orig.sweep_start() < orig.entries.len(),
            0 <= pos < orig.entries.len(),
            0 <= steps <= orig.entries.len(),
            steps < orig.entries.len() ==> orig.rank(pos) == steps,
            steps == orig.entries.len() ==> pos == orig.sweep_start(),
            steps < orig.entries.len() ==> !orig.entries[pos].visited,
            forall|i: int|
                0 <= i < orig.entries.len() && orig.rank(i) < steps ==> (
                #[trigger] orig.entries[i]).visited,
        ensures
            orig.victim() == pos,
            forall|i: int| 0 <= i < orig.entries.len() ==> (orig.passed(i) <==> orig.rank(i) < steps),
            orig.second_chances() == steps,
    {
        let len = orig.entries.len() as int;
        if steps == len {
            assert forall|i: int| 0 <= i < len implies (#[trigger] orig.entries[i]).visited by {
                assert(orig.rank(i) < len);
            }
        } else {
            assert(!orig.all_visited());
            assert(orig.first_unvisited(pos));
            let v = orig.victim();
            assert(orig.first_unvisited(v));
            assert(orig.rank(v) == orig.rank(pos));
        }
    }
}

} // verus!
