//! Forward traversal of the entries.

use std::hash::Hash;
use vstd::prelude::*;
use crate::model::Entry;
use crate::sieve::SieveCache;

verus! {

/// A single pass over the entries of a cache, from the head to the tail.
/// It reads the list and changes nothing.
pub struct CacheIterator<'a, K, V> {
    pub(crate) cache: &'a SieveCache<K, V>,
    pub(crate) current: Option<usize>,
    /// The index in the list of the entry that comes next.
    pub(crate) at: Ghost<int>,
}

impl<'a, K: Eq + Hash + Clone, V: Clone> CacheIterator<'a, K, V> {
    /// The traversal stands on an entry of a sound cache, or behind the tail.
    pub open(crate) spec fn wf(&self) -> bool {
        &&& self.cache.wf()
        &&& 0 <= self.at@ <= self.cache.order@.len()
        &&& self.current == (if self.at@ < self.cache.order@.len() {
            Some(self.cache.order@[self.at@])
        } else {
            None
        })
    }

    /// The entries that are still to come, in the order in which they come.
    pub open(crate) spec fn remaining(&self) -> Seq<Entry<K, V>> {
        self.cache@.entries.skip(self.at@)
    }

    /// The next entry, as its key and a clone of its value, or `None` behind
    /// the tail.
    pub fn next(&mut self) -> (r: Option<(K, V)>)
        requires
            old(self).wf(),
        ensures
            final(self).wf(),
            match r {
                Some((key, value)) => {
                    &&& old(self).remaining().len() > 0
                    &&& key == old(self).remaining()[0].key
                    &&& cloned(old(self).remaining()[0].value, value)
                    &&& final(self).remaining() == old(self).remaining().skip(1)
                },
                None => {
                    &&& old(self).remaining().len() == 0
                    &&& final(self).remaining() == old(self).remaining()
                },
            },
    {
        match self.current {
            Some(slot) => {
                let ghost i = self.at@;
                assert(self.cache.live(self.cache.order@[i]));
                let node = self.cache.nodes[slot].as_ref().unwrap();
                let key = node.key.clone();
                assert(cloned(node.key, key));
                let value = node.value.clone();
                self.current = node.next;
                proof {
                    self.at = Ghost(i + 1);
                    if i + 1 < self.cache.order@.len() {
                        assert(node.next == Some(self.cache.order@[i + 1]));
                    }
                    assert(self.remaining() =~= old(self).remaining().skip(1));
                }
                Some((key, value))
            },
            None => None,
        }
    }
}

} // verus!
