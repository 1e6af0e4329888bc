use vstd::prelude::*;

use crate::block_id::{BlockId, BlockKey};

verus! {

/// The value that `m` holds for `k`, if any.
pub open spec fn lookup<V>(m: Map<BlockKey, V>, k: BlockKey) -> Option<V> {
    if m.contains_key(k) {
        Some(m[k])
    } else {
        None
    }
}

/// A small map from block identifiers to values, kept as a list of
/// entries with distinct keys.
#[derive(Debug)]
pub struct BlockMap<V> {
    entries: Vec<(BlockId, V)>,
}

impl<V> View for BlockMap<V> {
    type V = Map<BlockKey, V>;

    closed spec fn view(&self) -> Map<BlockKey, V> {
        Map::new(
            |k: BlockKey| exists|i: int| 0 <= i < self.entries@.len() && self.entries@[i].0@ == k,
            |k: BlockKey|
                {
                    let i = choose|i: int|
                        0 <= i < self.entries@.len() && self.entries@[i].0@ == k;
                    self.entries@[i].1
                },
        )
    }
}

impl<V: Copy> BlockMap<V> {
    /// The keys in the order in which they are held.
    pub closed spec fn keys(&self) -> Seq<BlockKey> {
        self.entries@.map_values(|e: (BlockId, V)| e.0@)
    }

    /// The keys are distinct.
    pub closed spec fn wf(&self) -> bool {
        forall|i: int, j: int|
            0 <= i < j < self.entries@.len() ==> self.entries@[i].0@ != self.entries@[j].0@
    }

    proof fn lemma_view_at(&self, i: int)
        requires
            self.wf(),
            0 <= i < self.entries@.len(),
        ensures
            self@.contains_key(self.entries@[i].0@),
            self@[self.entries@[i].0@] == self.entries@[i].1,
    {
        let k = self.entries@[i].0@;
        assert(exists|j: int| 0 <= j < self.entries@.len() && self.entries@[j].0@ == k);
        let j = choose|j: int| 0 <= j < self.entries@.len() && self.entries@[j].0@ == k;
        assert(i == j);
    }

    /// The keys list each key of the map once.
    pub proof fn lemma_keys(&self)
        requires
            self.wf(),
        ensures
            self.keys().no_duplicates(),
            self.keys().len() == self@.dom().len(),
            forall|k: BlockKey| self@.contains_key(k) <==> self.keys().contains(k),
    {
        assert forall|k: BlockKey| self@.contains_key(k) <==> self.keys().contains(k) by {
            if self@.contains_key(k) {
                let i = choose|i: int| 0 <= i < self.entries@.len() && self.entries@[i].0@ == k;
                assert(self.keys()[i] == k);
            }
            if self.keys().contains(k) {
                let i = choose|i: int| 0 <= i < self.keys().len() && self.keys()[i] == k;
                assert(self.entries@[i].0@ == k);
            }
        }
        assert(self.keys().to_set() =~= self@.dom());
        self.keys().unique_seq_to_set();
    }

    pub fn new() -> (r: BlockMap<V>)
        ensures
            r.wf(),
            r@ == Map::<BlockKey, V>::empty(),
    {
        let r = BlockMap { entries: Vec::new() };
        assert(r@ =~= Map::<BlockKey, V>::empty());
        r
    }

    /// The number of entries.
    pub fn len(&self) -> (r: usize)
        requires
            self.wf(),
        ensures
            r == self.keys().len(),
            r == self@.dom().len(),
    {
        proof {
            self.lemma_keys();
        }
        self.entries.len()
    }

    /// The key held at position `i`.
    pub fn key_at(&self, i: usize) -> (r: &BlockId)
        requires
            i < self.keys().len(),
        ensures
            r@ == self.keys()[i as int],
    {
        &self.entries[i].0
    }

    fn find(&self, block: &BlockId) -> (r: Option<usize>)
        requires
            self.wf(),
        ensures
            r matches Some(i) ==> i < self.entries@.len() && self.entries@[i as int].0@ == block@,
            r is None ==> !self@.contains_key(block@),
    {
        let mut i: usize = 0;
        while i < self.entries.len()
            invariant
                i <= self.entries@.len(),
                forall|j: int| 0 <= j < i ==> self.entries@[j].0@ != block@,
            decreases self.entries@.len() - i,
        {
            if self.entries[i].0.same(block) {
                return Some(i);
            }
            i = i + 1;
        }
        None
    }

    /// The value held for `block`, if any.
    pub fn get(&self, block: &BlockId) -> (r: Option<V>)
        requires
            self.wf(),
        ensures
            r == lookup(self@, block@),
    {
        match self.find(block) {
            Some(i) => {
                proof {
                    self.lemma_view_at(i as int);
                }
                Some(self.entries[i].1)
            },
            None => None,
        }
    }

    /// Holds `v` for `block`, replacing any value held for it.
    pub fn insert(&mut self, block: &BlockId, v: V)
        requires
            old(self).wf(),
        ensures
            final(self).wf(),
            final(self)@ == old(self)@.insert(block@, v),
    {
        match self.find(block) {
            Some(i) => {
                let ghost before = self.entries@;
                self.entries.set(i, (block.copy(), v));
                proof {
                    assert forall|k: BlockKey| #[trigger]
                        self@.contains_key(k) == old(self)@.insert(block@, v).contains_key(k)
                        && (self@.contains_key(k) ==> self@[k] == old(self)@.insert(
                        block@,
                        v,
                    )[k]) by {
                        if k == block@ {
                            self.lemma_view_at(i as int);
                        } else {
                            if self@.contains_key(k) {
                                let j = choose|j: int|
                                    0 <= j < self.entries@.len() && self.entries@[j].0@ == k;
                                self.lemma_view_at(j);
                                old(self).lemma_view_at(j);
                            }
                            if old(self)@.contains_key(k) {
                                let j = choose|j: int|
                                    0 <= j < before.len() && before[j].0@ == k;
                                assert(self.entries@[j].0@ == k);
                            }
                        }
                    }
                    assert(self@ =~= old(self)@.insert(block@, v));
                }
            },
            None => {
                self.entries.push((block.copy(), v));
                proof {
                    let n = self.entries@.len() - 1;
                    assert forall|k: BlockKey| #[trigger]
                        self@.contains_key(k) == old(self)@.insert(block@, v).contains_key(k)
                        && (self@.contains_key(k) ==> self@[k] == old(self)@.insert(
                        block@,
                        v,
                    )[k]) by {
                        if k == block@ {
                            self.lemma_view_at(n);
                        } else {
                            if self@.contains_key(k) {
                                let j = choose|j: int|
                                    0 <= j < self.entries@.len() && self.entries@[j].0@ == k;
                                self.lemma_view_at(j);
                                old(self).lemma_view_at(j);
                            }
                            if old(self)@.contains_key(k) {
                                let j = choose|j: int|
                                    0 <= j < old(self).entries@.len() && old(self).entries@[j].0@
                                        == k;
                                assert(self.entries@[j].0@ == k);
                            }
                        }
                    }
                    assert(self@ =~= old(self)@.insert(block@, v));
                }
            },
        }
    }

    /// Drops any value held for `block`.
    pub fn remove(&mut self, block: &BlockId)
        requires
            old(self).wf(),
        ensures
            final(self).wf(),
            final(self)@ == old(self)@.remove(block@),
    {
        match self.find(block) {
            Some(i) => {
                let ghost before = self.entries@;
                self.entries.remove(i);
                proof {
                    assert forall|j: int| 0 <= j < self.entries@.len() implies
                        #[trigger] self.entries@[j] == (if j < i {
                            before[j]
                        } else {
                            before[j + 1]
                        }) by {}
                    assert forall|k: BlockKey| #[trigger]
                        self@.contains_key(k) == old(self)@.remove(block@).contains_key(k)
                        && (self@.contains_key(k) ==> self@[k] == old(self)@.remove(
                        block@,
                    )[k]) by {
                        if self@.contains_key(k) {
                            let j = choose|j: int|
                                0 <= j < self.entries@.len() && self.entries@[j].0@ == k;
                            self.lemma_view_at(j);
                            if j < i {
                                old(self).lemma_view_at(j);
                            } else {
                                old(self).lemma_view_at(j + 1);
                            }
                        }
                        if old(self)@.contains_key(k) && k != block@ {
                            let j = choose|j: int| 0 <= j < before.len() && before[j].0@ == k;
                            if j < i {
                                assert(self.entries@[j].0@ == k);
                            } else {
                                assert(j != i);
                                assert(self.entries@[j - 1].0@ == k);
                            }
                        }
                    }
                    assert(self@ =~= old(self)@.remove(block@));
                }
            },
            None => {
                assert(self@ =~= old(self)@.remove(block@));
            },
        }
    }

    /// Drops every entry.
    pub fn clear(&mut self)
        ensures
            final(self).wf(),
            final(self)@ == Map::<BlockKey, V>::empty(),
    {
        self.entries.clear();
        assert(self@ =~= Map::<BlockKey, V>::empty());
    }
}

} // verus!
