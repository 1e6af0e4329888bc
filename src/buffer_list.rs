use vstd::prelude::*;

use crate::block_id::{BlockId, BlockKey};
use crate::block_map::{lookup, BlockMap};

verus! {

/// The position of the last `k` in `s`; -1 where there is none.
pub open spec fn last_index_of(s: Seq<BlockKey>, k: BlockKey) -> int
    decreases s.len(),
{
    if s.len() == 0 {
        -1
    } else if s.last() == k {
        s.len() - 1
    } else {
        last_index_of(s.drop_last(), k)
    }
}

proof fn lemma_last_index_of(s: Seq<BlockKey>, k: BlockKey)
    ensures
        -1 <= last_index_of(s, k) < s.len(),
        last_index_of(s, k) >= 0 ==> s[last_index_of(s, k)] == k,
        last_index_of(s, k) == -1 <==> !s.contains(k),
    decreases s.len(),
{
    if s.len() > 0 {
        lemma_last_index_of(s.drop_last(), k);
        if s.last() != k {
            if s.contains(k) {
                let i = choose|i: int| 0 <= i < s.len() && s[i] == k;
                assert(s.drop_last()[i] == k);
            }
            if s.drop_last().contains(k) {
                let i = choose|i: int| 0 <= i < s.drop_last().len() && s.drop_last()[i] == k;
                assert(s[i] == k);
            }
        } else {
            assert(s[s.len() - 1] == k);
        }
    }
}

proof fn lemma_remove_keeps_others(s: Seq<BlockKey>, j: int, x: BlockKey)
    requires
        0 <= j < s.len(),
        x != s[j],
    ensures
        s.remove(j).contains(x) == s.contains(x),
{
    if s.contains(x) {
        let i = choose|i: int| 0 <= i < s.len() && s[i] == x;
        if i < j {
            assert(s.remove(j)[i] == x);
        } else {
            assert(s.remove(j)[i - 1] == x);
        }
    }
    if s.remove(j).contains(x) {
        let i = choose|i: int| 0 <= i < s.remove(j).len() && s.remove(j)[i] == x;
        if i < j {
            assert(s[i] == x);
        } else {
            assert(s[i + 1] == x);
        }
    }
}

/// The buffers that one transaction has pinned: the frame that holds each
/// pinned block, and every pin in the order in which it was made, so that a
/// block pinned twice is unpinned twice.
#[derive(Debug)]
pub struct BufferList {
    buffers: BlockMap<usize>,
    pins: Vec<BlockId>,
}

impl BufferList {
    /// The frame holding each pinned block.
    pub closed spec fn frames(&self) -> Map<BlockKey, usize> {
        self.buffers@
    }

    /// Every pin made and not yet released, oldest first.
    pub closed spec fn pinned(&self) -> Seq<BlockKey> {
        self.pins@.map_values(|b: BlockId| b@)
    }

    /// A block has a frame exactly while it is pinned.
    pub closed spec fn wf(&self) -> bool {
        &&& self.buffers.wf()
        &&& forall|k: BlockKey| self.buffers@.contains_key(k) <==> self.pinned().contains(k)
    }

    /// A list of no pins.
    pub fn new() -> (r: BufferList)
        ensures
            r.wf(),
            r.frames() == Map::<BlockKey, usize>::empty(),
            r.pinned() == Seq::<BlockKey>::empty(),
    {
        let r = BufferList { buffers: BlockMap::new(), pins: Vec::new() };
        assert(r.pinned() =~= Seq::<BlockKey>::empty());
        r
    }

    /// The frame holding `block`, where this transaction has it pinned.
    pub fn get_buffer_idx(&self, block: &BlockId) -> (r: Option<usize>)
        requires
            self.wf(),
        ensures
            r == lookup(self.frames(), block@),
    {
        self.buffers.get(block)
    }

    /// Notes that `block` was pinned, in frame `idx`.
    pub fn pin(&mut self, block: &BlockId, idx: usize)
        requires
            old(self).wf(),
        ensures
            final(self).wf(),
            final(self).frames() == old(self).frames().insert(block@, idx),
            final(self).pinned() == old(self).pinned().push(block@),
    {
        self.buffers.insert(block, idx);
        self.pins.push(block.copy());
        proof {
            assert(self.pinned() =~= old(self).pinned().push(block@));
            assert forall|k: BlockKey| self.buffers@.contains_key(k) <==> self.pinned().contains(
                k,
            ) by {
                if k == block@ {
                    assert(self.pinned()[self.pinned().len() - 1] == k);
                } else {
                    if old(self).pinned().contains(k) {
                        let i = choose|i: int|
                            0 <= i < old(self).pinned().len() && old(self).pinned()[i] == k;
                        assert(self.pinned()[i] == k);
                    }
                    if self.pinned().contains(k) {
                        let i = choose|i: int| 0 <= i < self.pinned().len() && self.pinned()[i] == k;
                        assert(old(self).pinned()[i] == k);
                    }
                }
            }
        }
    }

    /// Releases the newest pin of `block` and returns the frame to unpin;
    /// the block loses its frame with its last pin. `None`, changing
    /// nothing, where the block is not pinned.
    pub fn unpin(&mut self, block: &BlockId) -> (r: Option<usize>)
        requires
            old(self).wf(),
        ensures
            final(self).wf(),
            r == lookup(old(self).frames(), block@),
            r is None ==> final(self).frames() == old(self).frames() && final(self).pinned()
                == old(self).pinned(),
            r is Some ==> final(self).pinned() == old(self).pinned().remove(
                last_index_of(old(self).pinned(), block@),
            ) && final(self).frames() == (if final(self).pinned().contains(block@) {
                old(self).frames()
            } else {
                old(self).frames().remove(block@)
            }),
    {
        let idx = match self.buffers.get(block) {
            Some(i) => i,
            None => return None,
        };
        proof {
            lemma_last_index_of(self.pinned(), block@);
        }
        let mut last: usize = 0;
        let mut i: usize = 0;
        while i < self.pins.len()
            invariant
                i <= self.pins@.len(),
                self.pins@ == old(self).pins@,
                self.pinned() == old(self).pinned(),
                last_index_of(self.pinned().subrange(0, i as int), block@) >= 0 ==> last
                    == last_index_of(self.pinned().subrange(0, i as int), block@),
            decreases self.pins@.len() - i,
        {
            proof {
                assert(self.pinned()[i as int] == self.pins@[i as int]@);
                assert(self.pinned().subrange(0, i + 1).drop_last() =~= self.pinned().subrange(
                    0,
                    i as int,
                ));
            }
            if self.pins[i].same(block) {
                last = i;
            }
            i = i + 1;
        }
        proof {
            assert(self.pinned().subrange(0, i as int) =~= self.pinned());
            lemma_last_index_of(self.pinned(), block@);
        }
        let ghost before = self.pinned();
        let ghost at = last as int;
        self.pins.remove(last);
        proof {
            assert(self.pinned() =~= before.remove(at));
        }
        let mut still: bool = false;
        let mut i: usize = 0;
        while i < self.pins.len()
            invariant
                i <= self.pins@.len(),
                still == exists|m: int| 0 <= m < i && self.pinned()[m] == block@,
            decreases self.pins@.len() - i,
        {
            proof {
                assert(self.pinned()[i as int] == self.pins@[i as int]@);
            }
            if self.pins[i].same(block) {
                still = true;
            }
            i = i + 1;
        }
        if !still {
            self.buffers.remove(block);
        }
        proof {
            assert forall|k: BlockKey| self.buffers@.contains_key(k) <==> self.pinned().contains(
                k,
            ) by {
                if k != block@ {
                    lemma_remove_keeps_others(before, at, k);
                }
            }
            if !still {
                assert(!self.pinned().contains(block@));
            } else {
                assert(self.pinned().contains(block@));
            }
        }
        Some(idx)
    }

    /// Releases every pin; returns the frame of each, one per pin, oldest first.
    pub fn unpin_all(&mut self) -> (r: Vec<usize>)
        requires
            old(self).wf(),
        ensures
            final(self).wf(),
            final(self).frames() == Map::<BlockKey, usize>::empty(),
            final(self).pinned() == Seq::<BlockKey>::empty(),
            r@ == old(self).pinned().map_values(|k: BlockKey| old(self).frames()[k]),
    {
        let mut r: Vec<usize> = Vec::new();
        let mut i: usize = 0;
        while i < self.pins.len()
            invariant
                self.wf(),
                self.frames() == old(self).frames(),
                self.pinned() == old(self).pinned(),
                i <= self.pins@.len(),
                r@ == old(self).pinned().subrange(0, i as int).map_values(
                    |k: BlockKey| old(self).frames()[k],
                ),
            decreases self.pins@.len() - i,
        {
            proof {
                assert(self.pinned()[i as int] == self.pins@[i as int]@);
                assert(self.pinned().contains(self.pins@[i as int]@));
            }
            match self.buffers.get(&self.pins[i]) {
                Some(idx) => {
                    r.push(idx);
                },
                None => {},
            }
            i = i + 1;
            proof {
                assert(r@ =~= old(self).pinned().subrange(0, i as int).map_values(
                    |k: BlockKey| old(self).frames()[k],
                ));
            }
        }
        proof {
            assert(old(self).pinned().subrange(0, i as int) =~= old(self).pinned());
        }
        self.buffers.clear();
        self.pins.clear();
        proof {
            assert(self.pinned() =~= Seq::<BlockKey>::empty());
        }
        r
    }
}

} // verus!
