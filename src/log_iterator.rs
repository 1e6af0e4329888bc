use vstd::prelude::*;

use crate::block_id::{BlockId, BlockKey};

verus! {

/// What a walk over the log does next.
#[derive(Debug, PartialEq, Eq)]
pub enum LogStep {
    /// The next record, newer records first.
    Record(Vec<u8>),
    /// The block with this number is to be read and its records handed to
    /// `move_to_block`.
    ReadBlock(BlockId),
    /// Every record has been yielded.
    Done,
}

/// Every record of the log, newest first, where `blocks[n]` holds the
/// records of block `n`, newest first.
pub open spec fn newest_first(blocks: Seq<Seq<Seq<u8>>>) -> Seq<Seq<u8>>
    decreases blocks.len(),
{
    if blocks.len() == 0 {
        Seq::empty()
    } else {
        blocks.last() + newest_first(blocks.drop_last())
    }
}

/// A walk over the log from its newest record back: the records of the
/// current block not yet yielded, then the blocks below it, highest first.
#[derive(Debug)]
pub struct LogIterator {
    block: BlockId,
    records: Vec<Vec<u8>>,
    current: usize,
}

impl LogIterator {
    /// The block the walk is in.
    pub closed spec fn spec_block(&self) -> BlockKey {
        self.block@
    }

    /// The records of the current block still to be yielded.
    pub closed spec fn pending(&self) -> Seq<Seq<u8>> {
        self.records@.subrange(self.current as int, self.records@.len() as int).map_values(
            |r: Vec<u8>| r@,
        )
    }

    pub closed spec fn wf(&self) -> bool {
        self.current <= self.records@.len()
    }

    /// What is left to yield when `blocks` are the records of the log's
    /// blocks: the pending records, then every block below the current one.
    pub open spec fn still_to_yield(&self, blocks: Seq<Seq<Seq<u8>>>) -> Seq<Seq<u8>> {
        to_come(self.pending(), self.spec_block().1 as int, blocks)
    }

    /// A walk that starts at `block`, whose records, newest first, are `records`.
    pub fn new(block: &BlockId, records: Vec<Vec<u8>>) -> (r: LogIterator)
        ensures
            r.wf(),
            r.spec_block() == block@,
            r.pending() == records@.map_values(|x: Vec<u8>| x@),
    {
        let r = LogIterator { block: block.copy(), records, current: 0 };
        assert(r.records@.subrange(0, r.records@.len() as int) =~= r.records@);
        r
    }

    /// Whether anything is left: a pending record or a lower block.
    pub fn has_next(&self) -> (r: bool)
        requires
            self.wf(),
        ensures
            r == (self.pending().len() > 0 || self.spec_block().1 > 0),
    {
        self.current < self.records.len() || self.block.block_number() > 0
    }

    /// The next thing the walk does: yield the newest pending record; else
    /// ask for the next lower block; else end.
    pub fn step(&mut self) -> (r: LogStep)
        requires
            old(self).wf(),
        ensures
            final(self).wf(),
            final(self).spec_block() == old(self).spec_block(),
            old(self).pending().len() > 0 ==> (r matches LogStep::Record(rec) && rec@ == old(
                self,
            ).pending()[0] && final(self).pending() == old(self).pending().drop_first()),
            old(self).pending().len() == 0 && old(self).spec_block().1 > 0 ==> (r matches LogStep::ReadBlock(b)
                && b@ == (old(self).spec_block().0, (old(self).spec_block().1 - 1) as usize)
                && final(self).pending() == old(self).pending()),
            old(self).pending().len() == 0 && old(self).spec_block().1 == 0 ==> r is Done
                && final(self).pending() == old(self).pending(),
    {
        if self.current < self.records.len() {
            let rec = self.records[self.current].clone();
            self.current = self.current + 1;
            assert(self.pending() =~= old(self).pending().drop_first());
            LogStep::Record(rec)
        } else if self.block.block_number() > 0 {
            LogStep::ReadBlock(BlockId::new(self.block.filename(), self.block.block_number() - 1))
        } else {
            LogStep::Done
        }
    }

    /// Moves the walk down to the next lower block, whose records, newest
    /// first, are `records`.
    pub fn move_to_block(&mut self, records: Vec<Vec<u8>>)
        requires
            old(self).wf(),
            old(self).pending().len() == 0,
            old(self).spec_block().1 > 0,
        ensures
            final(self).wf(),
            final(self).spec_block() == (old(self).spec_block().0, (old(self).spec_block().1 - 1) as usize),
            final(self).pending() == records@.map_values(|x: Vec<u8>| x@),
    {
        self.block = BlockId::new(self.block.filename(), self.block.block_number() - 1);
        self.records = records;
        self.current = 0;
        assert(self.records@.subrange(0, self.records@.len() as int) =~= self.records@);
    }
}

/// What a walk still yields when it has `pending` records of block `n`
/// left and `blocks` are the records of the log's blocks: the pending
/// records, then every block below `n`, highest first.
pub open spec fn to_come(pending: Seq<Seq<u8>>, n: int, blocks: Seq<Seq<Seq<u8>>>) -> Seq<Seq<u8>> {
    pending + newest_first(blocks.subrange(0, n))
}

/// A walk over the log yields every record once, newest first, across any
/// number of blocks: started at the last block it has the whole log to
/// come; each record it yields is the first to come; moving down to a block
/// whose records are those the log holds there changes nothing to come;
/// and at block 0 with nothing pending nothing is left.
pub proof fn lemma_walk_yields_log(blocks: Seq<Seq<Seq<u8>>>, n: int, pending: Seq<Seq<u8>>)
    requires
        0 < n <= blocks.len(),
    ensures
        to_come(blocks.last(), blocks.len() - 1, blocks) == newest_first(blocks),
        pending.len() > 0 ==> to_come(pending, n, blocks) == seq![pending[0]] + to_come(
            pending.drop_first(),
            n,
            blocks,
        ),
        to_come(Seq::empty(), n, blocks) == to_come(blocks[n - 1], n - 1, blocks),
        to_come(Seq::empty(), 0, blocks) == Seq::<Seq<u8>>::empty(),
{
    let s = blocks.subrange(0, n);
    assert(s.drop_last() =~= blocks.subrange(0, n - 1));
    assert(Seq::<Seq<u8>>::empty() + newest_first(s) =~= newest_first(s));
    if pending.len() > 0 {
        assert(pending =~= seq![pending[0]] + pending.drop_first());
        assert(pending + newest_first(s) =~= seq![pending[0]] + (pending.drop_first()
            + newest_first(s)));
    }
    assert(blocks.subrange(0, blocks.len() - 1) =~= blocks.drop_last());
    assert(blocks.subrange(0, 0) =~= Seq::<Seq<Seq<u8>>>::empty());
    assert(Seq::<Seq<u8>>::empty() + Seq::<Seq<u8>>::empty() =~= Seq::<Seq<u8>>::empty());
}

} // verus!
