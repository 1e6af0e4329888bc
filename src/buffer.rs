use vstd::prelude::*;

use crate::block_id::{BlockId, BlockKey};
use crate::page::{
    fits, framed_at, framed_fits, framed_string, int_at, int_bytes, write_at, Page, PageError,
};
use vstd::utf8::{decode_utf8, encode_utf8, valid_utf8};
use crate::Lsn;

verus! {

/// One frame of the buffer pool: a page, the block it holds, how many
/// times it is pinned, and the transaction and log record of its newest
/// unsaved change. A transaction number of -1 marks a clean frame.
#[derive(Debug)]
pub struct Buffer {
    contents: Page,
    block: Option<BlockId>,
    pins: u32,
    txnum: i64,
    lsn: Lsn,
}

impl Buffer {
    pub closed spec fn spec_contents(&self) -> Seq<u8> {
        self.contents@
    }

    pub closed spec fn spec_block(&self) -> Option<BlockKey> {
        match self.block {
            Some(b) => Some(b@),
            None => None,
        }
    }

    pub closed spec fn spec_pins(&self) -> u32 {
        self.pins
    }

    pub closed spec fn spec_txnum(&self) -> i64 {
        self.txnum
    }

    pub closed spec fn spec_lsn(&self) -> Lsn {
        self.lsn
    }

    /// An empty, clean, unpinned frame with a zeroed page of `block_size` bytes.
    pub fn new(block_size: usize) -> (r: Buffer)
        ensures
            r.spec_contents() == Seq::new(block_size as nat, |i: int| 0u8),
            r.spec_block() is None,
            r.spec_pins() == 0,
            r.spec_txnum() == -1,
            r.spec_lsn() == -1,
    {
        Buffer { contents: Page::new(block_size), block: None, pins: 0, txnum: -1, lsn: -1 }
    }

    /// The frame's page.
    pub fn contents(&self) -> (r: &Page)
        ensures
            r@ == self.spec_contents(),
    {
        &self.contents
    }

    /// The block the frame holds, if any.
    pub fn block(&self) -> (r: Option<&BlockId>)
        ensures
            self.spec_block() is None ==> r is None,
            self.spec_block() matches Some(k) ==> (r matches Some(b) && b@ == k),
    {
        match &self.block {
            Some(b) => Some(b),
            None => None,
        }
    }

    /// The transaction whose change is not yet saved; -1 when clean.
    pub fn modifying_tx(&self) -> (r: i64)
        ensures
            r == self.spec_txnum(),
    {
        self.txnum
    }

    /// The log record of the newest change.
    pub fn lsn(&self) -> (r: Lsn)
        ensures
            r == self.spec_lsn(),
    {
        self.lsn
    }

    /// Notes a change by transaction `txnum`, covered by log record `lsn`;
    /// a negative `lsn` (a change not logged) keeps the previous one.
    pub fn set_modified(&mut self, txnum: i64, lsn: Lsn)
        ensures
            final(self).spec_txnum() == txnum,
            final(self).spec_lsn() == (if lsn >= 0 {
                lsn
            } else {
                old(self).spec_lsn()
            }),
            final(self).spec_contents() == old(self).spec_contents(),
            final(self).spec_block() == old(self).spec_block(),
            final(self).spec_pins() == old(self).spec_pins(),
    {
        self.txnum = txnum;
        if lsn >= 0 {
            self.lsn = lsn;
        }
    }

    /// How many times the frame is pinned.
    pub fn pin_count(&self) -> (r: u32)
        ensures
            r == self.spec_pins(),
    {
        self.pins
    }

    /// Whether the frame is pinned at least once.
    pub fn is_pinned(&self) -> (r: bool)
        ensures
            r == (self.spec_pins() > 0),
    {
        self.pins > 0
    }

    pub fn pin(&mut self)
        requires
            old(self).spec_pins() < u32::MAX,
        ensures
            final(self).spec_pins() == old(self).spec_pins() + 1,
            final(self).spec_contents() == old(self).spec_contents(),
            final(self).spec_block() == old(self).spec_block(),
            final(self).spec_txnum() == old(self).spec_txnum(),
            final(self).spec_lsn() == old(self).spec_lsn(),
    {
        self.pins = self.pins + 1;
    }

    pub fn unpin(&mut self)
        requires
            old(self).spec_pins() > 0,
        ensures
            final(self).spec_pins() == old(self).spec_pins() - 1,
            final(self).spec_contents() == old(self).spec_contents(),
            final(self).spec_block() == old(self).spec_block(),
            final(self).spec_txnum() == old(self).spec_txnum(),
            final(self).spec_lsn() == old(self).spec_lsn(),
    {
        self.pins = self.pins - 1;
    }
}

/// The number of unpinned frames among `pins`.
pub open spec fn unpinned_count(pins: Seq<u32>) -> nat
    decreases pins.len(),
{
    if pins.len() == 0 {
        0
    } else {
        unpinned_count(pins.drop_last()) + (if pins.last() == 0 {
            1nat
        } else {
            0nat
        })
    }
}

/// The number of pinned frames among `pins`.
pub open spec fn pinned_count(pins: Seq<u32>) -> nat
    decreases pins.len(),
{
    if pins.len() == 0 {
        0
    } else {
        pinned_count(pins.drop_last()) + (if pins.last() > 0 {
            1nat
        } else {
            0nat
        })
    }
}

proof fn lemma_count_update(pins: Seq<u32>, i: int, v: u32)
    requires
        0 <= i < pins.len(),
    ensures
        unpinned_count(pins.update(i, v)) + (if pins[i] == 0 {
            1nat
        } else {
            0nat
        }) == unpinned_count(pins) + (if v == 0 {
            1nat
        } else {
            0nat
        }),
    decreases pins.len(),
{
    let u = pins.update(i, v);
    if i == pins.len() - 1 {
        assert(u.drop_last() =~= pins.drop_last());
    } else {
        assert(u.drop_last() =~= pins.drop_last().update(i, v));
        lemma_count_update(pins.drop_last(), i, v);
    }
}

proof fn lemma_count_total(pins: Seq<u32>)
    ensures
        pinned_count(pins) + unpinned_count(pins) == pins.len(),
    decreases pins.len(),
{
    if pins.len() > 0 {
        lemma_count_total(pins.drop_last());
    }
}

proof fn lemma_count_all_zero(pins: Seq<u32>)
    requires
        forall|i: int| 0 <= i < pins.len() ==> pins[i] == 0,
    ensures
        unpinned_count(pins) == pins.len(),
    decreases pins.len(),
{
    if pins.len() > 0 {
        lemma_count_all_zero(pins.drop_last());
    }
}

proof fn lemma_count_zero_means_pinned(pins: Seq<u32>, i: int)
    requires
        0 <= i < pins.len(),
        pins[i] == 0,
    ensures
        unpinned_count(pins) > 0,
    decreases pins.len(),
{
    if i < pins.len() - 1 {
        lemma_count_zero_means_pinned(pins.drop_last(), i);
    }
}

/// Every frame is either pinned or available: the pinned frames and the
/// available count add up to the size of the pool.
pub proof fn lemma_pool_accounting(pool: &BufferPoolState)
    requires
        pool.wf(),
    ensures
        pinned_count(pool.pins()) + pool.spec_available() == pool.frames().len(),
{
    lemma_count_total(pool.pins());
}

/// Where a block can be pinned.
#[derive(Debug, PartialEq, Eq, Structural, Clone, Copy)]
pub enum PinChoice {
    /// This frame already holds the block.
    Resident(usize),
    /// No frame holds the block; this one is unpinned and can take it.
    Replace(usize),
    /// No frame holds the block and every frame is pinned.
    NoneFree,
}

/// The frames of the buffer pool and the number of them that are unpinned.
#[derive(Debug)]
pub struct BufferPoolState {
    buffer_pool: Vec<Buffer>,
    num_available: usize,
}

impl BufferPoolState {
    pub closed spec fn frames(&self) -> Seq<Buffer> {
        self.buffer_pool@
    }

    /// The pin count of each frame.
    pub open spec fn pins(&self) -> Seq<u32> {
        self.frames().map_values(|b: Buffer| b.spec_pins())
    }

    pub closed spec fn spec_available(&self) -> nat {
        self.num_available as nat
    }

    /// The count of available frames is the number of unpinned frames.
    pub open spec fn wf(&self) -> bool {
        self.spec_available() == unpinned_count(self.pins())
    }

    /// A pool of `num_buffers` empty, clean, unpinned frames.
    pub fn new(num_buffers: usize, block_size: usize) -> (r: BufferPoolState)
        ensures
            r.wf(),
            r.frames().len() == num_buffers,
            r.spec_available() == num_buffers,
            forall|i: int|
                0 <= i < num_buffers ==> (#[trigger] r.frames()[i]).spec_block() is None
                    && r.frames()[i].spec_pins() == 0 && r.frames()[i].spec_txnum() == -1,
    {
        let mut buffer_pool: Vec<Buffer> = Vec::new();
        let mut i: usize = 0;
        while i < num_buffers
            invariant
                i <= num_buffers,
                buffer_pool@.len() == i,
                forall|j: int|
                    0 <= j < i ==> (#[trigger] buffer_pool@[j]).spec_block() is None
                        && buffer_pool@[j].spec_pins() == 0 && buffer_pool@[j].spec_txnum() == -1,
            decreases num_buffers - i,
        {
            buffer_pool.push(Buffer::new(block_size));
            i = i + 1;
        }
        let r = BufferPoolState { buffer_pool, num_available: num_buffers };
        proof {
            lemma_count_all_zero(r.pins());
        }
        r
    }

    /// The number of frames.
    pub fn size(&self) -> (r: usize)
        ensures
            r == self.frames().len(),
    {
        self.buffer_pool.len()
    }

    /// The number of unpinned frames.
    pub fn available(&self) -> (r: usize)
        requires
            self.wf(),
        ensures
            r == unpinned_count(self.pins()),
    {
        self.num_available
    }

    /// The frame at `idx`.
    pub fn buffer(&self, idx: usize) -> (r: &Buffer)
        requires
            idx < self.frames().len(),
        ensures
            *r == self.frames()[idx as int],
    {
        &self.buffer_pool[idx]
    }

    /// The first frame that holds `block`.
    pub fn find_existing_buffer(&self, block: &BlockId) -> (r: Option<usize>)
        ensures
            r matches Some(i) ==> i < self.frames().len() && self.frames()[i as int].spec_block()
                == Some(block@) && forall|j: int|
                0 <= j < i ==> self.frames()[j].spec_block() != Some(block@),
            r is None ==> forall|j: int|
                0 <= j < self.frames().len() ==> self.frames()[j].spec_block() != Some(block@),
    {
        let mut i: usize = 0;
        while i < self.buffer_pool.len()
            invariant
                i <= self.frames().len(),
                forall|j: int| 0 <= j < i ==> self.frames()[j].spec_block() != Some(block@),
            decreases self.frames().len() - i,
        {
            match self.buffer_pool[i].block() {
                Some(b) => {
                    if b.same(block) {
                        return Some(i);
                    }
                },
                None => {},
            }
            i = i + 1;
        }
        None
    }

    /// The first unpinned frame.
    pub fn find_unpinned_buffer(&self) -> (r: Option<usize>)
        ensures
            r matches Some(i) ==> i < self.frames().len() && self.pins()[i as int] == 0 && forall|
                j: int,
            |
                0 <= j < i ==> self.pins()[j] > 0,
            r is None ==> forall|j: int| 0 <= j < self.frames().len() ==> self.pins()[j] > 0,
    {
        let mut i: usize = 0;
        while i < self.buffer_pool.len()
            invariant
                i <= self.frames().len(),
                forall|j: int| 0 <= j < i ==> self.pins()[j] > 0,
            decreases self.frames().len() - i,
        {
            if !self.buffer_pool[i].is_pinned() {
                return Some(i);
            }
            i = i + 1;
        }
        None
    }

    /// Where `block` can be pinned: the first frame holding it; else the
    /// first unpinned frame; else nowhere.
    pub fn choose_frame(&self, block: &BlockId) -> (r: PinChoice)
        ensures
            r matches PinChoice::Resident(i) ==> i < self.frames().len()
                && self.frames()[i as int].spec_block() == Some(block@),
            r matches PinChoice::Replace(i) ==> i < self.frames().len() && self.pins()[i as int]
                == 0 && forall|j: int|
                0 <= j < self.frames().len() ==> self.frames()[j].spec_block() != Some(block@),
            r is NoneFree <==> (forall|j: int|
                0 <= j < self.frames().len() ==> self.frames()[j].spec_block() != Some(block@))
                && (forall|j: int| 0 <= j < self.frames().len() ==> self.pins()[j] > 0),
    {
        match self.find_existing_buffer(block) {
            Some(i) => PinChoice::Resident(i),
            None => match self.find_unpinned_buffer() {
                Some(i) => PinChoice::Replace(i),
                None => PinChoice::NoneFree,
            },
        }
    }

    /// Pins the frame at `idx` once more; it leaves the available count if
    /// it was unpinned.
    pub fn pin(&mut self, idx: usize)
        requires
            old(self).wf(),
            idx < old(self).frames().len(),
            old(self).pins()[idx as int] < u32::MAX,
        ensures
            final(self).wf(),
            final(self).pins() == old(self).pins().update(idx as int, (old(self).pins()[idx as int] + 1) as u32),
            final(self).frames().len() == old(self).frames().len(),
            final(self).frames()[idx as int].spec_block() == old(self).frames()[idx as int].spec_block(),
            final(self).frames()[idx as int].spec_contents() == old(self).frames()[idx as int].spec_contents(),
            forall|j: int| 0 <= j < old(self).frames().len() && j != idx ==> final(self).frames()[j] == old(self).frames()[j],
    {
        let ghost before = self.pins();
        let was_pinned = self.buffer_pool[idx].is_pinned();
        self.buffer_pool[idx].pin();
        proof {
            assert(self.pins() =~= before.update(idx as int, (before[idx as int] + 1) as u32));
            lemma_count_update(before, idx as int, (before[idx as int] + 1) as u32);
            if !was_pinned {
                lemma_count_zero_means_pinned(before, idx as int);
            }
        }
        if !was_pinned {
            self.num_available = self.num_available - 1;
        }
    }

    /// Unpins the frame at `idx` once; returns whether it is now unpinned,
    /// in which case it rejoins the available count.
    pub fn unpin(&mut self, idx: usize) -> (r: bool)
        requires
            old(self).wf(),
            idx < old(self).frames().len(),
            old(self).pins()[idx as int] > 0,
        ensures
            final(self).wf(),
            final(self).pins() == old(self).pins().update(idx as int, (old(self).pins()[idx as int] - 1) as u32),
            r == (old(self).pins()[idx as int] == 1),
            final(self).frames().len() == old(self).frames().len(),
            final(self).frames()[idx as int].spec_block() == old(self).frames()[idx as int].spec_block(),
            final(self).frames()[idx as int].spec_contents() == old(self).frames()[idx as int].spec_contents(),
            forall|j: int| 0 <= j < old(self).frames().len() && j != idx ==> final(self).frames()[j] == old(self).frames()[j],
    {
        let ghost before = self.pins();
        let _n = self.buffer_pool.len();
        self.buffer_pool[idx].unpin();
        let now_free = !self.buffer_pool[idx].is_pinned();
        proof {
            assert(self.pins() =~= before.update(idx as int, (before[idx as int] - 1) as u32));
            lemma_count_update(before, idx as int, (before[idx as int] - 1) as u32);
            lemma_count_total(self.pins());
        }
        if now_free {
            self.num_available = self.num_available + 1;
        }
        now_free
    }

    /// Gives the unpinned, clean frame at `idx` to `block`, whose bytes were
    /// just read into `bytes`, and pins it.
    pub fn assign_and_pin(&mut self, idx: usize, block: &BlockId, bytes: Vec<u8>)
        requires
            old(self).wf(),
            idx < old(self).frames().len(),
            old(self).pins()[idx as int] == 0,
            old(self).frames()[idx as int].spec_txnum() < 0,
        ensures
            final(self).wf(),
            final(self).pins() == old(self).pins().update(idx as int, 1),
            final(self).frames().len() == old(self).frames().len(),
            final(self).frames()[idx as int].spec_block() == Some(block@),
            final(self).frames()[idx as int].spec_contents() == bytes@,
            final(self).frames()[idx as int].spec_txnum() == old(self).frames()[idx as int].spec_txnum(),
            forall|j: int| 0 <= j < old(self).frames().len() && j != idx ==> final(self).frames()[j] == old(self).frames()[j],
    {
        let ghost before = self.pins();
        self.buffer_pool[idx].contents = Page::from_bytes(bytes);
        self.buffer_pool[idx].block = Some(block.copy());
        self.buffer_pool[idx].pins = 1;
        proof {
            assert(self.pins() =~= before.update(idx as int, 1));
            lemma_count_update(before, idx as int, 1);
            lemma_count_zero_means_pinned(before, idx as int);
        }
        self.num_available = self.num_available - 1;
    }

    /// The log record up to which the log must be saved before the frame at
    /// `idx` is written out; `None` when the frame is clean.
    pub fn flush_lsn(&self, idx: usize) -> (r: Option<Lsn>)
        requires
            idx < self.frames().len(),
        ensures
            r == (if self.frames()[idx as int].spec_txnum() >= 0 {
                Some(self.frames()[idx as int].spec_lsn())
            } else {
                None
            }),
    {
        if self.buffer_pool[idx].txnum >= 0 {
            Some(self.buffer_pool[idx].lsn)
        } else {
            None
        }
    }

    /// Marks the frame at `idx` clean once its page is written out. The log
    /// must be saved through `saved_lsn`, which covers the frame's newest
    /// change: log records reach the disk before the pages they protect.
    pub fn mark_flushed(&mut self, idx: usize, saved_lsn: Lsn)
        requires
            old(self).wf(),
            idx < old(self).frames().len(),
            old(self).frames()[idx as int].spec_lsn() <= saved_lsn,
        ensures
            final(self).wf(),
            final(self).pins() == old(self).pins(),
            final(self).frames().len() == old(self).frames().len(),
            final(self).frames()[idx as int].spec_txnum() == -1,
            final(self).frames()[idx as int].spec_lsn() == old(self).frames()[idx as int].spec_lsn(),
            final(self).frames()[idx as int].spec_block() == old(self).frames()[idx as int].spec_block(),
            final(self).frames()[idx as int].spec_contents() == old(self).frames()[idx as int].spec_contents(),
            forall|j: int| 0 <= j < old(self).frames().len() && j != idx ==> final(self).frames()[j] == old(self).frames()[j],
    {
        self.buffer_pool[idx].txnum = -1;
        assert(self.pins() =~= old(self).pins());
    }

    /// The frames holding an unsaved change of transaction `txnum`, in order.
    pub fn frames_modified_by(&self, txnum: i64) -> (r: Vec<usize>)
        ensures
            forall|k: int| 0 <= k < r@.len() ==> r@[k] < self.frames().len()
                && self.frames()[r@[k] as int].spec_txnum() == txnum,
            forall|j: int| 0 <= j < self.frames().len() && self.frames()[j].spec_txnum() == txnum
                ==> r@.contains(j as usize),
            forall|k: int, l: int| 0 <= k < l < r@.len() ==> r@[k] < r@[l],
    {
        let mut r: Vec<usize> = Vec::new();
        let mut i: usize = 0;
        while i < self.buffer_pool.len()
            invariant
                i <= self.frames().len(),
                forall|k: int| 0 <= k < r@.len() ==> r@[k] < i
                    && self.frames()[r@[k] as int].spec_txnum() == txnum,
                forall|j: int| 0 <= j < i && self.frames()[j].spec_txnum() == txnum
                    ==> r@.contains(j as usize),
                forall|k: int, l: int| 0 <= k < l < r@.len() ==> r@[k] < r@[l],
            decreases self.frames().len() - i,
        {
            if self.buffer_pool[i].txnum == txnum {
                let ghost before = r@;
                r.push(i);
                proof {
                    assert(r@[r@.len() - 1] == i);
                    assert forall|j: int| 0 <= j < i && self.frames()[j].spec_txnum() == txnum
                        implies r@.contains(j as usize) by {
                        let k = choose|k: int| 0 <= k < before.len() && before[k] == j as usize;
                        assert(r@[k] == j as usize);
                    }
                }
            }
            i = i + 1;
        }
        r
    }

    /// Notes a change to the frame at `idx` by transaction `txnum`, covered
    /// by log record `lsn` (negative: not logged).
    pub fn set_modified(&mut self, idx: usize, txnum: i64, lsn: Lsn)
        requires
            old(self).wf(),
            idx < old(self).frames().len(),
        ensures
            final(self).wf(),
            final(self).pins() == old(self).pins(),
            final(self).frames().len() == old(self).frames().len(),
            final(self).frames()[idx as int].spec_txnum() == txnum,
            final(self).frames()[idx as int].spec_lsn() == (if lsn >= 0 {
                lsn
            } else {
                old(self).frames()[idx as int].spec_lsn()
            }),
            final(self).frames()[idx as int].spec_block() == old(self).frames()[idx as int].spec_block(),
            final(self).frames()[idx as int].spec_contents() == old(self).frames()[idx as int].spec_contents(),
            forall|j: int| 0 <= j < old(self).frames().len() && j != idx ==> final(self).frames()[j] == old(self).frames()[j],
    {
        self.buffer_pool[idx].set_modified(txnum, lsn);
        assert(self.pins() =~= old(self).pins());
    }

    /// Reads the 32-bit integer at `offset` of the page in frame `idx`.
    pub fn get_int(&self, idx: usize, offset: usize) -> (r: Result<i32, PageError>)
        requires
            idx < self.frames().len(),
        ensures
            fits(self.frames()[idx as int].spec_contents(), offset as int, 4) ==> r == Ok::<i32, PageError>(int_at(self.frames()[idx as int].spec_contents(), offset as int)),
            !fits(self.frames()[idx as int].spec_contents(), offset as int, 4) ==> r == Err::<i32, PageError>(PageError::OutOfBounds),
    {
        self.buffer_pool[idx].contents.get_int(offset)
    }

    /// Reads the string at `offset` of the page in frame `idx`.
    pub fn get_string(&self, idx: usize, offset: usize) -> (r: Result<String, PageError>)
        requires
            idx < self.frames().len(),
        ensures
            framed_fits(self.frames()[idx as int].spec_contents(), offset as int) && valid_utf8(framed_at(self.frames()[idx as int].spec_contents(), offset as int)) ==> (r
                matches Ok(s) && s@ == decode_utf8(framed_at(self.frames()[idx as int].spec_contents(), offset as int))),
            !(framed_fits(self.frames()[idx as int].spec_contents(), offset as int) && valid_utf8(framed_at(self.frames()[idx as int].spec_contents(), offset as int))) ==> r is Err,
    {
        self.buffer_pool[idx].contents.get_string(offset)
    }

    /// Writes a 32-bit integer at `offset` of the page in frame `idx` on
    /// behalf of transaction `txnum`, whose log record `lsn` (negative: not
    /// logged) covers the change, and marks the frame modified.
    pub fn write_int(&mut self, idx: usize, offset: usize, val: i32, txnum: i64, lsn: Lsn) -> (r: Result<(), PageError>)
        requires
            old(self).wf(),
            idx < old(self).frames().len(),
        ensures
            final(self).wf(),
            final(self).pins() == old(self).pins(),
            final(self).frames().len() == old(self).frames().len(),
            forall|j: int| 0 <= j < old(self).frames().len() && j != idx ==> final(self).frames()[j] == old(self).frames()[j],
            final(self).frames()[idx as int].spec_block() == old(self).frames()[idx as int].spec_block(),
            fits(old(self).frames()[idx as int].spec_contents(), offset as int, 4) ==> r is Ok
                && final(self).frames()[idx as int].spec_contents() == write_at(old(self).frames()[idx as int].spec_contents(), offset as int, int_bytes(val))
                && final(self).frames()[idx as int].spec_txnum() == txnum
                && final(self).frames()[idx as int].spec_lsn() == (if lsn >= 0 { lsn } else { old(self).frames()[idx as int].spec_lsn() }),
            !fits(old(self).frames()[idx as int].spec_contents(), offset as int, 4) ==> r == Err::<(), PageError>(PageError::BufferSizeExceeded)
                && final(self).frames() == old(self).frames(),
    {
        let n = self.buffer_pool[idx].contents.len();
        if offset > n || n - offset < 4 {
            return Err(PageError::BufferSizeExceeded);
        }
        let _ = self.buffer_pool[idx].contents.set_int(offset, val);
        self.buffer_pool[idx].set_modified(txnum, lsn);
        assert(self.pins() =~= old(self).pins());
        Ok(())
    }

    /// Writes a string at `offset` of the page in frame `idx` on behalf of
    /// transaction `txnum`, whose log record `lsn` (negative: not logged)
    /// covers the change, and marks the frame modified.
    pub fn write_string(&mut self, idx: usize, offset: usize, val: &str, txnum: i64, lsn: Lsn) -> (r: Result<(), PageError>)
        requires
            old(self).wf(),
            idx < old(self).frames().len(),
        ensures
            final(self).wf(),
            final(self).pins() == old(self).pins(),
            final(self).frames().len() == old(self).frames().len(),
            forall|j: int| 0 <= j < old(self).frames().len() && j != idx ==> final(self).frames()[j] == old(self).frames()[j],
            final(self).frames()[idx as int].spec_block() == old(self).frames()[idx as int].spec_block(),
            fits(old(self).frames()[idx as int].spec_contents(), offset as int, 4 + encode_utf8(val@).len() as int) && encode_utf8(val@).len() <= i32::MAX ==> r is Ok
                && final(self).frames()[idx as int].spec_contents() == write_at(old(self).frames()[idx as int].spec_contents(), offset as int, framed_string(val@))
                && final(self).frames()[idx as int].spec_txnum() == txnum
                && final(self).frames()[idx as int].spec_lsn() == (if lsn >= 0 { lsn } else { old(self).frames()[idx as int].spec_lsn() }),
            !(fits(old(self).frames()[idx as int].spec_contents(), offset as int, 4 + encode_utf8(val@).len() as int) && encode_utf8(val@).len() <= i32::MAX) ==> r == Err::<(), PageError>(PageError::BufferSizeExceeded)
                && final(self).frames() == old(self).frames(),
    {
        let n = self.buffer_pool[idx].contents.len();
        let l = val.as_bytes().len();
        if offset > n || n - offset < 4 || l > n - offset - 4 || l > i32::MAX as usize {
            return Err(PageError::BufferSizeExceeded);
        }
        let _ = self.buffer_pool[idx].contents.set_string(offset, val);
        self.buffer_pool[idx].set_modified(txnum, lsn);
        assert(self.pins() =~= old(self).pins());
        Ok(())
    }
}

} // verus!
