use vstd::prelude::*;
use vstd::utf8::{decode_utf8, valid_utf8};

use crate::buffer::Buffer;
use crate::log_record::{LogOperation, LogRecord, RecordView, SetIntRecord, SetStringRecord};
use crate::page::{
    fits, framed_at, framed_fits, int_at, int_bytes, write_at, PageError,
};

verus! {

/// Why an update could not be logged.
#[derive(Debug, PartialEq, Eq, Structural, Clone, Copy)]
pub enum RecoveryError {
    /// The frame holds no block.
    NoBlock,
    /// The value before the update could not be read.
    Page(PageError),
}

/// What to do with one record met while walking the log backwards.
#[derive(Debug, PartialEq, Eq, Structural, Clone, Copy)]
pub enum UndoStep {
    /// Write the record's pre-image back.
    Undo,
    /// Go on to the next older record.
    Skip,
    /// Stop walking.
    Stop,
}

/// The transaction a record belongs to; -1 for a checkpoint.
pub open spec fn record_tx(v: RecordView) -> i32 {
    if v.0 == LogOperation::Checkpoint {
        -1i32
    } else {
        v.1
    }
}

/// Whether a record carries a pre-image to write back.
pub open spec fn is_update(op: LogOperation) -> bool {
    op == LogOperation::SetInt || op == LogOperation::SetString
}

/// The step of a rollback of transaction `tx` at record `v`: its updates
/// are undone, and its start ends the walk.
pub open spec fn rollback_step_of(v: RecordView, tx: i32) -> UndoStep {
    if record_tx(v) != tx {
        UndoStep::Skip
    } else if v.0 == LogOperation::Start {
        UndoStep::Stop
    } else if is_update(v.0) {
        UndoStep::Undo
    } else {
        UndoStep::Skip
    }
}

/// The step of a recovery at record `v`, given the transactions already
/// seen to finish: a checkpoint ends the walk, and the updates of
/// transactions not seen to finish are undone.
pub open spec fn recovery_step_of(v: RecordView, finished: Set<i32>) -> UndoStep {
    if v.0 == LogOperation::Checkpoint {
        UndoStep::Stop
    } else if is_update(v.0) && !finished.contains(v.1) {
        UndoStep::Undo
    } else {
        UndoStep::Skip
    }
}

/// The undo-logging side of one transaction.
#[derive(Debug)]
pub struct RecoveryManager {
    txnum: i32,
}

impl RecoveryManager {
    pub closed spec fn spec_txnum(&self) -> i32 {
        self.txnum
    }

    pub fn new(txnum: i32) -> (r: RecoveryManager)
        ensures
            r.spec_txnum() == txnum,
    {
        RecoveryManager { txnum }
    }

    pub fn txnum(&self) -> (r: i32)
        ensures
            r == self.spec_txnum(),
    {
        self.txnum
    }

    /// The record that logs an integer write at `offset` of the frame's
    /// block: it carries the value there now, before the write.
    pub fn set_int(&self, buf: &Buffer, offset: usize) -> (r: Result<SetIntRecord, RecoveryError>)
        ensures
            buf.spec_block() is None ==> r == Err::<SetIntRecord, RecoveryError>(
                RecoveryError::NoBlock,
            ),
            buf.spec_block() is Some && fits(buf.spec_contents(), offset as int, 4) ==> (r
                matches Ok(rec) && rec.txnum == self.spec_txnum() && rec.block@ == buf.spec_block()->0 && rec.offset
                == offset && rec.val == int_at(buf.spec_contents(), offset as int)),
            buf.spec_block() is Some && !fits(buf.spec_contents(), offset as int, 4) ==> r
                == Err::<SetIntRecord, RecoveryError>(RecoveryError::Page(PageError::OutOfBounds)),
    {
        let block = match buf.block() {
            Some(b) => b,
            None => return Err(RecoveryError::NoBlock),
        };
        match buf.contents().get_int(offset) {
            Ok(val) => Ok(SetIntRecord { txnum: self.txnum, offset, val, block: block.copy() }),
            Err(e) => Err(RecoveryError::Page(e)),
        }
    }

    /// The record that logs a string write at `offset` of the frame's block:
    /// it carries the string there now, before the write.
    pub fn set_string(&self, buf: &Buffer, offset: usize) -> (r: Result<
        SetStringRecord,
        RecoveryError,
    >)
        ensures
            buf.spec_block() is None ==> r == Err::<SetStringRecord, RecoveryError>(
                RecoveryError::NoBlock,
            ),
            buf.spec_block() is Some && framed_fits(buf.spec_contents(), offset as int)
                && valid_utf8(framed_at(buf.spec_contents(), offset as int)) ==> (r matches Ok(rec)
                && rec.txnum == self.spec_txnum() && rec.block@ == buf.spec_block()->0 && rec.offset == offset
                && rec.val@ == decode_utf8(framed_at(buf.spec_contents(), offset as int))),
            buf.spec_block() is Some && !(framed_fits(buf.spec_contents(), offset as int)
                && valid_utf8(framed_at(buf.spec_contents(), offset as int))) ==> (r matches Err(
                e,
            ) && e is Page),
    {
        let block = match buf.block() {
            Some(b) => b,
            None => return Err(RecoveryError::NoBlock),
        };
        match buf.contents().get_string(offset) {
            Ok(val) => Ok(SetStringRecord { txnum: self.txnum, offset, val, block: block.copy() }),
            Err(e) => Err(RecoveryError::Page(e)),
        }
    }

    /// What the rollback of this transaction does at `rec`, met while
    /// walking the log from the newest record back.
    pub fn rollback_step(&self, rec: &LogRecord) -> (r: UndoStep)
        ensures
            r == rollback_step_of(rec@, self.spec_txnum()),
    {
        if rec.tx_number() != self.txnum {
            UndoStep::Skip
        } else {
            match rec.op() {
                LogOperation::Start => UndoStep::Stop,
                LogOperation::SetInt | LogOperation::SetString => UndoStep::Undo,
                _ => UndoStep::Skip,
            }
        }
    }
}

/// The state of a recovery walk: the transactions seen to commit or roll
/// back so far.
#[derive(Debug)]
pub struct RecoveryScan {
    finished: Vec<i32>,
}

impl RecoveryScan {
    /// The transactions seen to finish.
    pub closed spec fn finished(&self) -> Set<i32> {
        self.finished@.to_set()
    }

    pub fn new() -> (r: RecoveryScan)
        ensures
            r.finished() == Set::<i32>::empty(),
    {
        let r = RecoveryScan { finished: Vec::new() };
        assert(r.finished() =~= Set::<i32>::empty());
        r
    }

    fn is_finished(&self, tx: i32) -> (r: bool)
        ensures
            r == self.finished().contains(tx),
    {
        let mut i: usize = 0;
        while i < self.finished.len()
            invariant
                i <= self.finished@.len(),
                forall|j: int| 0 <= j < i ==> self.finished@[j] != tx,
            decreases self.finished@.len() - i,
        {
            if self.finished[i] == tx {
                assert(self.finished@.contains(tx));
                return true;
            }
            i = i + 1;
        }
        false
    }

    /// What recovery does at `rec`, met while walking the log from the
    /// newest record back; a commit or rollback marks its transaction finished.
    pub fn step(&mut self, rec: &LogRecord) -> (r: UndoStep)
        ensures
            r == recovery_step_of(rec@, old(self).finished()),
            final(self).finished() == (if rec@.0 == LogOperation::Commit || rec@.0
                == LogOperation::Rollback {
                old(self).finished().insert(rec@.1)
            } else {
                old(self).finished()
            }),
    {
        match rec.op() {
            LogOperation::Checkpoint => UndoStep::Stop,
            LogOperation::Commit | LogOperation::Rollback => {
                self.finished.push(rec.tx_number());
                proof {
                    old(self).finished@.lemma_push_to_set_commute(rec@.1);
                }
                UndoStep::Skip
            },
            LogOperation::Start => UndoStep::Skip,
            _ => {
                if self.is_finished(rec.tx_number()) {
                    UndoStep::Skip
                } else {
                    UndoStep::Undo
                }
            },
        }
    }
}

/// The page `b` after the integer writes `ws` (offset, value), oldest first.
pub open spec fn apply_writes(b: Seq<u8>, ws: Seq<(int, i32)>) -> Seq<u8>
    decreases ws.len(),
{
    if ws.len() == 0 {
        b
    } else {
        write_at(apply_writes(b, ws.drop_last()), ws.last().0, int_bytes(ws.last().1))
    }
}

/// The pre-images that logging the writes `ws` to page `b` records: each
/// write's offset with the value there just before it.
pub open spec fn pre_images(b: Seq<u8>, ws: Seq<(int, i32)>) -> Seq<(int, i32)>
    decreases ws.len(),
{
    if ws.len() == 0 {
        Seq::empty()
    } else {
        pre_images(b, ws.drop_last()).push(
            (ws.last().0, int_at(apply_writes(b, ws.drop_last()), ws.last().0)),
        )
    }
}

/// The page `b` after the pre-images `log` are written back, newest first.
pub open spec fn undo_writes(b: Seq<u8>, log: Seq<(int, i32)>) -> Seq<u8>
    decreases log.len(),
{
    if log.len() == 0 {
        b
    } else {
        undo_writes(write_at(b, log.last().0, int_bytes(log.last().1)), log.drop_last())
    }
}

proof fn lemma_bytes_of_int_at(b: Seq<u8>, off: int)
    requires
        fits(b, off, 4),
    ensures
        int_bytes(int_at(b, off)) == b.subrange(off, off + 4),
{
    reveal(int_at);
    let (x0, x1, x2, x3) = (b[off], b[off + 1], b[off + 2], b[off + 3]);
    let u: u32 = ((x0 as u32) << 24u32) | ((x1 as u32) << 16u32) | ((x2 as u32) << 8u32) | (
    x3 as u32);
    assert((u >> 24u32) as u8 == x0 && (u >> 16u32) as u8 == x1 && (u >> 8u32) as u8 == x2 && u
        as u8 == x3) by (bit_vector)
        requires
            u == ((x0 as u32) << 24u32) | ((x1 as u32) << 16u32) | ((x2 as u32) << 8u32) | (
            x3 as u32),
    ;
    assert((u as i32) as u32 == u) by (bit_vector);
    assert(int_bytes(int_at(b, off)) =~= b.subrange(off, off + 4));
}

proof fn lemma_undo_one(b: Seq<u8>, off: int, v: i32)
    requires
        fits(b, off, 4),
    ensures
        write_at(write_at(b, off, int_bytes(v)), off, int_bytes(int_at(b, off))) == b,
{
    lemma_bytes_of_int_at(b, off);
    assert(write_at(write_at(b, off, int_bytes(v)), off, int_bytes(int_at(b, off))) =~= b);
}

proof fn lemma_apply_len(b: Seq<u8>, ws: Seq<(int, i32)>)
    ensures
        apply_writes(b, ws).len() == b.len(),
    decreases ws.len(),
{
    if ws.len() > 0 {
        lemma_apply_len(b, ws.drop_last());
    }
}

/// Rolling back restores a page: writing back the pre-images of a
/// transaction's integer writes, newest first, gives the page it had
/// before the first of them.
pub proof fn lemma_undo_restores(b: Seq<u8>, ws: Seq<(int, i32)>)
    requires
        forall|i: int| 0 <= i < ws.len() ==> fits(b, #[trigger] ws[i].0, 4),
    ensures
        undo_writes(apply_writes(b, ws), pre_images(b, ws)) == b,
    decreases ws.len(),
{
    if ws.len() > 0 {
        let prev = ws.drop_last();
        let before = apply_writes(b, prev);
        let (off, v) = ws.last();
        assert(fits(b, ws[ws.len() - 1].0, 4));
        lemma_apply_len(b, prev);
        lemma_undo_one(before, off, v);
        let log = pre_images(b, ws);
        assert(log.drop_last() =~= pre_images(b, prev));
        assert forall|i: int| 0 <= i < prev.len() implies fits(b, #[trigger] prev[i].0, 4) by {
            assert(prev[i] == ws[i]);
        }
        lemma_undo_restores(b, prev);
    }
}

} // verus!
