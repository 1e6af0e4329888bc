use vstd::prelude::*;

use crate::page::{
    fits, framed_at, framed_bytes, framed_fits, int_at, int_bytes, lemma_bytes_round_trip,
    lemma_int_round_trip, write_at, Page,
};
use crate::Lsn;

verus! {

/// The records stored from `pos` to the end of `b`, one after the other,
/// each with its length prefix.
#[verifier::opaque]
pub open spec fn records_from(b: Seq<u8>, pos: int) -> Option<Seq<Seq<u8>>>
    decreases b.len() - pos,
{
    if pos == b.len() {
        Some(Seq::<Seq<u8>>::empty())
    } else if pos < b.len() && framed_fits(b, pos) {
        match records_from(b, pos + 4 + int_at(b, pos)) {
            Some(rest) => Some(seq![framed_at(b, pos)] + rest),
            None => None,
        }
    } else {
        None
    }
}

/// The records of a log block, newest first: the first four bytes hold the
/// boundary, where the newest record starts, and the records run from there
/// to the end of the block.
pub open spec fn block_records(b: Seq<u8>) -> Option<Seq<Seq<u8>>> {
    if fits(b, 0, 4) && int_at(b, 0) >= 4 {
        records_from(b, int_at(b, 0) as int)
    } else {
        None
    }
}

/// Whether a record of `n` bytes, with its length prefix, fits before the
/// boundary of `b` without touching the boundary word.
pub open spec fn record_fits(b: Seq<u8>, n: int) -> bool {
    int_at(b, 0) - (n + 4) >= 4
}

proof fn lemma_records_from_agree(b: Seq<u8>, c: Seq<u8>, pos: int)
    requires
        b.len() == c.len(),
        0 <= pos,
        forall|i: int| pos <= i < b.len() ==> b[i] == c[i],
    ensures
        records_from(b, pos) == records_from(c, pos),
    decreases b.len() - pos,
{
    reveal(records_from);
    reveal(int_at);
    if pos < b.len() && framed_fits(b, pos) {
        assert(int_at(b, pos) == int_at(c, pos)) by {
            assert(b[pos] == c[pos] && b[pos + 1] == c[pos + 1] && b[pos + 2] == c[pos + 2]
                && b[pos + 3] == c[pos + 3]);
        }
        assert(framed_at(b, pos) =~= framed_at(c, pos));
        lemma_records_from_agree(b, c, pos + 4 + int_at(b, pos));
    } else if pos < b.len() && framed_fits(c, pos) {
        assert(int_at(b, pos) == int_at(c, pos)) by {
            assert(b[pos] == c[pos] && b[pos + 1] == c[pos + 1] && b[pos + 2] == c[pos + 2]
                && b[pos + 3] == c[pos + 3]);
        }
    }
}

proof fn lemma_records_from_bound(b: Seq<u8>, pos: int)
    requires
        records_from(b, pos) is Some,
    ensures
        pos <= b.len(),
{
    reveal(records_from);
}

proof fn lemma_records_cons(b: Seq<u8>, pos: int, rec: Seq<u8>, recs: Seq<Seq<u8>>)
    requires
        0 <= pos,
        framed_fits(b, pos),
        framed_at(b, pos) == rec,
        int_at(b, pos) == rec.len(),
        records_from(b, pos + 4 + rec.len()) == Some(recs),
    ensures
        records_from(b, pos) == Some(seq![rec] + recs),
{
    reveal(records_from);
    assert(pos < b.len());
}

/// Storing a record in front of the boundary and moving the boundary to it
/// puts the record first in the block.
#[verifier::spinoff_prover]
pub proof fn lemma_push_record(b: Seq<u8>, recs: Seq<Seq<u8>>, rec: Seq<u8>)
    requires
        block_records(b) == Some(recs),
        record_fits(b, rec.len() as int),
    ensures
        ({
            let pos = int_at(b, 0) - (rec.len() + 4);
            let b1 = write_at(b, pos, framed_bytes(rec));
            block_records(write_at(b1, 0, int_bytes(pos as i32))) == Some(seq![rec] + recs)
        }),
{
    let boundary = int_at(b, 0) as int;
    let pos = boundary - (rec.len() + 4);
    let b1 = write_at(b, pos, framed_bytes(rec));
    let b2 = write_at(b1, 0, int_bytes(pos as i32));
    lemma_records_from_bound(b, boundary);
    assert(rec.len() <= i32::MAX);
    assert(fits(b, pos, 4 + rec.len() as int));
    lemma_bytes_round_trip(b, pos, rec);
    assert(int_at(b1, pos) == rec.len());
    assert forall|i: int| boundary <= i < b.len() implies b[i] == b1[i] by {}
    lemma_records_from_agree(b, b1, boundary);
    lemma_records_cons(b1, pos, rec, recs);
    lemma_int_round_trip(b1, 0, pos as i32);
    assert(fits(b2, pos, 4 + rec.len() as int));
    assert forall|i: int| pos <= i < b1.len() implies b1[i] == b2[i] by {}
    lemma_records_from_agree(b1, b2, pos);
    assert(int_at(b2, 0) == pos);
}

/// Why a record cannot be appended to the current log block.
#[derive(Debug, PartialEq, Eq, Structural, Clone, Copy)]
pub enum LogPageError {
    /// The record does not fit in what is left of the block: the block is to
    /// be written out and a fresh one started.
    BlockFull,
    /// The record would not fit even in an empty block.
    RecordTooLarge,
}

/// The in-memory log block that records are appended to, and the log
/// sequence numbers handed out so far.
#[derive(Debug)]
pub struct LogPage {
    page: Page,
    latest_lsn: Lsn,
    last_saved_lsn: Lsn,
}

impl LogPage {
    /// The block's bytes are a well-formed log block.
    pub open spec fn wf(&self) -> bool {
        block_records(self.bytes()) is Some && self.spec_latest() >= self.spec_saved() >= 0
    }

    pub closed spec fn bytes(&self) -> Seq<u8> {
        self.page@
    }

    /// The records of the block, newest first.
    pub open spec fn records(&self) -> Seq<Seq<u8>> {
        block_records(self.bytes())->0
    }

    pub closed spec fn spec_latest(&self) -> Lsn {
        self.latest_lsn
    }

    pub closed spec fn spec_saved(&self) -> Lsn {
        self.last_saved_lsn
    }

    fn set_empty(page: &mut Page)
        requires
            4 <= old(page)@.len() <= i32::MAX,
        ensures
            final(page)@.len() == old(page)@.len(),
            block_records(final(page)@) == Some(Seq::<Seq<u8>>::empty()),
            int_at(final(page)@, 0) == old(page)@.len(),
    {
        let n = page.len();
        let _ = page.set_int(0, n as i32);
        proof {
            lemma_int_round_trip(old(page)@, 0, n as i32);
            reveal(records_from);
        }
    }

    /// A log page for a new, empty block of `block_size` bytes.
    pub fn new(block_size: usize) -> (r: LogPage)
        requires
            4 <= block_size <= i32::MAX,
        ensures
            r.wf(),
            r.bytes().len() == block_size,
            r.records() == Seq::<Seq<u8>>::empty(),
            r.spec_latest() == 0,
            r.spec_saved() == 0,
    {
        let mut page = Page::new(block_size);
        LogPage::set_empty(&mut page);
        LogPage { page, latest_lsn: 0, last_saved_lsn: 0 }
    }

    /// A log page that continues from a block read back from the log file;
    /// `None` where the bytes are not a well-formed log block.
    pub fn from_block(bytes: Vec<u8>) -> (r: Option<LogPage>)
        ensures
            r matches Some(lp) ==> lp.wf() && lp.bytes() == bytes@ && lp.spec_latest() == 0
                && lp.spec_saved() == 0,
            r is None <==> block_records(bytes@) is None,
    {
        let page = Page::from_bytes(bytes);
        match LogPage::read_records(&page) {
            Some(_) => Some(LogPage { page, latest_lsn: 0, last_saved_lsn: 0 }),
            None => None,
        }
    }

    /// The block's bytes, as they are to be written to the log file.
    pub fn contents(&self) -> (r: &Vec<u8>)
        ensures
            r@ == self.bytes(),
    {
        self.page.contents()
    }

    /// The number of the newest record appended.
    pub fn latest_lsn(&self) -> (r: Lsn)
        ensures
            r == self.spec_latest(),
    {
        self.latest_lsn
    }

    /// The number of the newest record known to be written to the log file.
    pub fn last_saved_lsn(&self) -> (r: Lsn)
        ensures
            r == self.spec_saved(),
    {
        self.last_saved_lsn
    }

    /// Whether a flush is due for the record numbered `lsn`: it is unless
    /// every record up to it was saved already.
    pub fn needs_flush(&self, lsn: Lsn) -> (r: bool)
        ensures
            r == (lsn >= self.spec_saved()),
    {
        lsn >= self.last_saved_lsn
    }

    /// Notes that the block, with every record appended so far, has been
    /// written to the log file.
    pub fn mark_saved(&mut self)
        requires
            old(self).wf(),
        ensures
            final(self).wf(),
            final(self).bytes() == old(self).bytes(),
            final(self).spec_latest() == old(self).spec_latest(),
            final(self).spec_saved() == old(self).spec_latest(),
    {
        self.last_saved_lsn = self.latest_lsn;
    }

    /// Starts a fresh, empty block of the same size; the record numbers go on.
    pub fn start_block(&mut self)
        requires
            old(self).wf(),
            old(self).bytes().len() <= i32::MAX,
        ensures
            final(self).wf(),
            final(self).records() == Seq::<Seq<u8>>::empty(),
            final(self).bytes().len() == old(self).bytes().len(),
            final(self).spec_latest() == old(self).spec_latest(),
            final(self).spec_saved() == old(self).spec_saved(),
    {
        LogPage::set_empty(&mut self.page);
    }

    /// Appends a record in front of the newest one and returns its number,
    /// one more than the last. Fails, changing nothing, where the record does
    /// not fit in what is left of the block.
    pub fn append(&mut self, rec: &[u8]) -> (r: Result<Lsn, LogPageError>)
        requires
            old(self).wf(),
            old(self).spec_latest() < Lsn::MAX,
        ensures
            final(self).wf(),
            final(self).bytes().len() == old(self).bytes().len(),
            record_fits(old(self).bytes(), rec@.len() as int) ==> r == Ok::<Lsn, LogPageError>(
                (old(self).spec_latest() + 1) as Lsn,
            ) && final(self).records() == seq![rec@] + old(self).records()
                && final(self).spec_latest() == old(self).spec_latest() + 1
                && final(self).spec_saved() == old(self).spec_saved(),
            !record_fits(old(self).bytes(), rec@.len() as int) ==> r is Err && final(self).bytes()
                == old(self).bytes() && final(self).spec_latest() == old(self).spec_latest()
                && final(self).spec_saved() == old(self).spec_saved(),
            r == Err::<Lsn, LogPageError>(LogPageError::RecordTooLarge) <==> !record_fits(
                old(self).bytes(),
                rec@.len() as int,
            ) && rec@.len() + 8 > old(self).bytes().len(),
    {
        let boundary = match self.page.get_int(0) {
            Ok(v) => v,
            Err(_) => return Err(LogPageError::BlockFull),
        };
        let size = self.page.len();
        proof {
            lemma_records_from_bound(self.page@, int_at(self.page@, 0) as int);
        }
        if (boundary as usize) < 8 || rec.len() > (boundary as usize) - 8 {
            if rec.len() > size || size - rec.len() < 8 {
                return Err(LogPageError::RecordTooLarge);
            }
            return Err(LogPageError::BlockFull);
        }
        let pos = (boundary as usize) - 4 - rec.len();
        proof {
            lemma_push_record(self.page@, self.records(), rec@);
        }
        let _ = self.page.set_bytes(pos, rec);
        let _ = self.page.set_int(0, pos as i32);
        self.latest_lsn = self.latest_lsn + 1;
        Ok(self.latest_lsn)
    }

    /// The records stored from `pos` on, or `None` where they are not
    /// well-formed.
    fn records_at(page: &Page, pos: usize) -> (r: Option<Vec<Vec<u8>>>)
        ensures
            r matches Some(v) ==> records_from(page@, pos as int) == Some(
                v@.map_values(|x: Vec<u8>| x@),
            ),
            r is None <==> records_from(page@, pos as int) is None,
    {
        proof {
            reveal(records_from);
        }
        let n = page.len();
        let mut out: Vec<Vec<u8>> = Vec::new();
        let mut p: usize = pos;
        let ghost start = pos as int;
        while p < n
            invariant
                n == page@.len(),
                start == pos as int,
                records_from(page@, start) == (match records_from(page@, p as int) {
                    Some(rest) => Some(out@.map_values(|x: Vec<u8>| x@) + rest),
                    None => None::<Seq<Seq<u8>>>,
                }),
            decreases n - p,
        {
            proof {
                reveal(records_from);
            }
            match page.get_bytes(p) {
                Ok(rec) => {
                    let ghost before = out@;
                    let next = p + 4 + rec.len();
                    out.push(rec);
                    proof {
                        assert(out@.map_values(|x: Vec<u8>| x@) =~= before.map_values(
                            |x: Vec<u8>| x@,
                        ).push(framed_at(page@, p as int)));
                        match records_from(page@, next as int) {
                            Some(rest) => {
                                assert(before.map_values(|x: Vec<u8>| x@) + (seq![
                                    framed_at(page@, p as int),
                                ] + rest) =~= out@.map_values(|x: Vec<u8>| x@) + rest);
                            },
                            None => {},
                        }
                    }
                    p = next;
                },
                Err(_) => {
                    assert(records_from(page@, p as int) is None);
                    assert(records_from(page@, start) is None);
                    return None;
                },
            }
        }
        if p == n {
            proof {
                assert(out@.map_values(|x: Vec<u8>| x@) + Seq::<Seq<u8>>::empty() =~= out@.map_values(
                    |x: Vec<u8>| x@,
                ));
            }
            Some(out)
        } else {
            None
        }
    }

    /// The records of a log block, newest first, or `None` where the block
    /// is not well-formed.
    pub fn read_records(page: &Page) -> (r: Option<Vec<Vec<u8>>>)
        ensures
            r matches Some(v) ==> block_records(page@) == Some(v@.map_values(|x: Vec<u8>| x@)),
            r is None <==> block_records(page@) is None,
    {
        match page.get_int(0) {
            Ok(boundary) => {
                if boundary < 4 {
                    None
                } else {
                    LogPage::records_at(page, boundary as usize)
                }
            },
            Err(_) => None,
        }
    }

    /// The records of this block, newest first.
    pub fn records_newest_first(&self) -> (r: Vec<Vec<u8>>)
        requires
            self.wf(),
        ensures
            r@.map_values(|x: Vec<u8>| x@) == self.records(),
    {
        match LogPage::read_records(&self.page) {
            Some(v) => v,
            None => Vec::new(),
        }
    }
}

} // verus!
