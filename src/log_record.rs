use vstd::prelude::*;
use vstd::utf8::{decode_utf8, encode_utf8, encode_utf8_decode_utf8, valid_utf8};

use crate::block_id::{BlockId, BlockKey};
use crate::page::{
    fits, framed_at, framed_fits, framed_string, int_at, int_bytes, lemma_int_bytes, Page,
};

verus! {

/// The kind of a log record, stored as its first four bytes.
#[derive(Debug, PartialEq, Eq, Structural, Clone, Copy)]
pub enum LogOperation {
    Checkpoint,
    Start,
    Commit,
    Rollback,
    SetInt,
    SetString,
}

impl LogOperation {
    pub open spec fn spec_code(self) -> i32 {
        match self {
            LogOperation::Checkpoint => 0,
            LogOperation::Start => 1,
            LogOperation::Commit => 2,
            LogOperation::Rollback => 3,
            LogOperation::SetInt => 4,
            LogOperation::SetString => 5,
        }
    }

    /// The tag that stands for this kind in the log.
    pub fn code(&self) -> (r: i32)
        ensures
            r == self.spec_code(),
    {
        match self {
            LogOperation::Checkpoint => 0,
            LogOperation::Start => 1,
            LogOperation::Commit => 2,
            LogOperation::Rollback => 3,
            LogOperation::SetInt => 4,
            LogOperation::SetString => 5,
        }
    }

    /// The kind that a tag stands for; `None` for an unknown tag.
    pub fn from_code(v: i32) -> (r: Option<LogOperation>)
        ensures
            r matches Some(op) ==> op.spec_code() == v,
            r is None <==> !(0 <= v <= 5),
    {
        if v == 0 {
            Some(LogOperation::Checkpoint)
        } else if v == 1 {
            Some(LogOperation::Start)
        } else if v == 2 {
            Some(LogOperation::Commit)
        } else if v == 3 {
            Some(LogOperation::Rollback)
        } else if v == 4 {
            Some(LogOperation::SetInt)
        } else if v == 5 {
            Some(LogOperation::SetString)
        } else {
            None
        }
    }
}

/// Why a log record could not be decoded.
#[derive(Debug, PartialEq, Eq, Structural, Clone, Copy)]
pub enum LogRecordError {
    /// The record's tag names no known kind.
    UnknownLogOperation(i32),
    /// The record is too short for its kind, or a field of it is invalid.
    Malformed,
}

/// A quiescent checkpoint: every earlier transaction had finished.
#[derive(Debug)]
pub struct CheckpointRecord {}

/// The start of a transaction.
#[derive(Debug)]
pub struct StartRecord {
    pub txnum: i32,
}

/// The commit of a transaction.
#[derive(Debug)]
pub struct CommitRecord {
    pub txnum: i32,
}

/// The end of a transaction's rollback.
#[derive(Debug)]
pub struct RollbackRecord {
    pub txnum: i32,
}

/// An integer update: the value found at `offset` of `block` before the
/// transaction wrote there.
#[derive(Debug)]
pub struct SetIntRecord {
    pub txnum: i32,
    pub offset: usize,
    pub val: i32,
    pub block: BlockId,
}

/// A string update: the string found at `offset` of `block` before the
/// transaction wrote there.
#[derive(Debug)]
pub struct SetStringRecord {
    pub txnum: i32,
    pub offset: usize,
    pub val: String,
    pub block: BlockId,
}

/// One record of the log.
#[derive(Debug)]
pub enum LogRecord {
    Checkpoint(CheckpointRecord),
    Start(StartRecord),
    Commit(CommitRecord),
    Rollback(RollbackRecord),
    SetInt(SetIntRecord),
    SetString(SetStringRecord),
}

/// The abstract value of a record: its kind, transaction, block, offset,
/// integer pre-image and string pre-image. Fields that a kind does not carry
/// are zero or empty.
pub type RecordView = (LogOperation, i32, BlockKey, usize, i32, Seq<char>);

pub open spec fn no_block() -> BlockKey {
    (Seq::<char>::empty(), 0usize)
}

impl View for LogRecord {
    type V = RecordView;

    open spec fn view(&self) -> RecordView {
        match self {
            LogRecord::Checkpoint(_) => (LogOperation::Checkpoint, 0, no_block(), 0, 0, seq![]),
            LogRecord::Start(r) => (LogOperation::Start, r.txnum, no_block(), 0, 0, seq![]),
            LogRecord::Commit(r) => (LogOperation::Commit, r.txnum, no_block(), 0, 0, seq![]),
            LogRecord::Rollback(r) => (LogOperation::Rollback, r.txnum, no_block(), 0, 0, seq![]),
            LogRecord::SetInt(r) => (LogOperation::SetInt, r.txnum, r.block@, r.offset, r.val, seq![]),
            LogRecord::SetString(r) => (
                LogOperation::SetString,
                r.txnum,
                r.block@,
                r.offset,
                0,
                r.val@,
            ),
        }
    }
}

/// The bytes of an update record's header: tag, four reserved bytes, the
/// transaction, the block's file name, block number and the offset.
pub open spec fn update_header(v: RecordView) -> Seq<u8> {
    int_bytes(v.0.spec_code()) + int_bytes(0) + int_bytes(v.1) + framed_string(v.2.0) + int_bytes(
        v.2.1 as i32,
    ) + int_bytes(v.3 as i32)
}

/// The bytes of a record in the log.
pub open spec fn record_bytes(v: RecordView) -> Seq<u8> {
    match v.0 {
        LogOperation::Checkpoint => int_bytes(0),
        LogOperation::SetInt => update_header(v) + int_bytes(v.4),
        LogOperation::SetString => update_header(v) + framed_string(v.5),
        _ => int_bytes(v.0.spec_code()) + int_bytes(v.1),
    }
}

/// Whether a well-formed string is stored at `off`.
pub open spec fn string_field(b: Seq<u8>, off: int) -> bool {
    framed_fits(b, off) && valid_utf8(framed_at(b, off))
}

/// The string stored at `off`.
pub open spec fn string_value(b: Seq<u8>, off: int) -> Seq<char> {
    decode_utf8(framed_at(b, off))
}

/// Where the update fields after the file name start.
pub open spec fn block_pos(b: Seq<u8>) -> int {
    16 + int_at(b, 12)
}

/// Whether the header of an update record can be read from `b`.
pub open spec fn update_header_ok(b: Seq<u8>) -> bool {
    fits(b, 8, 4) && string_field(b, 12) && fits(b, block_pos(b), 8) && int_at(b, block_pos(b))
        >= 0 && int_at(b, block_pos(b) + 4) >= 0
}

/// The record that `b` holds, if it holds one.
pub open spec fn parse_record(b: Seq<u8>) -> Option<RecordView> {
    if !fits(b, 0, 4) {
        None
    } else {
        let op = int_at(b, 0);
        if op == 0 {
            Some((LogOperation::Checkpoint, 0, no_block(), 0, 0, seq![]))
        } else if 1 <= op <= 3 {
            if fits(b, 4, 4) {
                let kind = if op == 1 {
                    LogOperation::Start
                } else if op == 2 {
                    LogOperation::Commit
                } else {
                    LogOperation::Rollback
                };
                Some((kind, int_at(b, 4), no_block(), 0, 0, seq![]))
            } else {
                None
            }
        } else if (op == 4 || op == 5) && update_header_ok(b) {
            let bpos = block_pos(b);
            let block = (string_value(b, 12), int_at(b, bpos) as usize);
            let vpos = bpos + 8;
            if op == 4 && fits(b, vpos, 4) {
                Some(
                    (
                        LogOperation::SetInt,
                        int_at(b, 8),
                        block,
                        int_at(b, bpos + 4) as usize,
                        int_at(b, vpos),
                        seq![],
                    ),
                )
            } else if op == 5 && string_field(b, vpos) {
                Some(
                    (
                        LogOperation::SetString,
                        int_at(b, 8),
                        block,
                        int_at(b, bpos + 4) as usize,
                        0,
                        string_value(b, vpos),
                    ),
                )
            } else {
                None
            }
        } else {
            None
        }
    }
}

/// The error that decoding `b` gives, where it holds no record.
pub open spec fn parse_error(b: Seq<u8>) -> LogRecordError {
    if fits(b, 0, 4) && !(0 <= int_at(b, 0) <= 5) {
        LogRecordError::UnknownLogOperation(int_at(b, 0))
    } else {
        LogRecordError::Malformed
    }
}

/// Whether every field of a record fits its encoding.
pub open spec fn encodable(v: RecordView) -> bool {
    &&& encode_utf8(v.2.0).len() <= i32::MAX
    &&& encode_utf8(v.5).len() <= i32::MAX
    &&& v.2.1 <= i32::MAX
    &&& v.3 <= i32::MAX
}

/// Whether `v` is the view of a record of its kind: the fields that the
/// kind does not carry are zero or empty.
pub open spec fn canonical(v: RecordView) -> bool {
    match v.0 {
        LogOperation::Checkpoint => v == (LogOperation::Checkpoint, 0i32, no_block(), 0usize, 0i32, Seq::<char>::empty()),
        LogOperation::SetInt => v.5 == Seq::<char>::empty(),
        LogOperation::SetString => v.4 == 0,
        _ => v.2 == no_block() && v.3 == 0 && v.4 == 0 && v.5 == Seq::<char>::empty(),
    }
}

proof fn lemma_int_in(a: Seq<u8>, n: i32, c: Seq<u8>)
    ensures
        int_at(a + int_bytes(n) + c, a.len() as int) == n,
        fits(a + int_bytes(n) + c, a.len() as int, 4),
{
    reveal(int_at);
    lemma_int_bytes(n);
    let b = a + int_bytes(n) + c;
    let k = a.len() as int;
    assert(b[k] == int_bytes(n)[0] && b[k + 1] == int_bytes(n)[1] && b[k + 2] == int_bytes(n)[2]
        && b[k + 3] == int_bytes(n)[3]);
}

proof fn lemma_string_in(a: Seq<u8>, s: Seq<char>, c: Seq<u8>)
    requires
        encode_utf8(s).len() <= i32::MAX,
    ensures
        string_field(a + framed_string(s) + c, a.len() as int),
        string_value(a + framed_string(s) + c, a.len() as int) == s,
        int_at(a + framed_string(s) + c, a.len() as int) == encode_utf8(s).len(),
{
    let e = encode_utf8(s);
    let b = a + framed_string(s) + c;
    assert(b =~= a + int_bytes(e.len() as i32) + (e + c));
    lemma_int_in(a, e.len() as i32, e + c);
    let k = a.len() as int;
    assert(framed_at(b, k) =~= e);
    encode_utf8_decode_utf8(s);
    vstd::utf8::encode_utf8_valid_utf8(s);
}

proof fn lemma_update_fields(v: RecordView)
    requires
        encodable(v),
        v.0 == LogOperation::SetInt || v.0 == LogOperation::SetString,
    ensures
        ({
            let b = record_bytes(v);
            let bpos = 16 + encode_utf8(v.2.0).len() as int;
            &&& fits(b, 0, 4) && int_at(b, 0) == v.0.spec_code()
            &&& fits(b, 8, 4) && int_at(b, 8) == v.1
            &&& string_field(b, 12) && string_value(b, 12) == v.2.0
            &&& block_pos(b) == bpos
            &&& fits(b, bpos, 8) && int_at(b, bpos) == v.2.1 as i32 && int_at(b, bpos + 4)
                == v.3 as i32
            &&& v.0 == LogOperation::SetInt ==> fits(b, bpos + 8, 4) && int_at(b, bpos + 8) == v.4
            &&& v.0 == LogOperation::SetString ==> string_field(b, bpos + 8) && string_value(
                b,
                bpos + 8,
            ) == v.5
        }),
{
    let b = record_bytes(v);
    let e = Seq::<u8>::empty();
    let fname = framed_string(v.2.0);
    let last = if v.0 == LogOperation::SetInt {
        int_bytes(v.4)
    } else {
        framed_string(v.5)
    };
    let h0 = int_bytes(v.0.spec_code()) + int_bytes(0) + int_bytes(v.1);
    let tail = int_bytes(v.2.1 as i32) + int_bytes(v.3 as i32) + last;
    assert(b =~= h0 + fname + tail);
    lemma_int_in(e, v.0.spec_code(), int_bytes(0) + int_bytes(v.1) + fname + tail);
    assert(b =~= e + int_bytes(v.0.spec_code()) + (int_bytes(0) + int_bytes(v.1) + fname + tail));
    let a8 = int_bytes(v.0.spec_code()) + int_bytes(0);
    lemma_int_in(a8, v.1, fname + tail);
    assert(b =~= a8 + int_bytes(v.1) + (fname + tail));
    lemma_string_in(h0, v.2.0, tail);
    let h1 = h0 + fname;
    let rest = int_bytes(v.3 as i32) + last;
    lemma_int_in(h1, v.2.1 as i32, rest);
    assert(b =~= h1 + int_bytes(v.2.1 as i32) + rest);
    let h2 = h1 + int_bytes(v.2.1 as i32);
    lemma_int_in(h2, v.3 as i32, last);
    assert(b =~= h2 + int_bytes(v.3 as i32) + last);
    let h3 = h2 + int_bytes(v.3 as i32);
    if v.0 == LogOperation::SetInt {
        lemma_int_in(h3, v.4, e);
        assert(b =~= h3 + int_bytes(v.4) + e);
    } else {
        lemma_string_in(h3, v.5, e);
        assert(b =~= h3 + framed_string(v.5) + e);
    }
}

/// Decoding the bytes of a record gives the record back.
pub proof fn lemma_record_round_trip(v: RecordView)
    requires
        encodable(v),
        canonical(v),
    ensures
        parse_record(record_bytes(v)) == Some(v),
{
    let b = record_bytes(v);
    let e = Seq::<u8>::empty();
    match v.0 {
        LogOperation::Checkpoint => {
            lemma_int_in(e, 0, e);
            assert(int_bytes(0) =~= e + int_bytes(0) + e);
        },
        LogOperation::SetInt | LogOperation::SetString => {
            lemma_update_fields(v);
            assert(update_header_ok(b));
        },
        _ => {
            lemma_int_in(e, v.0.spec_code(), int_bytes(v.1));
            assert(b =~= e + int_bytes(v.0.spec_code()) + int_bytes(v.1));
            lemma_int_in(int_bytes(v.0.spec_code()), v.1, e);
            assert(b =~= int_bytes(v.0.spec_code()) + int_bytes(v.1) + e);
        },
    }
}

fn push_int(out: &mut Vec<u8>, n: i32)
    ensures
        final(out)@ == old(out)@ + int_bytes(n),
{
    let u = n as u32;
    out.push((u >> 24u32) as u8);
    out.push((u >> 16u32) as u8);
    out.push((u >> 8u32) as u8);
    out.push(u as u8);
    assert(final(out)@ =~= old(out)@ + int_bytes(n));
}

fn push_string(out: &mut Vec<u8>, s: &str)
    ensures
        final(out)@ == old(out)@ + framed_string(s@),
{
    let d = s.as_bytes();
    push_int(out, #[verifier::truncate] (d.len() as i32));
    let ghost mid = out@;
    let mut i: usize = 0;
    while i < d.len()
        invariant
            i <= d@.len(),
            d@ == encode_utf8(s@),
            out@ == mid + d@.subrange(0, i as int),
        decreases d@.len() - i,
    {
        out.push(d[i]);
        i = i + 1;
        assert(out@ =~= mid + d@.subrange(0, i as int));
    }
    assert(d@.subrange(0, d@.len() as int) =~= d@);
    assert(final(out)@ =~= old(out)@ + framed_string(s@));
}

fn push_update_header(out: &mut Vec<u8>, op: LogOperation, txnum: i32, block: &BlockId, offset: usize)
    ensures
        final(out)@ == old(out)@ + update_header(
            (op, txnum, block@, offset, 0, Seq::<char>::empty()),
        ),
{
    push_int(out, op.code());
    push_int(out, 0);
    push_int(out, txnum);
    push_string(out, block.filename());
    push_int(out, #[verifier::truncate] (block.block_number() as i32));
    push_int(out, #[verifier::truncate] (offset as i32));
    assert(final(out)@ =~= old(out)@ + update_header(
        (op, txnum, block@, offset, 0, Seq::<char>::empty()),
    ));
}

fn read_int(p: &Page, offset: usize) -> (r: Result<i32, LogRecordError>)
    ensures
        fits(p@, offset as int, 4) ==> r == Ok::<i32, LogRecordError>(int_at(p@, offset as int)),
        !fits(p@, offset as int, 4) ==> r == Err::<i32, LogRecordError>(LogRecordError::Malformed),
{
    match p.get_int(offset) {
        Ok(v) => Ok(v),
        Err(_) => Err(LogRecordError::Malformed),
    }
}

fn read_string(p: &Page, offset: usize) -> (r: Result<String, LogRecordError>)
    ensures
        string_field(p@, offset as int) ==> (r matches Ok(s) && s@ == string_value(
            p@,
            offset as int,
        )),
        !string_field(p@, offset as int) ==> r == Err::<String, LogRecordError>(
            LogRecordError::Malformed,
        ),
{
    match p.get_string(offset) {
        Ok(s) => Ok(s),
        Err(_) => Err(LogRecordError::Malformed),
    }
}

/// The header fields of an update record: transaction, block, offset, and
/// where the pre-image starts.
fn read_update_header(p: &Page) -> (r: Result<(i32, BlockId, usize, usize), LogRecordError>)
    ensures
        update_header_ok(p@) ==> (r matches Ok((t, b, o, v)) && t == int_at(p@, 8) && b@ == (
            string_value(p@, 12),
            int_at(p@, block_pos(p@)) as usize,
        ) && o == int_at(p@, block_pos(p@) + 4) as usize && v == block_pos(p@) + 8),
        !update_header_ok(p@) ==> r == Err::<(i32, BlockId, usize, usize), LogRecordError>(
            LogRecordError::Malformed,
        ),
{
    let txnum = read_int(p, 8)?;
    let filename = read_string(p, 12)?;
    let flen = read_int(p, 12)?;
    let bpos = 16 + flen as usize;
    let block_number = read_int(p, bpos)?;
    let offset = read_int(p, bpos + 4)?;
    if block_number < 0 || offset < 0 {
        return Err(LogRecordError::Malformed);
    }
    let block = BlockId::new(filename.as_str(), block_number as usize);
    Ok((txnum, block, offset as usize, bpos + 8))
}

impl CheckpointRecord {
    pub fn new() -> (r: CheckpointRecord) {
        CheckpointRecord {  }
    }

    /// The bytes of a checkpoint record.
    pub fn encode() -> (r: Vec<u8>)
        ensures
            r@ == record_bytes((LogOperation::Checkpoint, 0, no_block(), 0, 0, seq![])),
    {
        let mut out: Vec<u8> = Vec::new();
        push_int(&mut out, LogOperation::Checkpoint.code());
        assert(out@ =~= int_bytes(0));
        out
    }
}

impl StartRecord {
    /// Reads a start record from a page that holds one.
    pub fn new(p: &Page) -> (r: Result<StartRecord, LogRecordError>)
        ensures
            fits(p@, 4, 4) ==> (r matches Ok(rec) && rec.txnum == int_at(p@, 4)),
            !fits(p@, 4, 4) ==> (r matches Err(e) && e == LogRecordError::Malformed),
    {
        Ok(StartRecord { txnum: read_int(p, 4)? })
    }

    /// The bytes of the start record of transaction `txnum`.
    pub fn encode(txnum: i32) -> (r: Vec<u8>)
        ensures
            r@ == record_bytes((LogOperation::Start, txnum, no_block(), 0, 0, seq![])),
    {
        let mut out: Vec<u8> = Vec::new();
        push_int(&mut out, LogOperation::Start.code());
        push_int(&mut out, txnum);
        assert(out@ =~= int_bytes(1) + int_bytes(txnum));
        out
    }
}

impl CommitRecord {
    /// Reads a commit record from a page that holds one.
    pub fn new(p: &Page) -> (r: Result<CommitRecord, LogRecordError>)
        ensures
            fits(p@, 4, 4) ==> (r matches Ok(rec) && rec.txnum == int_at(p@, 4)),
            !fits(p@, 4, 4) ==> (r matches Err(e) && e == LogRecordError::Malformed),
    {
        Ok(CommitRecord { txnum: read_int(p, 4)? })
    }

    /// The bytes of the commit record of transaction `txnum`.
    pub fn encode(txnum: i32) -> (r: Vec<u8>)
        ensures
            r@ == record_bytes((LogOperation::Commit, txnum, no_block(), 0, 0, seq![])),
    {
        let mut out: Vec<u8> = Vec::new();
        push_int(&mut out, LogOperation::Commit.code());
        push_int(&mut out, txnum);
        assert(out@ =~= int_bytes(2) + int_bytes(txnum));
        out
    }
}

impl RollbackRecord {
    /// Reads a rollback record from a page that holds one.
    pub fn new(p: &Page) -> (r: Result<RollbackRecord, LogRecordError>)
        ensures
            fits(p@, 4, 4) ==> (r matches Ok(rec) && rec.txnum == int_at(p@, 4)),
            !fits(p@, 4, 4) ==> (r matches Err(e) && e == LogRecordError::Malformed),
    {
        Ok(RollbackRecord { txnum: read_int(p, 4)? })
    }

    /// The bytes of the rollback record of transaction `txnum`.
    pub fn encode(txnum: i32) -> (r: Vec<u8>)
        ensures
            r@ == record_bytes((LogOperation::Rollback, txnum, no_block(), 0, 0, seq![])),
    {
        let mut out: Vec<u8> = Vec::new();
        push_int(&mut out, LogOperation::Rollback.code());
        push_int(&mut out, txnum);
        assert(out@ =~= int_bytes(3) + int_bytes(txnum));
        out
    }
}

impl SetIntRecord {
    /// Reads an integer update record from a page that holds one.
    pub fn new(p: &Page) -> (r: Result<SetIntRecord, LogRecordError>)
        ensures
            update_header_ok(p@) && fits(p@, block_pos(p@) + 8, 4) ==> (r matches Ok(rec)
                && rec.txnum == int_at(p@, 8) && rec.block@ == (
                string_value(p@, 12),
                int_at(p@, block_pos(p@)) as usize,
            ) && rec.offset == int_at(p@, block_pos(p@) + 4) as usize && rec.val == int_at(
                p@,
                block_pos(p@) + 8,
            )),
            !(update_header_ok(p@) && fits(p@, block_pos(p@) + 8, 4)) ==> (r matches Err(e) && e
                == LogRecordError::Malformed),
    {
        let (txnum, block, offset, vpos) = read_update_header(p)?;
        let val = read_int(p, vpos)?;
        Ok(SetIntRecord { txnum, offset, val, block })
    }

    /// The bytes of an integer update record.
    pub fn encode(&self) -> (r: Vec<u8>)
        ensures
            r@ == record_bytes(
                (LogOperation::SetInt, self.txnum, self.block@, self.offset, self.val, seq![]),
            ),
    {
        let mut out: Vec<u8> = Vec::new();
        push_update_header(&mut out, LogOperation::SetInt, self.txnum, &self.block, self.offset);
        push_int(&mut out, self.val);
        assert(out@ =~= record_bytes(
            (LogOperation::SetInt, self.txnum, self.block@, self.offset, self.val, seq![]),
        ));
        out
    }
}

impl SetStringRecord {
    /// Reads a string update record from a page that holds one.
    pub fn new(p: &Page) -> (r: Result<SetStringRecord, LogRecordError>)
        ensures
            update_header_ok(p@) && string_field(p@, block_pos(p@) + 8) ==> (r matches Ok(rec)
                && rec.txnum == int_at(p@, 8) && rec.block@ == (
                string_value(p@, 12),
                int_at(p@, block_pos(p@)) as usize,
            ) && rec.offset == int_at(p@, block_pos(p@) + 4) as usize && rec.val@ == string_value(
                p@,
                block_pos(p@) + 8,
            )),
            !(update_header_ok(p@) && string_field(p@, block_pos(p@) + 8)) ==> (r matches Err(e)
                && e == LogRecordError::Malformed),
    {
        let (txnum, block, offset, vpos) = read_update_header(p)?;
        let val = read_string(p, vpos)?;
        Ok(SetStringRecord { txnum, offset, val, block })
    }

    /// The bytes of a string update record.
    pub fn encode(&self) -> (r: Vec<u8>)
        ensures
            r@ == record_bytes(
                (LogOperation::SetString, self.txnum, self.block@, self.offset, 0, self.val@),
            ),
    {
        let mut out: Vec<u8> = Vec::new();
        push_update_header(&mut out, LogOperation::SetString, self.txnum, &self.block, self.offset);
        push_string(&mut out, self.val.as_str());
        assert(out@ =~= record_bytes(
            (LogOperation::SetString, self.txnum, self.block@, self.offset, 0, self.val@),
        ));
        out
    }
}

impl LogRecord {
    /// The kind of this record.
    pub fn op(&self) -> (r: LogOperation)
        ensures
            r == self@.0,
    {
        match self {
            LogRecord::Checkpoint(_) => LogOperation::Checkpoint,
            LogRecord::Start(_) => LogOperation::Start,
            LogRecord::Commit(_) => LogOperation::Commit,
            LogRecord::Rollback(_) => LogOperation::Rollback,
            LogRecord::SetInt(_) => LogOperation::SetInt,
            LogRecord::SetString(_) => LogOperation::SetString,
        }
    }

    /// The transaction this record belongs to; -1 for a checkpoint.
    pub fn tx_number(&self) -> (r: i32)
        ensures
            r == (if self@.0 == LogOperation::Checkpoint {
                -1i32
            } else {
                self@.1
            }),
    {
        match self {
            LogRecord::Checkpoint(_) => -1,
            LogRecord::Start(r) => r.txnum,
            LogRecord::Commit(r) => r.txnum,
            LogRecord::Rollback(r) => r.txnum,
            LogRecord::SetInt(r) => r.txnum,
            LogRecord::SetString(r) => r.txnum,
        }
    }

    /// The bytes of this record in the log.
    pub fn encode(&self) -> (r: Vec<u8>)
        ensures
            r@ == record_bytes(self@),
    {
        match self {
            LogRecord::Checkpoint(_) => CheckpointRecord::encode(),
            LogRecord::Start(r) => StartRecord::encode(r.txnum),
            LogRecord::Commit(r) => CommitRecord::encode(r.txnum),
            LogRecord::Rollback(r) => RollbackRecord::encode(r.txnum),
            LogRecord::SetInt(r) => r.encode(),
            LogRecord::SetString(r) => r.encode(),
        }
    }
}

/// Decodes one record of the log.
pub fn create_log_record(bytes: Vec<u8>) -> (r: Result<LogRecord, LogRecordError>)
    ensures
        parse_record(bytes@) matches Some(v) ==> (r matches Ok(rec) && rec@ == v),
        parse_record(bytes@) is None ==> r == Err::<LogRecord, LogRecordError>(
            parse_error(bytes@),
        ),
{
    let p = Page::from_bytes(bytes);
    let code = read_int(&p, 0)?;
    match LogOperation::from_code(code) {
        None => Err(LogRecordError::UnknownLogOperation(code)),
        Some(LogOperation::Checkpoint) => Ok(LogRecord::Checkpoint(CheckpointRecord::new())),
        Some(LogOperation::Start) => Ok(LogRecord::Start(StartRecord::new(&p)?)),
        Some(LogOperation::Commit) => Ok(LogRecord::Commit(CommitRecord::new(&p)?)),
        Some(LogOperation::Rollback) => Ok(LogRecord::Rollback(RollbackRecord::new(&p)?)),
        Some(LogOperation::SetInt) => Ok(LogRecord::SetInt(SetIntRecord::new(&p)?)),
        Some(LogOperation::SetString) => Ok(LogRecord::SetString(SetStringRecord::new(&p)?)),
    }
}

} // verus!
