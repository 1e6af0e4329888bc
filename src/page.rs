use chrono::Datelike;
use vstd::prelude::*;
use vstd::utf8::{decode_utf8, encode_utf8, encode_utf8_decode_utf8, valid_utf8};

verus! {

/// Why a page access failed.
#[derive(Debug, PartialEq, Eq, Structural, Clone, Copy)]
pub enum PageError {
    /// A write would run past the end of the page.
    BufferSizeExceeded,
    /// A read would run past the end of the page.
    OutOfBounds,
    /// A string read from the page is not well-formed UTF-8.
    InvalidUtf8,
}

/// A calendar date, held as its number of days from 0001-01-01 of the
/// proleptic Gregorian calendar (that day is day 1).
#[derive(Debug, PartialEq, Eq, Structural, Clone, Copy)]
pub struct Date {
    pub days_from_ce: i32,
}

/// The day number of a year, month and day, where that date exists.
pub uninterp spec fn ymd_days(year: i32, month: u32, day: u32) -> Option<i32>;

/// Relies on chrono's `NaiveDate::from_ymd_opt` (None for a date that does
/// not exist) and `Datelike::num_days_from_ce`.
#[verifier::external_body]
fn chrono_days_from_ce(year: i32, month: u32, day: u32) -> (r: Option<i32>)
    ensures
        r == ymd_days(year, month, day),
{
    chrono::NaiveDate::from_ymd_opt(year, month, day).map(|d| d.num_days_from_ce())
}

impl Date {
    /// The date of a year, month and day; `None` where no such date exists.
    pub fn from_ymd(year: i32, month: u32, day: u32) -> (r: Option<Date>)
        ensures
            r == (match ymd_days(year, month, day) {
                Some(d) => Some(Date { days_from_ce: d }),
                None => None,
            }),
    {
        match chrono_days_from_ce(year, month, day) {
            Some(d) => Some(Date { days_from_ce: d }),
            None => None,
        }
    }
}

/// Relies on `String::from_utf8`: it accepts exactly the well-formed UTF-8
/// byte sequences, and the string it gives holds the characters they encode.
#[verifier::external_body]
fn string_from_utf8(bytes: Vec<u8>) -> (r: Option<String>)
    ensures
        r.is_some() == valid_utf8(bytes@),
        r matches Some(s) ==> s@ == decode_utf8(bytes@),
{
    String::from_utf8(bytes).ok()
}

/// Big-endian encoding of a 32-bit integer.
pub open spec fn int_bytes(n: i32) -> Seq<u8> {
    let u = n as u32;
    seq![(u >> 24u32) as u8, (u >> 16u32) as u8, (u >> 8u32) as u8, u as u8]
}

/// Big-endian encoding of a 16-bit integer.
pub open spec fn short_bytes(n: i16) -> Seq<u8> {
    let u = n as u16;
    seq![(u >> 8u16) as u8, u as u8]
}

/// One byte: 1 for true, 0 for false.
pub open spec fn bool_bytes(b: bool) -> Seq<u8> {
    seq![if b { 1u8 } else { 0u8 }]
}

/// A length-prefixed byte sequence: its length as a 32-bit integer, then the bytes.
pub open spec fn framed_bytes(d: Seq<u8>) -> Seq<u8> {
    int_bytes(d.len() as i32) + d
}

/// A length-prefixed string: its UTF-8 encoding, framed.
pub open spec fn framed_string(s: Seq<char>) -> Seq<u8> {
    framed_bytes(encode_utf8(s))
}

/// The 32-bit integer stored big-endian at `off`.
#[verifier::opaque]
pub open spec fn int_at(b: Seq<u8>, off: int) -> i32 {
    (((b[off] as u32) << 24u32) | ((b[off + 1] as u32) << 16u32) | ((b[off + 2] as u32) << 8u32)
        | (b[off + 3] as u32)) as i32
}

/// The 16-bit integer stored big-endian at `off`.
pub open spec fn short_at(b: Seq<u8>, off: int) -> i16 {
    (((b[off] as u16) << 8u16) | (b[off + 1] as u16)) as i16
}

/// Whether a length-prefixed byte sequence lies wholly inside `b` at `off`.
pub open spec fn framed_fits(b: Seq<u8>, off: int) -> bool {
    0 <= off && off + 4 <= b.len() && 0 <= int_at(b, off) && off + 4 + int_at(b, off) <= b.len()
}

/// The bytes of the length-prefixed sequence at `off`.
pub open spec fn framed_at(b: Seq<u8>, off: int) -> Seq<u8> {
    b.subrange(off + 4, off + 4 + int_at(b, off))
}

/// `b` with `d` written over it from `off` on.
pub open spec fn write_at(b: Seq<u8>, off: int, d: Seq<u8>) -> Seq<u8> {
    Seq::new(b.len(), |i: int| if off <= i < off + d.len() { d[i - off] } else { b[i] })
}

/// Whether `n` bytes fit in `b` from `off` on.
pub open spec fn fits(b: Seq<u8>, off: int, n: int) -> bool {
    0 <= off && off + n <= b.len()
}

/// The big-endian bytes of a 32-bit integer read back as it.
pub proof fn lemma_int_bytes(n: i32)
    ensures
        int_at(int_bytes(n), 0) == n,
{
    reveal(int_at);
    let u = n as u32;
    assert(((((u >> 24u32) as u8) as u32) << 24u32) | ((((u >> 16u32) as u8) as u32) << 16u32)
        | ((((u >> 8u32) as u8) as u32) << 8u32) | ((u as u8) as u32) == u) by (bit_vector);
    assert((n as u32) as i32 == n) by (bit_vector);
}

proof fn lemma_short_bytes(n: i16)
    ensures
        short_at(short_bytes(n), 0) == n,
{
    let u = n as u16;
    assert(((((u >> 8u16) as u8) as u16) << 8u16) | ((u as u8) as u16) == u) by (bit_vector);
    assert((n as u16) as i16 == n) by (bit_vector);
}

/// Writing a 32-bit integer at a valid offset and reading it back gives it.
pub proof fn lemma_int_round_trip(b: Seq<u8>, off: int, n: i32)
    requires
        fits(b, off, 4),
    ensures
        int_at(write_at(b, off, int_bytes(n)), off) == n,
        write_at(b, off, int_bytes(n)).len() == b.len(),
{
    reveal(int_at);
    let w = write_at(b, off, int_bytes(n));
    lemma_int_bytes(n);
    assert(w.subrange(off, off + 4) =~= int_bytes(n));
    assert(w[off] == int_bytes(n)[0] && w[off + 1] == int_bytes(n)[1]
        && w[off + 2] == int_bytes(n)[2] && w[off + 3] == int_bytes(n)[3]);
}

/// Writing a 16-bit integer at a valid offset and reading it back gives it.
pub proof fn lemma_short_round_trip(b: Seq<u8>, off: int, n: i16)
    requires
        fits(b, off, 2),
    ensures
        short_at(write_at(b, off, short_bytes(n)), off) == n,
        write_at(b, off, short_bytes(n)).len() == b.len(),
{
    let w = write_at(b, off, short_bytes(n));
    lemma_short_bytes(n);
    assert(w[off] == short_bytes(n)[0] && w[off + 1] == short_bytes(n)[1]);
}

/// Writing a boolean at a valid offset and reading it back gives it.
pub proof fn lemma_bool_round_trip(b: Seq<u8>, off: int, v: bool)
    requires
        fits(b, off, 1),
    ensures
        (write_at(b, off, bool_bytes(v))[off] != 0) == v,
        write_at(b, off, bool_bytes(v)).len() == b.len(),
{
}

/// Writing a length-prefixed byte sequence at a valid offset and reading
/// it back gives it.
pub proof fn lemma_bytes_round_trip(b: Seq<u8>, off: int, d: Seq<u8>)
    requires
        fits(b, off, 4 + d.len() as int),
        d.len() <= i32::MAX,
    ensures
        framed_fits(write_at(b, off, framed_bytes(d)), off),
        framed_at(write_at(b, off, framed_bytes(d)), off) == d,
        write_at(b, off, framed_bytes(d)).len() == b.len(),
{
    reveal(int_at);
    let w = write_at(b, off, framed_bytes(d));
    let h = write_at(b, off, int_bytes(d.len() as i32));
    lemma_int_round_trip(b, off, d.len() as i32);
    assert(w[off] == h[off] && w[off + 1] == h[off + 1] && w[off + 2] == h[off + 2]
        && w[off + 3] == h[off + 3]);
    assert(int_at(w, off) == d.len());
    assert(framed_at(w, off) =~= d);
}

/// Writing a string at a valid offset and reading it back gives it.
pub proof fn lemma_string_round_trip(b: Seq<u8>, off: int, s: Seq<char>)
    requires
        fits(b, off, 4 + encode_utf8(s).len() as int),
        encode_utf8(s).len() <= i32::MAX,
    ensures
        framed_fits(write_at(b, off, framed_string(s)), off),
        valid_utf8(framed_at(write_at(b, off, framed_string(s)), off)),
        decode_utf8(framed_at(write_at(b, off, framed_string(s)), off)) == s,
{
    lemma_bytes_round_trip(b, off, encode_utf8(s));
    encode_utf8_decode_utf8(s);
    vstd::utf8::encode_utf8_valid_utf8(s);
}

/// A block-sized byte buffer with typed accessors at byte offsets.
/// Integers are big-endian; byte sequences and strings carry a 32-bit
/// length prefix.
#[derive(Debug)]
pub struct Page {
    buf: Vec<u8>,
}

impl View for Page {
    type V = Seq<u8>;

    closed spec fn view(&self) -> Seq<u8> {
        self.buf@
    }
}

impl Clone for Page {
    fn clone(&self) -> (r: Page)
        ensures
            r@ == self@,
    {
        Page { buf: self.buf.clone() }
    }
}

impl Page {
    /// A zero-filled page of `block_size` bytes.
    pub fn new(block_size: usize) -> (r: Page)
        ensures
            r@ == Seq::new(block_size as nat, |i: int| 0u8),
    {
        let buf = vec![0u8; block_size];
        proof {
            assert(buf@ =~= Seq::new(block_size as nat, |i: int| 0u8));
        }
        Page { buf }
    }

    /// A page holding exactly these bytes.
    pub fn from_bytes(bytes: Vec<u8>) -> (r: Page)
        ensures
            r@ == bytes@,
    {
        Page { buf: bytes }
    }

    /// The page's bytes.
    pub fn contents(&self) -> (r: &Vec<u8>)
        ensures
            r@ == self@,
    {
        &self.buf
    }

    /// The page's size in bytes.
    pub fn len(&self) -> (r: usize)
        ensures
            r == self@.len(),
    {
        self.buf.len()
    }

    fn room(&self, offset: usize, n: usize) -> (r: bool)
        ensures
            r == fits(self@, offset as int, n as int),
            self@.len() <= usize::MAX,
    {
        offset <= self.buf.len() && n <= self.buf.len() - offset
    }

    fn copy_out(&self, offset: usize, n: usize) -> (r: Vec<u8>)
        requires
            fits(self@, offset as int, n as int),
        ensures
            r@ == self@.subrange(offset as int, offset + n),
    {
        let len = self.buf.len();
        let mut r: Vec<u8> = Vec::with_capacity(n);
        let mut i: usize = 0;
        while i < n
            invariant
                i <= n,
                len == self@.len(),
                fits(self@, offset as int, n as int),
                r@ == self@.subrange(offset as int, offset + i),
            decreases n - i,
        {
            r.push(self.buf[offset + i]);
            i = i + 1;
            proof {
                assert(r@ =~= self@.subrange(offset as int, offset + i));
            }
        }
        r
    }

    fn copy_in(&mut self, offset: usize, d: &[u8])
        requires
            fits(old(self)@, offset as int, d@.len() as int),
        ensures
            final(self)@ == write_at(old(self)@, offset as int, d@),
    {
        let len = self.buf.len();
        let mut i: usize = 0;
        while i < d.len()
            invariant
                i <= d@.len(),
                len == self@.len(),
                fits(old(self)@, offset as int, d@.len() as int),
                self@ == write_at(old(self)@, offset as int, d@.subrange(0, i as int)),
            decreases d@.len() - i,
        {
            self.buf.set(offset + i, d[i]);
            i = i + 1;
            proof {
                assert(self@ =~= write_at(old(self)@, offset as int, d@.subrange(0, i as int)));
            }
        }
        proof {
            assert(d@.subrange(0, d@.len() as int) =~= d@);
        }
    }

    fn int_value(&self, offset: usize) -> (r: i32)
        requires
            fits(self@, offset as int, 4),
        ensures
            r == int_at(self@, offset as int),
    {
        reveal(int_at);
        let len = self.buf.len();
        let u: u32 = ((self.buf[offset] as u32) << 24u32) | ((self.buf[offset + 1] as u32) << 16u32)
            | ((self.buf[offset + 2] as u32) << 8u32) | (self.buf[offset + 3] as u32);
        #[verifier::truncate]
        (u as i32)
    }

    fn put_int(&mut self, offset: usize, n: i32)
        requires
            fits(old(self)@, offset as int, 4),
        ensures
            final(self)@ == write_at(old(self)@, offset as int, int_bytes(n)),
    {
        let u = n as u32;
        let d: [u8; 4] = [(u >> 24u32) as u8, (u >> 16u32) as u8, (u >> 8u32) as u8, u as u8];
        proof {
            assert(d@ =~= int_bytes(n));
        }
        self.copy_in(offset, d.as_slice());
    }

    /// Reads the 16-bit integer at `offset`.
    pub fn get_short(&self, offset: usize) -> (r: Result<i16, PageError>)
        ensures
            fits(self@, offset as int, 2) ==> r == Ok::<i16, PageError>(short_at(self@, offset as int)),
            !fits(self@, offset as int, 2) ==> r == Err::<i16, PageError>(PageError::OutOfBounds),
    {
        if !self.room(offset, 2) {
            return Err(PageError::OutOfBounds);
        }
        let u: u16 = ((self.buf[offset] as u16) << 8u16) | (self.buf[offset + 1] as u16);
        Ok(#[verifier::truncate] (u as i16))
    }

    /// Writes a 16-bit integer at `offset`.
    pub fn set_short(&mut self, offset: usize, n: i16) -> (r: Result<(), PageError>)
        ensures
            fits(old(self)@, offset as int, 2) ==> r is Ok && final(self)@ == write_at(
                old(self)@,
                offset as int,
                short_bytes(n),
            ),
            !fits(old(self)@, offset as int, 2) ==> r == Err::<(), PageError>(
                PageError::BufferSizeExceeded,
            ) && final(self)@ == old(self)@,
    {
        if !self.room(offset, 2) {
            return Err(PageError::BufferSizeExceeded);
        }
        let u = n as u16;
        let d: [u8; 2] = [(u >> 8u16) as u8, u as u8];
        proof {
            assert(d@ =~= short_bytes(n));
        }
        self.copy_in(offset, d.as_slice());
        Ok(())
    }

    /// Reads the 32-bit integer at `offset`.
    pub fn get_int(&self, offset: usize) -> (r: Result<i32, PageError>)
        ensures
            fits(self@, offset as int, 4) ==> r == Ok::<i32, PageError>(int_at(self@, offset as int)),
            !fits(self@, offset as int, 4) ==> r == Err::<i32, PageError>(PageError::OutOfBounds),
    {
        if !self.room(offset, 4) {
            return Err(PageError::OutOfBounds);
        }
        Ok(self.int_value(offset))
    }

    /// Writes a 32-bit integer at `offset`.
    pub fn set_int(&mut self, offset: usize, n: i32) -> (r: Result<(), PageError>)
        ensures
            fits(old(self)@, offset as int, 4) ==> r is Ok && final(self)@ == write_at(
                old(self)@,
                offset as int,
                int_bytes(n),
            ),
            !fits(old(self)@, offset as int, 4) ==> r == Err::<(), PageError>(
                PageError::BufferSizeExceeded,
            ) && final(self)@ == old(self)@,
    {
        if !self.room(offset, 4) {
            return Err(PageError::BufferSizeExceeded);
        }
        self.put_int(offset, n);
        Ok(())
    }

    /// Reads the length-prefixed byte sequence at `offset`.
    pub fn get_bytes(&self, offset: usize) -> (r: Result<Vec<u8>, PageError>)
        ensures
            framed_fits(self@, offset as int) ==> (r matches Ok(d) && d@ == framed_at(
                self@,
                offset as int,
            )),
            !framed_fits(self@, offset as int) ==> (r matches Err(e) && e == PageError::OutOfBounds),
    {
        if !self.room(offset, 4) {
            return Err(PageError::OutOfBounds);
        }
        let n = self.int_value(offset);
        if n < 0 || !self.room(offset + 4, n as usize) {
            return Err(PageError::OutOfBounds);
        }
        Ok(self.copy_out(offset + 4, n as usize))
    }

    /// Writes a byte sequence at `offset`, preceded by its length.
    pub fn set_bytes(&mut self, offset: usize, d: &[u8]) -> (r: Result<(), PageError>)
        ensures
            fits(old(self)@, offset as int, 4 + d@.len() as int) && d@.len() <= i32::MAX ==> r is Ok
                && final(self)@ == write_at(old(self)@, offset as int, framed_bytes(d@)),
            !(fits(old(self)@, offset as int, 4 + d@.len() as int) && d@.len() <= i32::MAX) ==> r
                == Err::<(), PageError>(PageError::BufferSizeExceeded) && final(self)@ == old(
                self,
            )@,
    {
        if !self.room(offset, 4) || d.len() > self.buf.len() - offset - 4 || d.len()
            > i32::MAX as usize {
            return Err(PageError::BufferSizeExceeded);
        }
        let ghost before = self@;
        self.put_int(offset, d.len() as i32);
        self.copy_in(offset + 4, d);
        proof {
            assert(self@ =~= write_at(before, offset as int, framed_bytes(d@)));
        }
        Ok(())
    }

    /// Reads the length-prefixed UTF-8 string at `offset`.
    pub fn get_string(&self, offset: usize) -> (r: Result<String, PageError>)
        ensures
            framed_fits(self@, offset as int) && valid_utf8(framed_at(self@, offset as int)) ==> (r
                matches Ok(s) && s@ == decode_utf8(framed_at(self@, offset as int))),
            !framed_fits(self@, offset as int) ==> (r matches Err(e) && e == PageError::OutOfBounds),
            framed_fits(self@, offset as int) && !valid_utf8(framed_at(self@, offset as int)) ==> (r
                matches Err(e) && e == PageError::InvalidUtf8),
    {
        let d = self.get_bytes(offset)?;
        match string_from_utf8(d) {
            Some(s) => Ok(s),
            None => Err(PageError::InvalidUtf8),
        }
    }

    /// Writes a string at `offset` as its UTF-8 bytes preceded by their length.
    pub fn set_string(&mut self, offset: usize, s: &str) -> (r: Result<(), PageError>)
        ensures
            fits(old(self)@, offset as int, 4 + encode_utf8(s@).len() as int) && encode_utf8(s@).len()
                <= i32::MAX ==> r is Ok && final(self)@ == write_at(
                old(self)@,
                offset as int,
                framed_string(s@),
            ),
            !(fits(old(self)@, offset as int, 4 + encode_utf8(s@).len() as int) && encode_utf8(s@).len()
                <= i32::MAX) ==> r == Err::<(), PageError>(PageError::BufferSizeExceeded)
                && final(self)@ == old(self)@,
    {
        self.set_bytes(offset, s.as_bytes())
    }

    /// Reads the boolean at `offset`: any non-zero byte is true.
    pub fn get_bool(&self, offset: usize) -> (r: Result<bool, PageError>)
        ensures
            fits(self@, offset as int, 1) ==> r == Ok::<bool, PageError>(self@[offset as int] != 0),
            !fits(self@, offset as int, 1) ==> r == Err::<bool, PageError>(PageError::OutOfBounds),
    {
        if !self.room(offset, 1) {
            return Err(PageError::OutOfBounds);
        }
        Ok(self.buf[offset] != 0)
    }

    /// Writes a boolean at `offset` as one byte.
    pub fn set_bool(&mut self, offset: usize, b: bool) -> (r: Result<(), PageError>)
        ensures
            fits(old(self)@, offset as int, 1) ==> r is Ok && final(self)@ == write_at(
                old(self)@,
                offset as int,
                bool_bytes(b),
            ),
            !fits(old(self)@, offset as int, 1) ==> r == Err::<(), PageError>(
                PageError::BufferSizeExceeded,
            ) && final(self)@ == old(self)@,
    {
        if !self.room(offset, 1) {
            return Err(PageError::BufferSizeExceeded);
        }
        let v: u8 = if b {
            1
        } else {
            0
        };
        self.buf.set(offset, v);
        proof {
            assert(self@ =~= write_at(old(self)@, offset as int, bool_bytes(b)));
        }
        Ok(())
    }

    /// Reads the date at `offset`, stored as a 32-bit day number.
    pub fn get_date(&self, offset: usize) -> (r: Result<Date, PageError>)
        ensures
            fits(self@, offset as int, 4) ==> r == Ok::<Date, PageError>(
                Date { days_from_ce: int_at(self@, offset as int) },
            ),
            !fits(self@, offset as int, 4) ==> r == Err::<Date, PageError>(PageError::OutOfBounds),
    {
        let days = self.get_int(offset)?;
        Ok(Date { days_from_ce: days })
    }

    /// Writes a date at `offset` as its 32-bit day number.
    pub fn set_date(&mut self, offset: usize, date: Date) -> (r: Result<(), PageError>)
        ensures
            fits(old(self)@, offset as int, 4) ==> r is Ok && final(self)@ == write_at(
                old(self)@,
                offset as int,
                int_bytes(date.days_from_ce),
            ),
            !fits(old(self)@, offset as int, 4) ==> r == Err::<(), PageError>(
                PageError::BufferSizeExceeded,
            ) && final(self)@ == old(self)@,
    {
        self.set_int(offset, date.days_from_ce)
    }

    /// The encoded size of a string of `strlen` bytes: the 4-byte length
    /// prefix and the bytes.
    pub fn max_length(strlen: usize) -> (r: usize)
        requires
            strlen <= usize::MAX - 4,
        ensures
            r == strlen + 4,
    {
        4 + strlen
    }
}

} // verus!
