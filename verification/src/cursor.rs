//! A read position over borrowed bytes, and the primitive reads of the frame
//! decoder.

use crate::decimal::parse_decimal;
use crate::frame::Error;
use crate::text::invalid_format_text;
use crate::wire::crlf_at;
use crate::wire::decimal_field;
use crate::wire::first_crlf;
use crate::wire::line;
use crate::wire::ErrorModel;
use crate::wire::Parsed;
use crate::wire::CR;
use crate::wire::LF;
use vstd::prelude::*;
use vstd::slice::slice_subrange;

verus! {

/// Bytes and a position in them. The position may lie past the end; nothing
/// remains to be read then.
pub struct Cursor<'a> {
    data: &'a [u8],
    pos: usize,
}

/// The mathematical value of a cursor.
pub struct CursorView {
    /// All the bytes, read or not.
    pub bytes: Seq<u8>,
    /// How many of them lie before the position.
    pub pos: nat,
}

impl CursorView {
    /// How many bytes lie at or after the position.
    pub open spec fn remaining(self) -> nat {
        if self.pos <= self.bytes.len() {
            (self.bytes.len() - self.pos) as nat
        } else {
            0
        }
    }
}

impl<'a> View for Cursor<'a> {
    type V = CursorView;

    closed spec fn view(&self) -> CursorView {
        CursorView { bytes: self.data@, pos: self.pos as nat }
    }
}

impl<'a> Cursor<'a> {
    /// A cursor at the start of `data`.
    pub fn new(data: &'a [u8]) -> (c: Cursor<'a>)
        ensures
            c@.bytes == data@,
            c@.pos == 0,
    {
        Cursor { data, pos: 0 }
    }

    /// The position.
    pub fn position(&self) -> (p: usize)
        ensures
            p == self@.pos,
    {
        self.pos
    }

    /// Moves to `pos`.
    pub fn set_position(&mut self, pos: usize)
        ensures
            final(self)@.bytes == old(self)@.bytes,
            final(self)@.pos == pos,
    {
        self.pos = pos;
    }

    /// All the bytes.
    pub fn get_ref(&self) -> (data: &'a [u8])
        ensures
            data@ == self@.bytes,
    {
        self.data
    }

    /// How many bytes lie at or after the position.
    pub fn remaining(&self) -> (n: usize)
        ensures
            n == self@.remaining(),
    {
        if self.pos <= self.data.len() {
            self.data.len() - self.pos
        } else {
            0
        }
    }

    /// Tells whether a byte lies at the position.
    pub fn has_remaining(&self) -> (b: bool)
        ensures
            b == (self@.remaining() > 0),
    {
        self.pos < self.data.len()
    }
}

/// Reads the byte at the position and moves past it; `Incomplete` when
/// nothing remains.
pub fn get_u8(src: &mut Cursor<'_>) -> (r: Result<u8, Error>)
    ensures
        final(src)@.bytes == old(src)@.bytes,
        old(src)@.remaining() > 0 ==> r == Ok::<u8, Error>(old(src)@.bytes[old(src)@.pos as int])
            && final(src)@.pos == old(src)@.pos + 1,
        old(src)@.remaining() <= 0 ==> r == Err::<u8, Error>(Error::Incomplete) && final(src)@.pos
            == old(src)@.pos,
{
    if !src.has_remaining() {
        return Err(Error::Incomplete);
    }
    let b: u8 = src.data[src.pos];
    src.pos = src.pos + 1;
    Ok(b)
}

/// Reads the byte at the position without moving; `Incomplete` when nothing
/// remains.
pub fn peek_u8(src: &mut Cursor<'_>) -> (r: Result<u8, Error>)
    ensures
        *final(src) == *old(src),
        old(src)@.remaining() > 0 ==> r == Ok::<u8, Error>(old(src)@.bytes[old(src)@.pos as int]),
        old(src)@.remaining() <= 0 ==> r == Err::<u8, Error>(Error::Incomplete),
{
    if !src.has_remaining() {
        return Err(Error::Incomplete);
    }
    Ok(src.data[src.pos])
}

/// Moves the position forward by `n`; `Incomplete`, without moving, when
/// fewer than `n` bytes remain.
pub fn skip(src: &mut Cursor<'_>, n: usize) -> (r: Result<(), Error>)
    ensures
        final(src)@.bytes == old(src)@.bytes,
        n <= old(src)@.remaining() ==> r == Ok::<(), Error>(()) && final(src)@.pos == old(src)@.pos
            + n,
        n > old(src)@.remaining() ==> r == Err::<(), Error>(Error::Incomplete) && final(src)@.pos
            == old(src)@.pos,
{
    if src.remaining() < n {
        return Err(Error::Incomplete);
    }
    if n > 0 {
        let len: usize = src.data.len();
        assert(src.pos + n <= len);
        src.pos = src.pos + n;
    }
    Ok(())
}

/// Reads the line that starts at the position, up to the first CR LF, and
/// moves past that CR LF; `Incomplete`, without moving, when no CR LF
/// follows.
pub fn get_line<'a>(src: &mut Cursor<'a>) -> (r: Result<&'a [u8], Error>)
    ensures
        final(src)@.bytes == old(src)@.bytes,
        match line(old(src)@.bytes, old(src)@.pos as int) {
            Parsed::Done { value, end } => r is Ok && r->Ok_0@ == value && final(src)@.pos == end,
            _ => r is Err && r->Err_0@ == ErrorModel::Incomplete && final(src)@.pos == old(
                src,
            )@.pos,
        },
{
    let start: usize = src.pos;
    let data: &'a [u8] = src.data;
    let len: usize = data.len();
    let mut i: usize = start;
    while i < len && len - i >= 2
        invariant
            *src == *old(src),
            data == src.data,
            start == src.pos,
            start <= i,
            len == data@.len(),
            forall|j: int| start <= j < i ==> !crlf_at(data@, j),
        decreases len - i,
    {
        if data[i] == CR && data[i + 1] == LF {
            proof {
                assert(first_crlf(data@, start as int, i as int));
            }
            src.pos = i + 2;
            return Ok(slice_subrange(data, start, i));
        }
        i += 1;
    }
    proof {
        assert forall|k: int| !first_crlf(data@, start as int, k) by {
            if first_crlf(data@, start as int, k) {
                assert(crlf_at(data@, k));
                assert(k < i);
            }
        }
    }
    Err(Error::Incomplete)
}

/// Reads the decimal field that starts at the position and moves past its
/// CR LF. `Incomplete`, without moving, when no CR LF follows; an error
/// with the text of `invalid_format_message`, after the line, when the line
/// is no decimal field or its number does not fit an `i64`.
pub fn get_decimal(src: &mut Cursor<'_>) -> (r: Result<i64, Error>)
    ensures
        final(src)@.bytes == old(src)@.bytes,
        match decimal_field(old(src)@.bytes, old(src)@.pos as int) {
            Parsed::Done { value, end } => r == Ok::<i64, Error>(value as i64) && final(src)@.pos
                == end,
            Parsed::Incomplete => r == Err::<i64, Error>(Error::Incomplete) && final(src)@.pos
                == old(src)@.pos,
            other => r is Err && r->Err_0@ == other.failure() && line(
                old(src)@.bytes,
                old(src)@.pos as int,
            ) is Done && final(src)@.pos == line(old(src)@.bytes, old(src)@.pos as int)->end,
        },
{
    let text = get_line(src)?;
    match parse_decimal(text) {
        Some(n) => Ok(n),
        None => Err(Error::Other(invalid_format_text())),
    }
}

} // verus!
