//! Frames of the wire protocol, and reading them from bytes.

use crate::buffer::bytes_contents;
use crate::buffer::bytes_from_slice;
use crate::buffer::bytes_as_slice;
use crate::cursor::get_decimal;
use crate::cursor::get_line;
use crate::cursor::get_u8;
use crate::cursor::peek_u8;
use crate::cursor::skip;
use crate::cursor::Cursor;
use crate::decimal::decimal_repr;
use crate::decimal::write_decimal;
use crate::decimal::write_digits;
use crate::text::invalid_format_text;
use crate::text::invalid_type_text;
use crate::text::nested_array_message;
use crate::text::nested_array_text;
use crate::text::string_from_utf8;
use crate::wire::as_array;
use crate::wire::crlf;
use crate::wire::decode;
use crate::wire::decode_items;
use crate::wire::encode;
use crate::wire::encode_all;
use crate::wire::is_nested;
use crate::wire::lemma_encode_all_push;
use crate::wire::lemma_decimal_field_bounds;
use crate::wire::lemma_line_bounds;
use crate::wire::line;
use crate::wire::null_marker;
use crate::wire::scan;
use crate::wire::scan_items;
use crate::wire::ErrorModel;
use crate::wire::FrameModel;
use crate::wire::Parsed;
use crate::wire::CR;
use crate::wire::LF;
use crate::wire::TAG_ARRAY;
use crate::wire::TAG_BULK;
use crate::wire::TAG_ERROR;
use crate::wire::TAG_INTEGER;
use crate::wire::TAG_SIMPLE;
use bytes::Bytes;
use vstd::prelude::*;
use vstd::slice::slice_subrange;
use vstd::std_specs::convert::FromSpecImpl;
use vstd::slice::slice_to_vec;

verus! {

/// Why no frame could be read.
#[derive(Debug)]
pub enum Error {
    /// Not enough data is available to read a frame.
    Incomplete,
    /// The bytes are no frame; the text says why.
    Other(String),
}

impl View for Error {
    type V = ErrorModel;

    open spec fn view(&self) -> ErrorModel {
        match self {
            Error::Incomplete => ErrorModel::Incomplete,
            Error::Other(text) => ErrorModel::Other(text@),
        }
    }
}

impl From<String> for Error {
    /// An error with the given text.
    fn from(src: String) -> (e: Error) {
        Error::Other(src)
    }
}

impl FromSpecImpl<String> for Error {
    open spec fn obeys_from_spec() -> bool {
        true
    }

    open spec fn from_spec(src: String) -> Error {
        Error::Other(src)
    }
}

/// One protocol message.
#[derive(Debug)]
pub enum Frame {
    Simple(String),
    Error(String),
    Integer(i64),
    Bulk(Bytes),
    Null,
    Array(Vec<Frame>),
}

/// The values of some frames, in order.
pub open spec fn models(frames: Seq<Frame>) -> Seq<FrameModel> {
    Seq::new(frames.len(), |i: int| frames[i].view())
}

impl View for Frame {
    type V = FrameModel;

    open spec fn view(&self) -> FrameModel
        decreases self,
    {
        match self {
            Frame::Simple(s) => FrameModel::Simple(s@),
            Frame::Error(s) => FrameModel::Error(s@),
            Frame::Integer(n) => FrameModel::Integer(*n as int),
            Frame::Bulk(b) => FrameModel::Bulk(bytes_contents(*b)),
            Frame::Null => FrameModel::Null,
            Frame::Array(v) => FrameModel::Array(
                Seq::new(
                    v.len() as nat,
                    |i: int|
                        if 0 <= i < v.len() {
                            v[i].view()
                        } else {
                            FrameModel::Null
                        },
                ),
            ),
        }
    }
}

/// The value of an array is the array of its items' values.
pub proof fn lemma_array_view(items: Vec<Frame>)
    ensures
        Frame::Array(items)@ == FrameModel::Array(models(items@)),
{
    assert(Frame::Array(items)@->Array_0 =~= models(items@));
}

impl Clone for Frame {
    fn clone(&self) -> (r: Frame)
        ensures
            r@ == self@,
        decreases self,
    {
        match self {
            Frame::Simple(s) => Frame::Simple(s.clone()),
            Frame::Error(s) => Frame::Error(s.clone()),
            Frame::Integer(n) => Frame::Integer(*n),
            Frame::Bulk(b) => Frame::Bulk(b.clone()),
            Frame::Null => Frame::Null,
            Frame::Array(v) => {
                let mut out: Vec<Frame> = Vec::new();
                let mut i: usize = 0;
                while i < v.len()
                    invariant
                        decreases_to!(self => v),
                        i <= v.len(),
                        out.len() == i,
                        forall|j: int| 0 <= j < i ==> out@[j]@ == v@[j]@,
                    decreases v.len() - i,
                {
                    let item = v[i].clone();
                    out.push(item);
                    i += 1;
                }
                assert(Frame::Array(out)@->Array_0 =~= self@->Array_0);
                Frame::Array(out)
            },
        }
    }
}

/// A count or length as it stands in memory, if it is one.
pub fn to_length(n: i64) -> (r: Option<usize>)
    ensures
        r == (if 0 <= n <= usize::MAX {
            Some(n as usize)
        } else {
            None
        }),
{
    if n < 0 {
        None
    } else if n as u64 > usize::MAX as u64 {
        None
    } else {
        Some(n as usize)
    }
}

/// Tells whether `text` is the line `-1`.
fn is_null_marker(text: &[u8]) -> (b: bool)
    ensures
        b == (text@ == null_marker()),
{
    let b = text.len() == 2 && text[0] == 45 && text[1] == 49;
    proof {
        if b {
            assert(text@ =~= null_marker());
        } else if text@ == null_marker() {
            assert(null_marker().len() == 2);
        }
    }
    b
}

/// Appends `data`.
fn append_bytes(out: &mut Vec<u8>, data: &[u8])
    ensures
        final(out)@ == old(out)@ + data@,
{
    out.extend_from_slice(data);
    assert(final(out)@ =~= old(out)@ + data@);
}

/// Appends CR LF.
fn append_crlf(out: &mut Vec<u8>)
    ensures
        final(out)@ == old(out)@ + crlf(),
{
    out.push(CR);
    out.push(LF);
    assert(final(out)@ =~= old(out)@ + crlf());
}

/// A reading of frames, with `prefix` put before its value.
pub open spec fn prepend(prefix: Seq<FrameModel>, p: Parsed<Seq<FrameModel>>) -> Parsed<
    Seq<FrameModel>,
> {
    match p {
        Parsed::Done { value, end } => Parsed::Done { value: prefix + value, end },
        other => other,
    }
}

impl Frame {
    /// Returns an empty array.
    pub fn array() -> (f: Frame)
        ensures
            f@ == FrameModel::Array(Seq::empty()),
    {
        let f = Frame::Array(Vec::new());
        assert(f@->Array_0 =~= Seq::empty());
        f
    }

    /// Appends a bulk string to the array. The frame must be an array.
    pub fn push_bulk(&mut self, bytes: Bytes)
        requires
            *old(self) is Array,
        ensures
            final(self)@ == FrameModel::Array(
                old(self)@->Array_0.push(FrameModel::Bulk(bytes_contents(bytes))),
            ),
    {
        match self {
            Frame::Array(items) => {
                let ghost before = *items;
                proof {
                    lemma_array_view(before);
                }
                items.push(Frame::Bulk(bytes));
                proof {
                    lemma_array_view(*items);
                    assert(models(items@) =~= models(before@).push(
                        FrameModel::Bulk(bytes_contents(bytes)),
                    ));
                }
            },
            _ => {},
        }
    }

    /// Appends an integer to the array. The frame must be an array.
    pub fn push_int(&mut self, value: i64)
        requires
            *old(self) is Array,
        ensures
            final(self)@ == FrameModel::Array(
                old(self)@->Array_0.push(FrameModel::Integer(value as int)),
            ),
    {
        match self {
            Frame::Array(items) => {
                let ghost before = *items;
                proof {
                    lemma_array_view(before);
                }
                items.push(Frame::Integer(value));
                proof {
                    lemma_array_view(*items);
                    assert(models(items@) =~= models(before@).push(
                        FrameModel::Integer(value as int),
                    ));
                }
            },
            _ => {},
        }
    }

    /// Appends the bytes of a frame that is no array.
    fn write_value(&self, out: &mut Vec<u8>)
        requires
            !(self is Array),
        ensures
            final(out)@ == old(out)@ + encode(self@),
    {
        match self {
            Frame::Simple(text) => {
                out.push(TAG_SIMPLE);
                append_bytes(out, text.as_str().as_bytes());
                append_crlf(out);
            },
            Frame::Error(text) => {
                out.push(TAG_ERROR);
                append_bytes(out, text.as_str().as_bytes());
                append_crlf(out);
            },
            Frame::Integer(n) => {
                out.push(TAG_INTEGER);
                write_decimal(out, *n);
                append_crlf(out);
            },
            Frame::Bulk(data) => {
                let payload = bytes_as_slice(data);
                out.push(TAG_BULK);
                write_digits(out, payload.len() as u64);
                append_crlf(out);
                append_bytes(out, payload);
                append_crlf(out);
            },
            Frame::Null => {
                out.push(TAG_BULK);
                out.push(45);
                out.push(49);
                append_crlf(out);
            },
            Frame::Array(_) => {},
        }
        assert(final(out)@ =~= old(out)@ + encode(self@));
    }

    /// The bytes of the frame on the wire.
    ///
    /// An array that holds an array has no encoding: the call then fails
    /// with the text of `nested_array_message`.
    pub fn encode(&self) -> (r: Result<Vec<u8>, Error>)
        ensures
            is_nested(self@) ==> r is Err && r->Err_0@ == ErrorModel::Other(
                nested_array_message(),
            ),
            !is_nested(self@) ==> r is Ok && r->Ok_0@ == encode(self@),
    {
        let mut out: Vec<u8> = Vec::new();
        match self {
            Frame::Array(items) => {
                let count: usize = items.len();
                let mut i: usize = 0;
                proof {
                    lemma_array_view(*items);
                }
                while i < count
                    invariant
                        self@ == FrameModel::Array(models(items@)),
                        i <= count,
                        count == items.len(),
                        forall|j: int| 0 <= j < i ==> !(#[trigger] items@[j] is Array),
                    decreases count - i,
                {
                    if let Frame::Array(_) = &items[i] {
                        proof {
                            assert(models(items@)[i as int] is Array);
                        }
                        return Err(Error::Other(nested_array_text()));
                    }
                    i += 1;
                }
                proof {
                    assert forall|j: int| 0 <= j < models(items@).len() implies !(
                    #[trigger] models(items@)[j] is Array) by {
                        assert(!(items@[j] is Array));
                    }
                }
                out.push(TAG_ARRAY);
                write_digits(&mut out, count as u64);
                append_crlf(&mut out);
                let ghost head = out@;
                assert(head =~= seq![TAG_ARRAY] + decimal_repr(count as int) + crlf());
                let mut k: usize = 0;
                proof {
                    assert(models(items@).take(0) =~= Seq::<FrameModel>::empty());
                    assert(out@ =~= head + encode_all(models(items@).take(0)));
                }
                while k < count
                    invariant
                        k <= count,
                        count == items.len(),
                        forall|j: int| 0 <= j < count ==> !(#[trigger] items@[j] is Array),
                        out@ == head + encode_all(models(items@).take(k as int)),
                    decreases count - k,
                {
                    items[k].write_value(&mut out);
                    proof {
                        let all = models(items@);
                        lemma_encode_all_push(all.take(k as int), all[k as int]);
                        assert(all.take(k as int).push(all[k as int]) =~= all.take(k + 1));
                        assert(out@ =~= head + encode_all(all.take(k + 1)));
                    }
                    k += 1;
                }
                proof {
                    assert(models(items@).take(count as int) =~= models(items@));
                }
                Ok(out)
            },
            _ => {
                self.write_value(&mut out);
                assert(out@ =~= encode(self@));
                Ok(out)
            },
        }
    }

    /// Checks whether a whole frame can be read from `src` at its position.
    ///
    /// On success the position is the end of the frame. `Incomplete` means
    /// that the bytes stop before the frame does; any other error, that
    /// they are no frame. After an error the position is where it was.
    pub fn check(src: &mut Cursor<'_>) -> (r: Result<(), Error>)
        ensures
            final(src)@.bytes == old(src)@.bytes,
            match scan(old(src)@.bytes, old(src)@.pos as int) {
                Parsed::Done { end, .. } => r is Ok && final(src)@.pos == end && old(src)@.pos
                    < end <= old(src)@.bytes.len(),
                other => r is Err && r->Err_0@ == other.failure() && final(src)@.pos == old(
                    src,
                )@.pos,
            },
    {
        let start: usize = src.position();
        let r = Frame::check_from(src);
        if r.is_err() {
            src.set_position(start);
        }
        r
    }

    /// [`Frame::check`], without a word on the position after an error.
    fn check_from(src: &mut Cursor<'_>) -> (r: Result<(), Error>)
        ensures
            final(src)@.bytes == old(src)@.bytes,
            match scan(old(src)@.bytes, old(src)@.pos as int) {
                Parsed::Done { end, .. } => r is Ok && final(src)@.pos == end && old(src)@.pos
                    < end <= old(src)@.bytes.len(),
                other => r is Err && r->Err_0@ == other.failure(),
            },
        decreases old(src)@.remaining(),
    {
        let ghost s = old(src)@.bytes;
        let ghost start = old(src)@.pos as int;
        let tag: u8 = get_u8(src)?;
        proof {
            assert(0 <= start < s.len() && tag == s[start]);
            lemma_line_bounds(s, start + 1);
            lemma_decimal_field_bounds(s, start + 1);
        }
        if tag == TAG_SIMPLE || tag == TAG_ERROR {
            get_line(src)?;
            Ok(())
        } else if tag == TAG_INTEGER {
            get_decimal(src)?;
            Ok(())
        } else if tag == TAG_BULK {
            let next: u8 = peek_u8(src)?;
            if next == 45 {
                let text = get_line(src)?;
                if !is_null_marker(text) {
                    return Err(Error::Other(invalid_format_text()));
                }
                Ok(())
            } else {
                let n: i64 = get_decimal(src)?;
                let len: usize = match to_length(n) {
                    Some(len) => len,
                    None => {
                        return Err(Error::Other(invalid_format_text()));
                    },
                };
                let left: usize = src.remaining();
                if left < 2 || left - 2 < len {
                    return Err(Error::Incomplete);
                }
                skip(src, len + 2)
            }
        } else if tag == TAG_ARRAY {
            let n: i64 = get_decimal(src)?;
            let count: usize = match to_length(n) {
                Some(count) => count,
                None => {
                    return Err(Error::Other(invalid_format_text()));
                },
            };
            let ghost first = src@.pos as int;
            let mut i: usize = 0;
            while i < count
                invariant
                    src@.bytes == s,
                    start < src@.pos <= s.len(),
                    start == old(src)@.pos,
                    s == old(src)@.bytes,
                    i <= count,
                    scan(s, start) == scan_items(s, first, count as int),
                    scan_items(s, first, count as int) == scan_items(s, src@.pos as int, count - i),
                decreases count - i,
            {
                match Frame::check_from(src) {
                    Ok(()) => {},
                    Err(e) => {
                        return Err(e);
                    },
                }
                i += 1;
            }
            Ok(())
        } else {
            Err(Error::Other(invalid_type_text(tag)))
        }
    }

    /// Reads the frame that starts at the position of `src`.
    ///
    /// On success the position is the end of the frame. It fails as
    /// [`Frame::check`] does, and also when the text of a simple or error
    /// string is not valid UTF-8. After an error the position is where it
    /// was.
    pub fn parse(src: &mut Cursor<'_>) -> (r: Result<Frame, Error>)
        ensures
            final(src)@.bytes == old(src)@.bytes,
            match decode(old(src)@.bytes, old(src)@.pos as int) {
                Parsed::Done { value, end } => r is Ok && r->Ok_0@ == value && final(src)@.pos
                    == end && old(src)@.pos < end <= old(src)@.bytes.len(),
                other => r is Err && r->Err_0@ == other.failure() && final(src)@.pos == old(
                    src,
                )@.pos,
            },
    {
        let start: usize = src.position();
        let r = Frame::parse_from(src);
        if r.is_err() {
            src.set_position(start);
        }
        r
    }

    /// [`Frame::parse`], without a word on the position after an error.
    fn parse_from(src: &mut Cursor<'_>) -> (r: Result<Frame, Error>)
        ensures
            final(src)@.bytes == old(src)@.bytes,
            match decode(old(src)@.bytes, old(src)@.pos as int) {
                Parsed::Done { value, end } => r is Ok && r->Ok_0@ == value && final(src)@.pos
                    == end && old(src)@.pos < end <= old(src)@.bytes.len(),
                other => r is Err && r->Err_0@ == other.failure(),
            },
        decreases old(src)@.remaining(),
    {
        let ghost s = old(src)@.bytes;
        let ghost start = old(src)@.pos as int;
        let tag: u8 = get_u8(src)?;
        proof {
            assert(0 <= start < s.len() && tag == s[start]);
            lemma_line_bounds(s, start + 1);
            lemma_decimal_field_bounds(s, start + 1);
        }
        if tag == TAG_SIMPLE || tag == TAG_ERROR {
            let text = get_line(src)?;
            match string_from_utf8(slice_to_vec(text)) {
                Ok(string) => {
                    if tag == TAG_SIMPLE {
                        Ok(Frame::Simple(string))
                    } else {
                        Ok(Frame::Error(string))
                    }
                },
                Err(_) => Err(Error::Other(invalid_format_text())),
            }
        } else if tag == TAG_INTEGER {
            let n: i64 = get_decimal(src)?;
            Ok(Frame::Integer(n))
        } else if tag == TAG_BULK {
            let next: u8 = peek_u8(src)?;
            if next == 45 {
                let text = get_line(src)?;
                if !is_null_marker(text) {
                    return Err(Error::Other(invalid_format_text()));
                }
                Ok(Frame::Null)
            } else {
                let n: i64 = get_decimal(src)?;
                let len: usize = match to_length(n) {
                    Some(len) => len,
                    None => {
                        return Err(Error::Other(invalid_format_text()));
                    },
                };
                let left: usize = src.remaining();
                if left < 2 || left - 2 < len {
                    return Err(Error::Incomplete);
                }
                let from: usize = src.position();
                let all: &[u8] = src.get_ref();
                assert(from + len + 2 <= all.len());
                let data = bytes_from_slice(slice_subrange(all, from, from + len));
                skip(src, len + 2)?;
                Ok(Frame::Bulk(data))
            }
        } else if tag == TAG_ARRAY {
            let n: i64 = get_decimal(src)?;
            let count: usize = match to_length(n) {
                Some(count) => count,
                None => {
                    return Err(Error::Other(invalid_format_text()));
                },
            };
            let ghost first = src@.pos as int;
            let mut out: Vec<Frame> = Vec::new();
            let mut i: usize = 0;
            proof {
                assert(prepend(models(out@), decode_items(s, first, count as int)) =~~= decode_items(
                    s,
                    first,
                    count as int,
                ));
            }
            while i < count
                invariant
                    src@.bytes == s,
                    start < src@.pos <= s.len(),
                    start == old(src)@.pos,
                    s == old(src)@.bytes,
                    i <= count,
                    decode(s, start) == as_array(decode_items(s, first, count as int)),
                    decode_items(s, first, count as int) == prepend(
                        models(out@),
                        decode_items(s, src@.pos as int, count - i),
                    ),
                decreases count - i,
            {
                                let ghost done = models(out@);
                match Frame::parse_from(src) {
                    Ok(frame) => {
                        out.push(frame);
                    },
                    Err(e) => {
                        return Err(e);
                    },
                }
                i += 1;
                proof {
                    let rest = decode_items(s, src@.pos as int, count - i);
                    assert(models(out@) =~= done.push(out@.last()@));
                    if rest is Done {
                        let value = rest->value;
                        assert(done + (seq![out@.last()@] + value) =~= models(out@) + value);
                    }
                }
            }
            proof {
                lemma_array_view(out);
                assert(models(out@) + Seq::<FrameModel>::empty() =~= models(out@));
            }
            Ok(Frame::Array(out))
        } else {
            Err(Error::Other(invalid_type_text(tag)))
        }
    }
}

} // verus!
