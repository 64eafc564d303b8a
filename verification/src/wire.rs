//! The wire format, stated over byte sequences.
//!
//! A frame starts with a type byte. Text and decimal fields end with CR LF.
//! A bulk frame gives its length and then that many bytes and two more; the
//! length `-1` stands for the null value. An array gives its count and then
//! that many frames.
//!
//! [`scan`] says whether a whole frame is present at a position and where it
//! ends, [`decode`] says which frame it is, and [`encode`] gives the bytes of
//! a frame.

use crate::decimal::decimal_i64;
use crate::decimal::decimal_repr;
use crate::text::invalid_format_message;
use crate::text::invalid_type_message;
use vstd::prelude::*;
use vstd::utf8::decode_utf8;
use vstd::utf8::encode_utf8;
use vstd::utf8::valid_utf8;

verus! {

/// Carriage return.
pub const CR: u8 = 13;

/// Line feed.
pub const LF: u8 = 10;

/// Type byte of a simple string.
pub const TAG_SIMPLE: u8 = 43;

/// Type byte of an error string.
pub const TAG_ERROR: u8 = 45;

/// Type byte of an integer.
pub const TAG_INTEGER: u8 = 58;

/// Type byte of a bulk string, and of the null value.
pub const TAG_BULK: u8 = 36;

/// Type byte of an array.
pub const TAG_ARRAY: u8 = 42;

/// The mathematical value of a frame.
#[verifier::ext_equal]
pub enum FrameModel {
    Simple(Seq<char>),
    Error(Seq<char>),
    Integer(int),
    Bulk(Seq<u8>),
    Null,
    Array(Seq<FrameModel>),
}

/// The mathematical value of a decoding error.
#[verifier::ext_equal]
pub enum ErrorModel {
    /// More bytes are needed.
    Incomplete,
    /// The bytes are no frame; the text says why.
    Other(Seq<char>),
}

/// What reading at a position gives: a value and the position after it, or
/// the reason why there is none.
#[verifier::ext_equal]
pub enum Parsed<T> {
    /// A value was read; `end` is the position after it.
    Done { value: T, end: int },
    /// The bytes stop before the value does.
    Incomplete,
    /// The frame starts with a byte that is no type byte.
    InvalidType(u8),
    /// A field of the frame is not well formed.
    InvalidFormat,
}

impl<T> Parsed<T> {
    /// The error that stands for a reading without a value.
    pub open spec fn failure(self) -> ErrorModel {
        match self {
            Parsed::InvalidType(b) => ErrorModel::Other(invalid_type_message(b)),
            Parsed::InvalidFormat => ErrorModel::Other(invalid_format_message()),
            _ => ErrorModel::Incomplete,
        }
    }

    /// The same outcome for another kind of value; meant for readings
    /// without a value.
    pub open spec fn cast<U>(self) -> Parsed<U> {
        match self {
            Parsed::InvalidType(b) => Parsed::InvalidType(b),
            Parsed::InvalidFormat => Parsed::InvalidFormat,
            _ => Parsed::Incomplete,
        }
    }
}

/// True when CR LF stands at position `i` of `s`.
pub open spec fn crlf_at(s: Seq<u8>, i: int) -> bool {
    0 <= i && i + 1 < s.len() && s[i] == CR && s[i + 1] == LF
}

/// True when `s` holds no CR LF.
pub open spec fn no_crlf(s: Seq<u8>) -> bool {
    forall|i: int| !crlf_at(s, i)
}

/// True when the first CR LF of `s` at or after `from` stands at `i`.
pub open spec fn first_crlf(s: Seq<u8>, from: int, i: int) -> bool {
    from <= i && crlf_at(s, i) && forall|j: int| from <= j < i ==> !crlf_at(s, j)
}

/// True when a line starts at `from`: a CR LF follows somewhere.
pub open spec fn has_line(s: Seq<u8>, from: int) -> bool {
    exists|i: int| first_crlf(s, from, i)
}

/// Where the line that starts at `from` ends: the position of its CR.
pub open spec fn line_end(s: Seq<u8>, from: int) -> int {
    choose|i: int| first_crlf(s, from, i)
}

/// The line that starts at `from`, without its CR LF; the position after it
/// is that after the LF.
pub open spec fn line(s: Seq<u8>, from: int) -> Parsed<Seq<u8>> {
    if 0 <= from && has_line(s, from) {
        Parsed::Done { value: s.subrange(from, line_end(s, from)), end: line_end(s, from) + 2 }
    } else {
        Parsed::Incomplete
    }
}

/// The decimal field that starts at `from`.
pub open spec fn decimal_field(s: Seq<u8>, from: int) -> Parsed<int> {
    match line(s, from) {
        Parsed::Done { value, end } => match decimal_i64(value) {
            Some(n) => Parsed::Done { value: n as int, end },
            None => Parsed::InvalidFormat,
        },
        other => other.cast(),
    }
}

/// The line `-1`, which after the bulk type byte stands for the null value.
pub open spec fn null_marker() -> Seq<u8> {
    seq![45u8, 49u8]
}

/// Whether a whole frame starts at `pos`, and where it ends. The text of a
/// simple or error string is not looked at, and neither are the two bytes
/// after a bulk string's bytes. (A count that was read ends after the type
/// byte and within the bytes, so the last case of an array does not arise.)
pub open spec fn scan(s: Seq<u8>, pos: int) -> Parsed<()>
    decreases s.len() - pos, 0int,
{
    if pos < 0 || pos >= s.len() {
        Parsed::Incomplete
    } else if s[pos] == TAG_SIMPLE || s[pos] == TAG_ERROR {
        match line(s, pos + 1) {
            Parsed::Done { end, .. } => Parsed::Done { value: (), end },
            other => other.cast(),
        }
    } else if s[pos] == TAG_INTEGER {
        match decimal_field(s, pos + 1) {
            Parsed::Done { end, .. } => Parsed::Done { value: (), end },
            other => other.cast(),
        }
    } else if s[pos] == TAG_BULK {
        if pos + 1 >= s.len() {
            Parsed::Incomplete
        } else if s[pos + 1] == 45u8 {
            match line(s, pos + 1) {
                Parsed::Done { value, end } => if value == null_marker() {
                    Parsed::Done { value: (), end }
                } else {
                    Parsed::InvalidFormat
                },
                other => other.cast(),
            }
        } else {
            match decimal_field(s, pos + 1) {
                Parsed::Done { value: n, end } => if n < 0 || n > usize::MAX {
                    Parsed::InvalidFormat
                } else if s.len() - end < n + 2 {
                    Parsed::Incomplete
                } else {
                    Parsed::Done { value: (), end: end + n + 2 }
                },
                other => other.cast(),
            }
        }
    } else if s[pos] == TAG_ARRAY {
        match decimal_field(s, pos + 1) {
            Parsed::Done { value: n, end } => if n < 0 || n > usize::MAX {
                Parsed::InvalidFormat
            } else if pos < end <= s.len() {
                scan_items(s, end, n)
            } else {
                Parsed::Incomplete
            },
            other => other.cast(),
        }
    } else {
        Parsed::InvalidType(s[pos])
    }
}

/// Whether `count` whole frames follow one another from `pos`, and where the
/// last one ends. (A frame ends after its start and within the bytes, so the
/// last case below does not arise.)
pub open spec fn scan_items(s: Seq<u8>, pos: int, count: int) -> Parsed<()>
    decreases s.len() - pos, 1int, count,
{
    if count <= 0 {
        Parsed::Done { value: (), end: pos }
    } else {
        match scan(s, pos) {
            Parsed::Done { end, .. } => if pos < end <= s.len() {
                scan_items(s, end, count - 1)
            } else {
                Parsed::Incomplete
            },
            other => other,
        }
    }
}

/// A reading of an array's items, as a reading of the array.
pub open spec fn as_array(p: Parsed<Seq<FrameModel>>) -> Parsed<FrameModel> {
    match p {
        Parsed::Done { value, end } => Parsed::Done { value: FrameModel::Array(value), end },
        other => other.cast(),
    }
}

/// The frame that starts at `pos`, and where it ends. Differs from [`scan`]
/// in that the text of a simple or error string must be valid UTF-8.
pub open spec fn decode(s: Seq<u8>, pos: int) -> Parsed<FrameModel>
    decreases s.len() - pos, 0int,
{
    if pos < 0 || pos >= s.len() {
        Parsed::Incomplete
    } else if s[pos] == TAG_SIMPLE || s[pos] == TAG_ERROR {
        match line(s, pos + 1) {
            Parsed::Done { value, end } => if !valid_utf8(value) {
                Parsed::InvalidFormat
            } else if s[pos] == TAG_SIMPLE {
                Parsed::Done { value: FrameModel::Simple(decode_utf8(value)), end }
            } else {
                Parsed::Done { value: FrameModel::Error(decode_utf8(value)), end }
            },
            other => other.cast(),
        }
    } else if s[pos] == TAG_INTEGER {
        match decimal_field(s, pos + 1) {
            Parsed::Done { value: n, end } => Parsed::Done { value: FrameModel::Integer(n), end },
            other => other.cast(),
        }
    } else if s[pos] == TAG_BULK {
        if pos + 1 >= s.len() {
            Parsed::Incomplete
        } else if s[pos + 1] == 45u8 {
            match line(s, pos + 1) {
                Parsed::Done { value, end } => if value == null_marker() {
                    Parsed::Done { value: FrameModel::Null, end }
                } else {
                    Parsed::InvalidFormat
                },
                other => other.cast(),
            }
        } else {
            match decimal_field(s, pos + 1) {
                Parsed::Done { value: n, end } => if n < 0 || n > usize::MAX {
                    Parsed::InvalidFormat
                } else if s.len() - end < n + 2 {
                    Parsed::Incomplete
                } else {
                    Parsed::Done {
                        value: FrameModel::Bulk(s.subrange(end, end + n)),
                        end: end + n + 2,
                    }
                },
                other => other.cast(),
            }
        }
    } else if s[pos] == TAG_ARRAY {
        match decimal_field(s, pos + 1) {
            Parsed::Done { value: n, end } => if n < 0 || n > usize::MAX {
                Parsed::InvalidFormat
            } else if pos < end <= s.len() {
                as_array(decode_items(s, end, n))
            } else {
                Parsed::Incomplete
            },
            other => other.cast(),
        }
    } else {
        Parsed::InvalidType(s[pos])
    }
}

/// The `count` frames that follow one another from `pos`, in order, and
/// where the last one ends. (As in [`scan_items`], the last case of the inner
/// test does not arise.)
pub open spec fn decode_items(s: Seq<u8>, pos: int, count: int) -> Parsed<Seq<FrameModel>>
    decreases s.len() - pos, 1int, count,
{
    if count <= 0 {
        Parsed::Done { value: Seq::empty(), end: pos }
    } else {
        match decode(s, pos) {
            Parsed::Done { value: first, end } => if pos < end <= s.len() {
                match decode_items(s, end, count - 1) {
                    Parsed::Done { value: rest, end } => Parsed::Done {
                        value: seq![first] + rest,
                        end,
                    },
                    other => other,
                }
            } else {
                Parsed::Incomplete
            },
            other => other.cast(),
        }
    }
}

/// CR LF.
pub open spec fn crlf() -> Seq<u8> {
    seq![CR, LF]
}

/// The bytes of a frame on the wire.
pub open spec fn encode(m: FrameModel) -> Seq<u8>
    decreases m,
{
    match m {
        FrameModel::Simple(t) => seq![TAG_SIMPLE] + encode_utf8(t) + crlf(),
        FrameModel::Error(t) => seq![TAG_ERROR] + encode_utf8(t) + crlf(),
        FrameModel::Integer(n) => seq![TAG_INTEGER] + decimal_repr(n) + crlf(),
        FrameModel::Bulk(b) => seq![TAG_BULK] + decimal_repr(b.len() as int) + crlf() + b
            + crlf(),
        FrameModel::Null => seq![TAG_BULK] + null_marker() + crlf(),
        FrameModel::Array(items) => seq![TAG_ARRAY] + decimal_repr(items.len() as int) + crlf()
            + encode_all(items),
    }
}

/// The bytes of several frames, one after the other.
pub open spec fn encode_all(items: Seq<FrameModel>) -> Seq<u8>
    decreases items,
{
    if items.len() == 0 {
        Seq::empty()
    } else {
        encode(items[0]) + encode_all(items.drop_first())
    }
}

/// True for an array that holds an array.
pub open spec fn is_nested(m: FrameModel) -> bool {
    m matches FrameModel::Array(items) && exists|i: int|
        0 <= i < items.len() && #[trigger] items[i] is Array
}

/// True for the frames that the wire format can carry without loss: the text
/// of a simple or error string holds no CR LF, an integer fits 64 bits, and
/// lengths and counts fit both a signed 64-bit decimal field and memory.
pub open spec fn well_formed(m: FrameModel) -> bool
    decreases m,
{
    match m {
        FrameModel::Simple(t) => no_crlf(encode_utf8(t)),
        FrameModel::Error(t) => no_crlf(encode_utf8(t)),
        FrameModel::Integer(n) => i64::MIN <= n <= i64::MAX,
        FrameModel::Bulk(b) => b.len() <= i64::MAX && b.len() <= usize::MAX,
        FrameModel::Null => true,
        FrameModel::Array(items) => items.len() <= i64::MAX && items.len() <= usize::MAX
            && forall|i: int| 0 <= i < items.len() ==> well_formed(#[trigger] items[i]),
    }
}

/// A line that was read lies within the bytes, and its CR LF too.
pub proof fn lemma_line_bounds(s: Seq<u8>, from: int)
    ensures
        line(s, from) matches Parsed::Done { value, end } ==> from + 2 <= end <= s.len()
            && value.len() == end - 2 - from && crlf_at(s, end - 2) && first_crlf(
            s,
            from,
            end - 2,
        ),
        !(line(s, from) is Done) ==> line(s, from) is Incomplete,
{
    if 0 <= from && has_line(s, from) {
        let i = line_end(s, from);
        assert(first_crlf(s, from, i));
    }
}

/// A decimal field that was read lies within the bytes and fits an `i64`.
pub proof fn lemma_decimal_field_bounds(s: Seq<u8>, from: int)
    ensures
        decimal_field(s, from) matches Parsed::Done { value, end } ==> from + 2 <= end <= s.len()
            && i64::MIN <= value <= i64::MAX,
        !(decimal_field(s, from) is Done) ==> decimal_field(s, from) is Incomplete
            || decimal_field(s, from) is InvalidFormat,
{
    lemma_line_bounds(s, from);
}

/// The bytes of some frames and one more are the bytes of the frames, then
/// those of the one.
pub proof fn lemma_encode_all_push(items: Seq<FrameModel>, last: FrameModel)
    ensures
        encode_all(items.push(last)) == encode_all(items) + encode(last),
    decreases items.len(),
{
    let all = items.push(last);
    if items.len() == 0 {
        assert(all.drop_first() =~= Seq::<FrameModel>::empty());
        assert(encode_all(all.drop_first()) =~= Seq::<u8>::empty());
        assert(encode_all(all) =~= encode_all(items) + encode(last));
    } else {
        assert(all.drop_first() =~= items.drop_first().push(last));
        lemma_encode_all_push(items.drop_first(), last);
        assert(encode_all(all) =~= encode_all(items) + encode(last));
    }
}

} // verus!
