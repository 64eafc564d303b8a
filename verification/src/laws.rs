//! What holds of the wire format and of reading it from a stream: the bytes
//! of a frame read back as that frame, bytes that stop inside a frame read as
//! incomplete, checking and reading agree on where a frame ends, and a frame
//! is read the same however its bytes are cut into reads.

use crate::connection::continue_reading;
use crate::connection::first_frame;
use crate::connection::parse_step;
use crate::connection::read_run;
use crate::connection::read_step;
use crate::connection::InputModel;
use crate::connection::StepModel;
use crate::decimal::decimal_i64;
use crate::decimal::decimal_repr;
use crate::decimal::is_digit;
use crate::decimal::lemma_decimal_repr;
use crate::text::reset_message;
use crate::wire::crlf;
use crate::wire::crlf_at;
use crate::wire::decimal_field;
use crate::wire::decode;
use crate::wire::decode_items;
use crate::wire::encode;
use crate::wire::encode_all;
use crate::wire::first_crlf;
use crate::wire::lemma_decimal_field_bounds;
use crate::wire::lemma_line_bounds;
use crate::wire::line;
use crate::wire::line_end;
use crate::wire::no_crlf;
use crate::wire::null_marker;
use crate::wire::scan;
use crate::wire::scan_items;
use crate::wire::well_formed;
use crate::wire::ErrorModel;
use crate::wire::FrameModel;
use crate::wire::Parsed;
use vstd::prelude::*;
use vstd::utf8::encode_utf8;

verus! {

/// True when `s` carries `enc` from `pos` on, as far as `s` reaches.
pub open spec fn holds_at(s: Seq<u8>, pos: int, enc: Seq<u8>) -> bool {
    0 <= pos <= s.len() && forall|i: int|
        0 <= i < enc.len() && pos + i < s.len() ==> s[pos + i] == #[trigger] enc[i]
}

/// What holds of a longer text holds of its start.
proof fn lemma_holds_at_head(s: Seq<u8>, pos: int, head: Seq<u8>, tail: Seq<u8>)
    requires
        holds_at(s, pos, head + tail),
    ensures
        holds_at(s, pos, head),
{
    assert forall|i: int| 0 <= i < head.len() && pos + i < s.len() implies s[pos + i]
        == #[trigger] head[i] by {
        assert((head + tail)[i] == head[i]);
    }
}

/// What holds of a longer text holds of its end, where `s` reaches it.
proof fn lemma_holds_at_tail(s: Seq<u8>, pos: int, head: Seq<u8>, tail: Seq<u8>)
    requires
        holds_at(s, pos, head + tail),
        pos + head.len() <= s.len(),
    ensures
        holds_at(s, pos + head.len(), tail),
{
    let from = pos + head.len();
    assert forall|i: int| 0 <= i < tail.len() && from + i < s.len() implies s[from + i]
        == #[trigger] tail[i] by {
        assert((head + tail)[head.len() + i] == tail[i]);
    }
}

/// A line that is wholly there is read, up to its CR LF.
proof fn lemma_line_found(s: Seq<u8>, from: int, body: Seq<u8>)
    requires
        holds_at(s, from, body + crlf()),
        no_crlf(body),
        from + body.len() + 2 <= s.len(),
    ensures
        line(s, from) == (Parsed::Done { value: body, end: from + body.len() + 2 }),
{
    let text = body + crlf();
    let at = from + body.len();
    assert(s[at] == text[body.len() as int]);
    assert(s[at + 1] == text[body.len() as int + 1]);
    assert(crlf_at(s, at));
    assert forall|j: int| from <= j < at implies !crlf_at(s, j) by {
        let k = j - from;
        assert(s[j] == text[k]);
        assert(s[j + 1] == text[k + 1]);
        if k + 1 < body.len() {
            assert(!crlf_at(body, k));
        }
    }
    assert(first_crlf(s, from, at));
    lemma_line_bounds(s, from);
    assert(line_end(s, from) == at);
    assert(s.subrange(from, at) =~= body) by {
        assert forall|i: int| 0 <= i < body.len() implies s[from + i] == body[i] by {
            assert(text[i] == body[i]);
        }
    }
}

/// A line whose CR LF has not wholly arrived is not read.
proof fn lemma_line_missing(s: Seq<u8>, from: int, body: Seq<u8>)
    requires
        holds_at(s, from, body + crlf()),
        no_crlf(body),
        s.len() < from + body.len() + 2,
    ensures
        line(s, from) is Incomplete,
{
    let text = body + crlf();
    assert forall|j: int| !first_crlf(s, from, j) by {
        if from <= j && crlf_at(s, j) {
            let k = j - from;
            assert(s[j] == text[k]);
            assert(s[j + 1] == text[k + 1]);
            if k + 1 < body.len() {
                assert(!crlf_at(body, k));
            }
        }
    }
}

/// The decimal field of a number holds no CR LF.
proof fn lemma_decimal_no_crlf(n: int)
    ensures
        no_crlf(decimal_repr(n)),
        decimal_repr(n).len() >= 1,
{
    lemma_decimal_repr(n);
    let d = decimal_repr(n);
    assert forall|i: int| !crlf_at(d, i) by {
        if 0 <= i && i + 1 < d.len() {
            assert(is_digit(d[i + 1]));
        }
    }
}

/// A decimal field that is wholly there is read as its number.
proof fn lemma_decimal_found(s: Seq<u8>, from: int, n: int)
    requires
        holds_at(s, from, decimal_repr(n) + crlf()),
        i64::MIN <= n <= i64::MAX,
        from + decimal_repr(n).len() + 2 <= s.len(),
    ensures
        decimal_field(s, from) == (Parsed::Done {
            value: n,
            end: from + decimal_repr(n).len() + 2,
        }),
{
    lemma_decimal_no_crlf(n);
    lemma_decimal_repr(n);
    lemma_line_found(s, from, decimal_repr(n));
    assert(decimal_i64(decimal_repr(n)) == Some(n as i64));
}

/// A decimal field whose CR LF has not wholly arrived is not read.
proof fn lemma_decimal_missing(s: Seq<u8>, from: int, n: int)
    requires
        holds_at(s, from, decimal_repr(n) + crlf()),
        s.len() < from + decimal_repr(n).len() + 2,
    ensures
        decimal_field(s, from) is Incomplete,
{
    lemma_decimal_no_crlf(n);
    lemma_line_missing(s, from, decimal_repr(n));
}

/// The null marker holds no CR LF.
proof fn lemma_null_marker_no_crlf()
    ensures
        no_crlf(null_marker()),
        null_marker().len() == 2,
{
}

/// Where the bytes of a well-formed frame stand, whole, that frame is read
/// and the reading ends where the bytes end; where the bytes stop inside
/// them, the reading is incomplete.
pub proof fn lemma_encoded_frame(m: FrameModel, s: Seq<u8>, pos: int)
    requires
        well_formed(m),
        holds_at(s, pos, encode(m)),
    ensures
        encode(m).len() >= 3,
        pos + encode(m).len() <= s.len() ==> decode(s, pos) == (Parsed::Done {
            value: m,
            end: pos + encode(m).len(),
        }) && scan(s, pos) == (Parsed::Done { value: (), end: pos + encode(m).len() }),
        s.len() < pos + encode(m).len() ==> decode(s, pos) is Incomplete && scan(s, pos)
            is Incomplete,
    decreases m, 0int,
{
    let enc = encode(m);
    match m {
        FrameModel::Simple(t) => {
            lemma_encoded_text(43, encode_utf8(t), s, pos);
            vstd::utf8::encode_utf8_valid_utf8(t);
            vstd::utf8::encode_utf8_decode_utf8(t);
        },
        FrameModel::Error(t) => {
            lemma_encoded_text(45, encode_utf8(t), s, pos);
            vstd::utf8::encode_utf8_valid_utf8(t);
            vstd::utf8::encode_utf8_decode_utf8(t);
        },
        FrameModel::Integer(n) => {
            let body = decimal_repr(n);
            lemma_decimal_no_crlf(n);
            assert(enc =~= seq![58u8] + (body + crlf()));
            if pos < s.len() {
                assert(s[pos] == enc[0]);
                lemma_holds_at_tail(s, pos, seq![58u8], body + crlf());
                if pos + enc.len() <= s.len() {
                    lemma_decimal_found(s, pos + 1, n);
                } else {
                    lemma_decimal_missing(s, pos + 1, n);
                }
            }
        },
        FrameModel::Bulk(b) => {
            let n = b.len() as int;
            let body = decimal_repr(n);
            lemma_decimal_no_crlf(n);
            lemma_decimal_repr(n);
            let header = seq![36u8] + (body + crlf());
            assert(enc =~= header + (b + crlf()));
            assert(enc =~= seq![36u8] + ((body + crlf()) + (b + crlf())));
            if pos < s.len() {
                assert(s[pos] == enc[0]);
                if pos + 1 < s.len() {
                    assert(s[pos + 1] == enc[1]);
                    assert(enc[1] == body[0]);
                    assert(s[pos + 1] != 45u8);
                    lemma_holds_at_tail(s, pos, seq![36u8], (body + crlf()) + (b + crlf()));
                    lemma_holds_at_head(s, pos + 1, body + crlf(), b + crlf());
                    if pos + header.len() <= s.len() {
                        lemma_decimal_found(s, pos + 1, n);
                        let e = pos + header.len();
                        if pos + enc.len() <= s.len() {
                            assert(s.subrange(e, e + n) =~= b) by {
                                assert forall|i: int| 0 <= i < n implies s[e + i] == b[i] by {
                                    assert(enc[header.len() + i] == b[i]);
                                }
                            }
                        }
                    } else {
                        lemma_decimal_missing(s, pos + 1, n);
                    }
                }
            }
        },
        FrameModel::Null => {
            lemma_null_marker_no_crlf();
            assert(enc =~= seq![36u8] + (null_marker() + crlf()));
            if pos < s.len() {
                assert(s[pos] == enc[0]);
                if pos + 1 < s.len() {
                    assert(s[pos + 1] == enc[1]);
                    lemma_holds_at_tail(s, pos, seq![36u8], null_marker() + crlf());
                    if pos + enc.len() <= s.len() {
                        lemma_line_found(s, pos + 1, null_marker());
                    } else {
                        lemma_line_missing(s, pos + 1, null_marker());
                    }
                }
            }
        },
        FrameModel::Array(items) => {
            let n = items.len() as int;
            let body = decimal_repr(n);
            lemma_decimal_no_crlf(n);
            let header = seq![42u8] + (body + crlf());
            let rest = encode_all(items);
            assert(enc =~= header + rest);
            assert(enc =~= seq![42u8] + ((body + crlf()) + rest));
            if pos < s.len() {
                assert(s[pos] == enc[0]);
                lemma_holds_at_tail(s, pos, seq![42u8], (body + crlf()) + rest);
                lemma_holds_at_head(s, pos + 1, body + crlf(), rest);
                if pos + header.len() <= s.len() {
                    lemma_decimal_found(s, pos + 1, n);
                    lemma_holds_at_tail(s, pos, header, rest);
                    lemma_encoded_items(items, s, pos + header.len());
                } else {
                    lemma_decimal_missing(s, pos + 1, n);
                }
            }
        },
    }
}

/// The case of a simple or error string in [`lemma_encoded_frame`]: a type
/// byte, a text without CR LF, and CR LF.
proof fn lemma_encoded_text(tag: u8, body: Seq<u8>, s: Seq<u8>, pos: int)
    requires
        tag == 43 || tag == 45,
        no_crlf(body),
        holds_at(s, pos, seq![tag] + body + crlf()),
    ensures
        pos + body.len() + 3 <= s.len() ==> pos < s.len() && s[pos] == tag && line(s, pos + 1) == (
        Parsed::Done { value: body, end: pos + body.len() + 3 }),
        pos < s.len() < pos + body.len() + 3 ==> s[pos] == tag && line(s, pos + 1)
            is Incomplete,
        (seq![tag] + body + crlf()).len() == body.len() + 3,
{
    let enc = seq![tag] + body + crlf();
    assert(enc =~= seq![tag] + (body + crlf()));
    if pos < s.len() {
        assert(s[pos] == enc[0]);
        lemma_holds_at_tail(s, pos, seq![tag], body + crlf());
        if pos + body.len() + 3 <= s.len() {
            lemma_line_found(s, pos + 1, body);
        } else {
            lemma_line_missing(s, pos + 1, body);
        }
    }
}

/// [`lemma_encoded_frame`] for frames that follow one another.
pub proof fn lemma_encoded_items(items: Seq<FrameModel>, s: Seq<u8>, pos: int)
    requires
        forall|i: int| 0 <= i < items.len() ==> well_formed(#[trigger] items[i]),
        holds_at(s, pos, encode_all(items)),
    ensures
        pos + encode_all(items).len() <= s.len() ==> decode_items(s, pos, items.len() as int) == (
        Parsed::Done { value: items, end: pos + encode_all(items).len() }) && scan_items(
            s,
            pos,
            items.len() as int,
        ) == (Parsed::Done { value: (), end: pos + encode_all(items).len() }),
        s.len() < pos + encode_all(items).len() ==> decode_items(s, pos, items.len() as int)
            is Incomplete && scan_items(s, pos, items.len() as int) is Incomplete,
    decreases items, 1int,
{
    if items.len() == 0 {
        assert(items =~= Seq::<FrameModel>::empty());
    } else {
        let first = items[0];
        let rest = items.drop_first();
        let head = encode(first);
        let tail = encode_all(rest);
        assert(encode_all(items) == head + tail);
        lemma_holds_at_head(s, pos, head, tail);
        lemma_encoded_frame(first, s, pos);
        if pos + head.len() <= s.len() {
            lemma_holds_at_tail(s, pos, head, tail);
            assert forall|i: int| 0 <= i < rest.len() implies well_formed(#[trigger] rest[i]) by {
                assert(rest[i] == items[i + 1]);
            }
            lemma_encoded_items(rest, s, pos + head.len());
            if pos + encode_all(items).len() <= s.len() {
                assert(seq![first] + rest =~= items);
            }
        }
    }
}

/// Checking and reading agree: where a frame is read, the check finds a whole
/// frame that ends at the same place; where the check finds a whole frame,
/// it ends within the bytes, and reading either gives a frame that ends
/// there or finds a field that is not well formed (a text that is not valid
/// UTF-8), never a lack of bytes.
pub proof fn lemma_check_parse_agree(s: Seq<u8>, pos: int)
    ensures
        decode(s, pos) matches Parsed::Done { end, .. } ==> scan(s, pos) == (Parsed::Done {
            value: (),
            end,
        }),
        scan(s, pos) matches Parsed::Done { end, .. } ==> pos < end <= s.len() && (decode(s, pos)
            is InvalidFormat || (decode(s, pos) is Done && decode(s, pos)->end == end)),
    decreases s.len() - pos, 0int,
{
    if 0 <= pos < s.len() {
        lemma_line_bounds(s, pos + 1);
        lemma_decimal_field_bounds(s, pos + 1);
        if s[pos] == 42u8 {
            let field = decimal_field(s, pos + 1);
            if field is Done && 0 <= field->value <= usize::MAX {
                lemma_check_parse_agree_items(s, field->end, field->value);
            }
        }
    }
}

/// [`lemma_check_parse_agree`] for frames that follow one another.
pub proof fn lemma_check_parse_agree_items(s: Seq<u8>, pos: int, count: int)
    requires
        0 <= pos <= s.len(),
    ensures
        decode_items(s, pos, count) matches Parsed::Done { end, .. } ==> scan_items(s, pos, count)
            == (Parsed::Done { value: (), end }),
        scan_items(s, pos, count) matches Parsed::Done { end, .. } ==> pos <= end <= s.len() && (
        decode_items(s, pos, count) is InvalidFormat || (decode_items(s, pos, count) is Done
            && decode_items(s, pos, count)->end == end)),
    decreases s.len() - pos, 1int, count,
{
    if count > 0 {
        lemma_check_parse_agree(s, pos);
        if scan(s, pos) is Done {
            lemma_check_parse_agree_items(s, scan(s, pos)->end, count - 1);
        }
        if decode(s, pos) is Done {
            lemma_check_parse_agree_items(s, decode(s, pos)->end, count - 1);
        }
    }
}

/// Reading a frame's bytes gives the frame back: for every well-formed
/// frame, decoding its encoding yields that frame and ends at the last byte.
pub proof fn lemma_round_trip(m: FrameModel)
    requires
        well_formed(m),
    ensures
        decode(encode(m), 0) == (Parsed::Done { value: m, end: encode(m).len() as int }),
        scan(encode(m), 0) == (Parsed::Done { value: (), end: encode(m).len() as int }),
{
    lemma_encoded_frame(m, encode(m), 0);
}

/// Bytes that stop inside a frame are incomplete: every proper prefix of a
/// well-formed frame's encoding is read, and checked, as lacking bytes.
pub proof fn lemma_prefix_incomplete(m: FrameModel, k: int)
    requires
        well_formed(m),
        0 <= k < encode(m).len(),
    ensures
        scan(encode(m).take(k), 0) is Incomplete,
        decode(encode(m).take(k), 0) is Incomplete,
{
    lemma_encoded_frame(m, encode(m).take(k), 0);
}

/// Chunks that are not empty and make up more bytes than are at hand are at
/// least one chunk, and the rest makes up what the first leaves over.
proof fn lemma_flatten_first(reads: Seq<Seq<u8>>)
    requires
        forall|i: int| 0 <= i < reads.len() ==> (#[trigger] reads[i]).len() > 0,
    ensures
        reads.len() == 0 ==> reads.flatten().len() == 0,
        reads.len() > 0 ==> reads.flatten() == reads[0] + reads.drop_first().flatten()
            && reads.flatten().len() > 0,
{
    if reads.len() > 0 {
        assert(reads.first() == reads[0]);
    }
}

/// [`lemma_incremental_delivery`] from a point at which some of the frame's
/// bytes are at hand and more were asked for.
proof fn lemma_feed(m: FrameModel, buffer: Seq<u8>, reads: Seq<Seq<u8>>)
    requires
        well_formed(m),
        forall|i: int| 0 <= i < reads.len() ==> (#[trigger] reads[i]).len() > 0,
        buffer + reads.flatten() == encode(m),
        buffer.len() < encode(m).len(),
    ensures
        continue_reading((buffer, StepModel::NeedRead), reads) == (
            Seq::<u8>::empty(),
            StepModel::Frame(m),
        ),
    decreases reads.len(),
{
    let enc = encode(m);
    lemma_flatten_first(reads);
    assert(reads.len() > 0);
    let rest = reads.drop_first();
    let more = buffer + reads[0];
    assert(more + rest.flatten() =~= enc);
    assert forall|i: int| 0 <= i < rest.len() implies (#[trigger] rest[i]).len() > 0 by {
        assert(rest[i] == reads[i + 1]);
    }
    lemma_flatten_first(rest);
    let next = read_step(buffer, InputModel::Read(reads[0]));
    assert(next == parse_step(more));
    assert(continue_reading((buffer, StepModel::NeedRead), reads) == continue_reading(next, rest));
    if more.len() < enc.len() {
        assert(more =~= enc.take(more.len() as int));
        lemma_prefix_incomplete(m, more.len() as int);
        assert(first_frame(more) is Incomplete);
        assert(next == (more, StepModel::NeedRead));
        lemma_feed(m, more, rest);
    } else {
        assert(more =~= enc);
        lemma_round_trip(m);
        assert(first_frame(more) == (Parsed::Done { value: m, end: enc.len() as int }));
        assert(enc.skip(enc.len() as int) =~= Seq::<u8>::empty());
        assert(next == (Seq::<u8>::empty(), StepModel::Frame(m)));
    }
}

/// Incremental delivery: however the bytes of a well-formed frame are cut
/// into reads that each bring at least one byte, reading yields that frame,
/// as it does when they arrive in one piece, and no byte is left over.
pub proof fn lemma_incremental_delivery(m: FrameModel, reads: Seq<Seq<u8>>)
    requires
        well_formed(m),
        forall|i: int| 0 <= i < reads.len() ==> (#[trigger] reads[i]).len() > 0,
        reads.flatten() == encode(m),
    ensures
        read_run(Seq::empty(), reads) == (Seq::<u8>::empty(), StepModel::Frame(m)),
        read_run(Seq::empty(), seq![encode(m)]) == (Seq::<u8>::empty(), StepModel::Frame(m)),
{
    let none = Seq::<u8>::empty();
    lemma_encoded_frame(m, encode(m), 0);
    assert(none + reads.flatten() =~= encode(m));
    lemma_feed(m, none, reads);
    let whole = seq![encode(m)];
    assert(whole.drop_first() =~= Seq::<Seq<u8>>::empty());
    assert(whole.flatten() =~= encode(m)) by {
        assert(whole.first() == encode(m));
        assert(whole.drop_first().flatten() =~= Seq::<u8>::empty());
    }
    lemma_feed(m, none, whole);
}

/// Truncation: when the stream ends after some but not all bytes of a
/// well-formed frame have arrived, reading reports that the peer reset the
/// connection, not the end of the stream, and keeps the bytes.
pub proof fn lemma_truncation(m: FrameModel, k: int)
    requires
        well_formed(m),
        0 < k < encode(m).len(),
    ensures
        read_run(Seq::empty(), seq![encode(m).take(k), Seq::empty()]) == (
            encode(m).take(k),
            StepModel::ProtocolError(ErrorModel::Other(reset_message())),
        ),
{
    let part = encode(m).take(k);
    let reads = seq![part, Seq::<u8>::empty()];
    lemma_prefix_incomplete(m, k);
    assert(Seq::<u8>::empty() + part =~= part);
    assert(reads.drop_first() =~= seq![Seq::<u8>::empty()]);
    assert(reads.drop_first().drop_first() =~= Seq::<Seq<u8>>::empty());
    let first = read_step(Seq::empty(), InputModel::Start);
    assert(first == (Seq::<u8>::empty(), StepModel::NeedRead));
    let second = read_step(first.0, InputModel::Read(reads[0]));
    assert(second == (part, StepModel::NeedRead));
    let third = read_step(second.0, InputModel::Read(reads.drop_first()[0]));
    assert(continue_reading(third, reads.drop_first().drop_first()) == third);
    assert(continue_reading(second, reads.drop_first()) == third);
}

/// Clean close: when the stream ends with no bytes at hand, reading reports
/// the end of the stream.
pub proof fn lemma_clean_close()
    ensures
        read_run(Seq::empty(), seq![Seq::empty()]) == (
            Seq::<u8>::empty(),
            StepModel::EndOfStream,
        ),
{
    let reads = seq![Seq::<u8>::empty()];
    let first = read_step(Seq::empty(), InputModel::Start);
    assert(first == (Seq::<u8>::empty(), StepModel::NeedRead));
    let second = read_step(first.0, InputModel::Read(reads[0]));
    assert(continue_reading(second, reads.drop_first()) == second);
}

/// Arrival order: whatever follows the bytes of a well-formed frame, an
/// attempt on them yields that frame and leaves what follows for the next
/// attempt, untouched.
pub proof fn lemma_frames_in_order(m: FrameModel, rest: Seq<u8>)
    requires
        well_formed(m),
    ensures
        parse_step(encode(m) + rest) == (rest, StepModel::Frame(m)),
{
    let all = encode(m) + rest;
    assert(holds_at(all, 0, encode(m)));
    lemma_encoded_frame(m, all, 0);
    assert(all.skip(encode(m).len() as int) =~= rest);
}

} // verus!
