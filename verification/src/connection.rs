//! The buffered side of a connection: bytes that have arrived and were not
//! yet read as frames.
//!
//! Reading from the stream and writing to it are the caller's part. The
//! caller hands over what a read returned and is told what to do next; for
//! writing it is given the bytes to send.

use crate::buffer::buffer_advance;
use crate::buffer::buffer_as_slice;
use crate::buffer::buffer_contents;
use crate::buffer::buffer_extend;
use crate::buffer::buffer_with_capacity;
use crate::cursor::Cursor;
use crate::frame::Error;
use crate::frame::Frame;
use crate::laws::lemma_check_parse_agree;
use crate::text::nested_array_message;
use crate::text::reset_message;
use crate::text::reset_text;
use crate::wire::decode;
use crate::wire::encode;
use crate::wire::is_nested;
use crate::wire::scan;
use crate::wire::ErrorModel;
use crate::wire::FrameModel;
use crate::wire::Parsed;
use bytes::BytesMut;
use vstd::prelude::*;

verus! {

/// What the caller reports to [`Connection::read_frame`].
pub enum Input<'a> {
    /// Nothing new: try the bytes at hand.
    Start,
    /// One read from the stream returned these bytes; none means that the
    /// peer closed the stream.
    Read(&'a [u8]),
}

/// The mathematical value of an [`Input`].
pub enum InputModel {
    Start,
    Read(Seq<u8>),
}

impl<'a> View for Input<'a> {
    type V = InputModel;

    open spec fn view(&self) -> InputModel {
        match self {
            Input::Start => InputModel::Start,
            Input::Read(bytes) => InputModel::Read(bytes@),
        }
    }
}

/// What [`Connection::read_frame`] tells the caller.
#[derive(Debug)]
pub enum Step {
    /// A frame was read.
    Frame(Frame),
    /// More bytes are needed: read once from the stream and report.
    NeedRead,
    /// The stream ended between frames.
    EndOfStream,
    /// The bytes are no frame, or the stream ended inside one. The
    /// connection is to be closed.
    ProtocolError(Error),
}

/// The mathematical value of a [`Step`].
#[verifier::ext_equal]
pub enum StepModel {
    Frame(FrameModel),
    NeedRead,
    EndOfStream,
    ProtocolError(ErrorModel),
}

impl View for Step {
    type V = StepModel;

    open spec fn view(&self) -> StepModel {
        match self {
            Step::Frame(frame) => StepModel::Frame(frame@),
            Step::NeedRead => StepModel::NeedRead,
            Step::EndOfStream => StepModel::EndOfStream,
            Step::ProtocolError(e) => StepModel::ProtocolError(e@),
        }
    }
}

/// The frame at the start of `buffer`: it is checked first and read only if
/// it is whole.
pub open spec fn first_frame(buffer: Seq<u8>) -> Parsed<FrameModel> {
    match scan(buffer, 0) {
        Parsed::Done { .. } => decode(buffer, 0),
        other => other.cast(),
    }
}

/// An attempt on the bytes at hand: the bytes left afterwards, and the step.
/// A whole frame is taken from the front; otherwise nothing changes.
pub open spec fn parse_step(buffer: Seq<u8>) -> (Seq<u8>, StepModel) {
    match first_frame(buffer) {
        Parsed::Done { value, end } => (buffer.skip(end), StepModel::Frame(value)),
        Parsed::Incomplete => (buffer, StepModel::NeedRead),
        other => (buffer, StepModel::ProtocolError(other.failure())),
    }
}

/// One step of reading a frame: the bytes left afterwards, and the step.
///
/// Bytes that arrived are appended and an attempt is made. A read that
/// returned nothing ends the stream: cleanly if no bytes are at hand, and
/// with an error if some are.
pub open spec fn read_step(buffer: Seq<u8>, input: InputModel) -> (Seq<u8>, StepModel) {
    match input {
        InputModel::Start => parse_step(buffer),
        InputModel::Read(bytes) => if bytes.len() > 0 {
            parse_step(buffer + bytes)
        } else if buffer.len() == 0 {
            (buffer, StepModel::EndOfStream)
        } else {
            (buffer, StepModel::ProtocolError(ErrorModel::Other(reset_message())))
        },
    }
}

/// True when the bytes at hand and those of `input` fit one buffer.
pub open spec fn fits(buffer: Seq<u8>, input: InputModel) -> bool {
    input matches InputModel::Read(bytes) ==> buffer.len() + bytes.len() <= usize::MAX
}

/// Where reading stands after the reads in `reads` were reported one by one
/// for as long as the answer was to read again, starting from `state`.
pub open spec fn continue_reading(state: (Seq<u8>, StepModel), reads: Seq<Seq<u8>>) -> (
    Seq<u8>,
    StepModel,
)
    decreases reads.len(),
{
    if state.1 is NeedRead && reads.len() > 0 {
        continue_reading(read_step(state.0, InputModel::Read(reads[0])), reads.drop_first())
    } else {
        state
    }
}

/// Reading one frame from a stream that delivers `reads`, one per read, with
/// `buffer` at hand: the bytes left afterwards, and the last step. The step
/// is `NeedRead` when the reads run out before a frame is whole.
pub open spec fn read_run(buffer: Seq<u8>, reads: Seq<Seq<u8>>) -> (Seq<u8>, StepModel) {
    continue_reading(read_step(buffer, InputModel::Start), reads)
}

/// The bytes of a connection that were received and not yet read as frames.
pub struct Connection {
    buffer: BytesMut,
}

impl View for Connection {
    type V = Seq<u8>;

    closed spec fn view(&self) -> Seq<u8> {
        buffer_contents(self.buffer)
    }
}

impl Connection {
    /// A connection with nothing received yet.
    pub fn new() -> (c: Connection)
        ensures
            c@ == Seq::<u8>::empty(),
    {
        Connection { buffer: buffer_with_capacity(4096) }
    }

    /// How many bytes are at hand.
    pub fn buffered(&self) -> (n: usize)
        ensures
            n == self@.len(),
    {
        buffer_as_slice(&self.buffer).len()
    }

    /// Tries to read a frame from the bytes at hand.
    ///
    /// A whole frame is removed from the front and returned; `None` means
    /// that more bytes are needed. On an error nothing is removed.
    pub fn parse_frame(&mut self) -> (r: Result<Option<Frame>, Error>)
        ensures
            final(self)@ == parse_step(old(self)@).0,
            match parse_step(old(self)@).1 {
                StepModel::Frame(m) => r matches Ok(Some(frame)) && frame@ == m,
                StepModel::NeedRead => r matches Ok(None),
                StepModel::ProtocolError(e) => r matches Err(error) && error@ == e,
                StepModel::EndOfStream => false,
            },
    {
        let data: &[u8] = buffer_as_slice(&self.buffer);
        let mut cursor = Cursor::new(data);
        proof {
            lemma_check_parse_agree(data@, 0);
        }
        match Frame::check(&mut cursor) {
            Ok(()) => {
                let len: usize = cursor.position();
                cursor.set_position(0);
                match Frame::parse(&mut cursor) {
                    Ok(frame) => {
                        buffer_advance(&mut self.buffer, len);
                        Ok(Some(frame))
                    },
                    Err(e) => Err(e),
                }
            },
            Err(Error::Incomplete) => Ok(None),
            Err(e) => Err(e),
        }
    }

    /// One step of reading a frame; see [`read_step`].
    ///
    /// Start with `Input::Start`. While the answer is `Step::NeedRead`, read
    /// once from the stream and call again with what the read returned. The
    /// bytes at hand and the bytes read must fit one buffer.
    pub fn read_frame(&mut self, input: Input<'_>) -> (step: Step)
        requires
            fits(old(self)@, input@),
        ensures
            (final(self)@, step@) == read_step(old(self)@, input@),
    {
        match input {
            Input::Start => {},
            Input::Read(bytes) => {
                if bytes.len() == 0 {
                    if self.buffered() == 0 {
                        return Step::EndOfStream;
                    } else {
                        return Step::ProtocolError(Error::Other(reset_text()));
                    }
                }
                buffer_extend(&mut self.buffer, bytes);
            },
        }
        match self.parse_frame() {
            Ok(Some(frame)) => Step::Frame(frame),
            Ok(None) => Step::NeedRead,
            Err(e) => Step::ProtocolError(e),
        }
    }

    /// [`Connection::read_frame`] for any input: `None`, with nothing
    /// changed, when the bytes at hand and the bytes read are together more
    /// than a buffer can hold.
    pub fn try_read_frame(&mut self, input: Input<'_>) -> (r: Option<Step>)
        ensures
            fits(old(self)@, input@) ==> (r matches Some(step) && (final(self)@, step@)
                == read_step(old(self)@, input@)),
            !fits(old(self)@, input@) ==> r is None && final(self)@ == old(self)@,
    {
        if let Input::Read(bytes) = input {
            if bytes.len() > usize::MAX - self.buffered() {
                return None;
            }
        }
        Some(self.read_frame(input))
    }

    /// The bytes to send for `frame`: its encoding, to be written to the
    /// stream in one piece and followed by a flush.
    ///
    /// An array that holds an array has no encoding: the call then fails
    /// with the text of `nested_array_message`.
    pub fn write_frame(&mut self, frame: &Frame) -> (r: Result<Vec<u8>, Error>)
        ensures
            final(self)@ == old(self)@,
            is_nested(frame@) ==> r is Err && r->Err_0@ == ErrorModel::Other(
                nested_array_message(),
            ),
            !is_nested(frame@) ==> r is Ok && r->Ok_0@ == encode(frame@),
    {
        frame.encode()
    }
}

} // verus!
