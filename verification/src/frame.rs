//! Frames: the header that announces a body, and the body as a command or a
//! message.

use crate::command::{command, command_spec, lemma_command_stable, Command, CommandView};
use crate::message::{message, message_spec, Message};
use crate::octets::{Borrowed, Octets};
use crate::reader::{be64, be_u64, be_u8, parsed_as, Outcome, ParseError};
use crate::shared::shared_octets;
use vstd::prelude::*;

verus! {

/// The three flag bits of a frame header's first octet.
#[derive(Debug, Clone, Copy, PartialEq, Eq, Structural)]
pub struct FrameFlags {
    /// Set on a command frame, clear on a message frame.
    pub is_command: bool,
    /// Clear when the body length is one octet, set when it is a 64-bit
    /// unsigned integer in network byte order.
    pub is_long: bool,
    /// Set when more frames of the same message follow.
    pub more_frames_to_follow: bool,
}

impl FrameFlags {
    /// The flags that a header's first octet carries: bit 0 says that more
    /// frames follow, bit 1 that the length is long, bit 2 that the frame is a
    /// command. The five high bits are ignored.
    pub open spec fn spec_from_byte(head_byte: u8) -> FrameFlags {
        FrameFlags {
            more_frames_to_follow: head_byte & 1 != 0,
            is_long: head_byte & 2 != 0,
            is_command: head_byte & 4 != 0,
        }
    }

    #[verifier::when_used_as_spec(spec_from_byte)]
    pub fn from_byte(head_byte: u8) -> (flags: FrameFlags)
        ensures
            flags == Self::spec_from_byte(head_byte),
    {
        let more_frames_to_follow = head_byte & 1u8 != 0;
        let is_long = head_byte & 2u8 != 0;
        let is_command = head_byte & 4u8 != 0;

        FrameFlags { more_frames_to_follow, is_long, is_command }
    }
}

impl Default for FrameFlags {
    fn default() -> (flags: FrameFlags)
        ensures
            flags == (FrameFlags {
                is_command: false,
                is_long: false,
                more_frames_to_follow: false,
            }),
    {
        FrameFlags { is_command: false, is_long: false, more_frames_to_follow: false }
    }
}

/// What a frame header says: the flags, and how many bytes of body follow it.
/// The header's own bytes are not counted in `frame_length`.
#[derive(Debug, Clone, Copy, PartialEq, Eq, Structural)]
pub struct FrameHeader {
    pub flags: FrameFlags,
    pub frame_length: usize,
}

impl Default for FrameHeader {
    fn default() -> (hdr: FrameHeader)
        ensures
            hdr == (FrameHeader { flags: FrameFlags::spec_from_byte(0), frame_length: 0 }),
    {
        assert(0u8 & 1 == 0 && 0u8 & 2 == 0 && 0u8 & 4 == 0) by (bit_vector);
        FrameHeader { flags: FrameFlags::default(), frame_length: 0 }
    }
}

/// The header at the front of `s`: one flag octet, then the body length in one
/// octet, or in eight when the long flag is set. A long length that no `usize`
/// can hold is refused: such a body could not be held in memory.
pub open spec fn frame_header_spec(s: Seq<u8>) -> Outcome<FrameHeader> {
    if s.len() < 1 {
        Outcome::Incomplete
    } else {
        let flags = FrameFlags::spec_from_byte(s[0]);
        if flags.is_long {
            if s.len() < 9 {
                Outcome::Incomplete
            } else if be64(s.skip(1)) > usize::MAX {
                Outcome::Malformed { offset: 1 }
            } else {
                Outcome::Parsed {
                    value: FrameHeader { flags, frame_length: be64(s.skip(1)) as usize },
                    consumed: 9,
                }
            }
        } else {
            if s.len() < 2 {
                Outcome::Incomplete
            } else {
                Outcome::Parsed {
                    value: FrameHeader { flags, frame_length: s[1] as usize },
                    consumed: 2,
                }
            }
        }
    }
}

/// Parses a frame header from the front of `input`.
pub fn frame_header<'a>(input: &'a [u8]) -> (r: Result<(&'a [u8], FrameHeader), ParseError>)
    ensures
        match r {
            Ok((rest, hdr)) => parsed_as(frame_header_spec(input@), hdr, input@, rest@),
            Err(e) => e.reports(frame_header_spec(input@)) && e.within(input@.len()),
        },
{
    let (after_flags, head_byte) = match be_u8(input) {
        Ok(v) => v,
        Err(e) => return Err(e.at(0)),
    };
    let flags = FrameFlags::from_byte(head_byte);

    let (rest, frame_length) = if flags.is_long {
        let (rest, v) = match be_u64(after_flags) {
            Ok(v) => v,
            Err(e) => return Err(e.at(1)),
        };
        if v > usize::MAX as u64 {
            return Err(ParseError::Malformed { offset: 1 });
        }
        (rest, v as usize)
    } else {
        let (rest, v) = match be_u8(after_flags) {
            Ok(v) => v,
            Err(e) => return Err(e.at(1)),
        };
        (rest, v as usize)
    };

    assert(rest@ == input@.skip(if flags.is_long { 9int } else { 2int }));
    Ok((rest, FrameHeader { flags, frame_length }))
}

/// The unit that the decoder emits: a command or a message.
#[derive(Debug, Clone)]
pub enum Frame<S, T> {
    Command(Command<S, T>),
    Message(Message<T>),
}

/// What a frame holds, as a mathematical value.
pub enum FrameView {
    Command(CommandView),
    Message(Seq<u8>),
}

impl<S: Octets, T: Octets> View for Frame<S, T> {
    type V = FrameView;

    open spec fn view(&self) -> FrameView {
        match self {
            Frame::Command(c) => FrameView::Command(c@),
            Frame::Message(m) => FrameView::Message(m@),
        }
    }
}

impl<S: Octets, T: Octets> Frame<S, T> {
    /// No property name of a READY command occurs twice.
    pub open spec fn wf(&self) -> bool {
        self matches Frame::Command(c) ==> c.wf()
    }
}

impl<'a> Frame<Borrowed<'a>, Borrowed<'a>> {
    /// Whether every byte field was cut from `base`, the frame's body, at the
    /// offset it remembers.
    pub open spec fn cut_from(&self, base: Seq<u8>) -> bool {
        match self {
            Frame::Command(c) => c.cut_from(base),
            Frame::Message(m) => m.cut_from(base),
        }
    }

    /// A frame cut from a beginning of `whole` is cut from `whole`.
    pub proof fn lemma_cut_longer(&self, body: Seq<u8>, whole: Seq<u8>)
        requires
            body.len() <= whole.len(),
            body == whole.take(body.len() as int),
            self.cut_from(body),
        ensures
            self.cut_from(whole),
    {
        match self {
            Frame::Command(c) => c.lemma_cut_wider(body, whole, 0, 0),
            Frame::Message(m) => m.0.0.lemma_cut_wider(body, whole, 0, 0),
        }
    }
}

impl Frame<bytes::Bytes, bytes::Bytes> {
    /// The owned form of `frame`: every byte field as a share of `buffer`, the
    /// storage that holds the body which `frame` was parsed from. The fields
    /// are resliced, not copied, and stay valid for as long as they are held.
    pub fn from_borrowed(
        buffer: &bytes::Bytes,
        frame: Frame<Borrowed<'_>, Borrowed<'_>>,
    ) -> (owned: Self)
        requires
            frame.cut_from(shared_octets(*buffer)),
        ensures
            owned@ == frame@,
            owned.wf() == frame.wf(),
    {
        match frame {
            Frame::Command(c) => Frame::Command(Command::from_borrowed(buffer, c)),
            Frame::Message(m) => Frame::Message(Message::from_borrowed(buffer, m)),
        }
    }
}

/// The body of a frame with the header `hdr`: a command where the command
/// flag is set, a message where it is not. The header's `frame_length` is the
/// number of bytes that the body is declared to have.
#[verifier::opaque]
pub open spec fn frame_body_spec(s: Seq<u8>, hdr: FrameHeader) -> Outcome<FrameView> {
    if hdr.flags.is_command {
        match command_spec(s, hdr.frame_length as nat) {
            Outcome::Parsed { value, consumed } => Outcome::Parsed {
                value: FrameView::Command(value),
                consumed,
            },
            other => other.failure(0),
        }
    } else {
        match message_spec(s, hdr.frame_length as nat) {
            Outcome::Parsed { value, consumed } => Outcome::Parsed {
                value: FrameView::Message(value),
                consumed,
            },
            other => other.failure(0),
        }
    }
}

/// The frame at the front of `s`: a header, and the body that it announces.
pub open spec fn frame_spec(s: Seq<u8>) -> Outcome<FrameView> {
    match frame_header_spec(s) {
        Outcome::Parsed { value: hdr, consumed } => frame_body_spec(
            s.skip(consumed as int),
            hdr,
        ).after(consumed),
        other => other.failure(0),
    }
}

/// The number of bytes that the header at the front of `s` takes.
pub open spec fn header_len(s: Seq<u8>) -> nat {
    match frame_header_spec(s) {
        Outcome::Parsed { consumed, .. } => consumed,
        _ => 0,
    }
}

/// Once a header has been parsed or refused, bytes that follow change
/// nothing.
pub proof fn lemma_header_stable(buf: Seq<u8>, more: Seq<u8>)
    requires
        !(frame_header_spec(buf) is Incomplete),
    ensures
        frame_header_spec(buf + more) == frame_header_spec(buf),
{
    let longer = buf + more;
    assert(longer[0] == buf[0]);
    if FrameFlags::spec_from_byte(buf[0]).is_long {
        assert(buf.len() >= 9);
        assert forall|i: int| 0 <= i < 8 implies longer.skip(1)[i] == buf.skip(1)[i] by {}
        assert forall|i: int| 0 <= i < 4 implies longer.skip(1).skip(4)[i] == buf.skip(1).skip(
            4,
        )[i] by {}
    } else {
        assert(longer[1] == buf[1]);
    }
}

/// Once the body of a frame has been parsed or refused, bytes that follow
/// change nothing.
pub proof fn lemma_frame_body_stable(s: Seq<u8>, more: Seq<u8>, hdr: FrameHeader)
    requires
        !(frame_body_spec(s, hdr) is Incomplete),
    ensures
        frame_body_spec(s + more, hdr) == frame_body_spec(s, hdr),
{
    reveal(frame_body_spec);
    if hdr.flags.is_command {
        lemma_command_stable(s, more, hdr.frame_length as nat);
    } else {
        assert((s + more).take(hdr.frame_length as int) =~= s.take(hdr.frame_length as int));
    }
}

/// Once a frame has been parsed or refused, bytes that follow change nothing:
/// what is malformed stays malformed, and only an incomplete frame is still
/// open.
pub proof fn lemma_frame_stable(s: Seq<u8>, more: Seq<u8>)
    requires
        !(frame_spec(s) is Incomplete),
    ensures
        frame_spec(s + more) == frame_spec(s),
{
    lemma_header_stable(s, more);
    if let Outcome::Parsed { value: hdr, consumed } = frame_header_spec(s) {
        assert((s + more).skip(consumed as int) =~= s.skip(consumed as int) + more);
        lemma_frame_body_stable(s.skip(consumed as int), more, hdr);
    }
}

/// Parses the body of a frame from the front of `input`, as the header `hdr`
/// says. The offsets of the byte fields count from the start of `input`.
pub fn frame_body<'a>(input: &'a [u8], hdr: &FrameHeader) -> (r: Result<
    (&'a [u8], Frame<Borrowed<'a>, Borrowed<'a>>),
    ParseError,
>)
    ensures
        match r {
            Ok((rest, frame)) => {
                &&& parsed_as(frame_body_spec(input@, *hdr), frame@, input@, rest@)
                &&& frame.wf()
                &&& frame.cut_from(input@)
            },
            Err(e) => e.reports(frame_body_spec(input@, *hdr)) && e.within(input@.len()),
        },
{
    proof {
        reveal(frame_body_spec);
    }
    if hdr.flags.is_command {
        match command(input, hdr) {
            Ok((rest, cmd)) => Ok((rest, Frame::Command(cmd))),
            Err(e) => Err(e),
        }
    } else {
        match message(input, hdr) {
            Ok((rest, msg)) => Ok((rest, Frame::Message(msg))),
            Err(e) => Err(e),
        }
    }
}

/// Parses a frame, header and body, from the front of `input`, and hands back
/// what was not consumed. The offsets of the byte fields count from the start
/// of the body, the first byte after the header.
pub fn frame<'a>(input: &'a [u8]) -> (r: Result<
    (&'a [u8], Frame<Borrowed<'a>, Borrowed<'a>>),
    ParseError,
>)
    ensures
        match r {
            Ok((rest, frame)) => {
                &&& parsed_as(frame_spec(input@), frame@, input@, rest@)
                &&& frame.wf()
                &&& frame.cut_from(input@.skip(header_len(input@) as int))
            },
            Err(e) => e.reports(frame_spec(input@)) && e.within(input@.len()),
        },
{
    let (body, hdr) = match frame_header(input) {
        Ok(v) => v,
        Err(e) => return Err(e),
    };
    let hdr_bytes = input.len() - body.len();
    let ghost announced = frame_body_spec(body@, hdr);
    assert(header_len(input@) == hdr_bytes);
    assert(frame_spec(input@) == announced.after(hdr_bytes as nat));
    match frame_body(body, &hdr) {
        Ok((rest, frame)) => {
            proof {
                let used = announced->consumed as int;
                assert(body@.skip(used) =~= input@.skip(hdr_bytes + used));
            }
            Ok((rest, frame))
        },
        Err(e) => {
            assert(e.within(body@.len()));
            Err(e.shifted(hdr_bytes))
        },
    }
}

} // verus!
