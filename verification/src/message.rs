//! Message frames: one frame's worth of opaque application data.

use crate::frame::FrameHeader;
use crate::octets::{Borrowed, ByteSlice, Octets};
use crate::reader::{parsed_as, take, Outcome, ParseError};
use crate::shared::shared_octets;
use vstd::prelude::*;

verus! {

/// The payload of a single message frame. A message that spans several frames
/// arrives as several of these, all but the last with the flag
/// `more_frames_to_follow`; putting them together is left to the caller.
#[derive(Debug, Clone)]
pub struct Message<T>(pub ByteSlice<T>);

impl<T: Octets> View for Message<T> {
    type V = Seq<u8>;

    open spec fn view(&self) -> Seq<u8> {
        self.0@
    }
}

impl<T> Message<T> {
    /// The payload.
    pub fn payload(&self) -> (payload: &ByteSlice<T>)
        ensures
            *payload == self.0,
    {
        &self.0
    }
}

impl<'a> Message<Borrowed<'a>> {
    /// Whether the payload is a part of `input`, which starts `origin` bytes
    /// into what the offset counts from.
    pub open spec fn cut_at(&self, input: Seq<u8>, origin: nat) -> bool {
        self.0.0.cut_at(input, origin)
    }

    /// Whether the payload was cut from `base` at the offset it remembers.
    pub open spec fn cut_from(&self, base: Seq<u8>) -> bool {
        self.cut_at(base, 0)
    }
}

impl Message<bytes::Bytes> {
    /// The owned form of `subset`: its payload as a share of `buffer`.
    pub fn from_borrowed(buffer: &bytes::Bytes, subset: Message<Borrowed<'_>>) -> (owned: Self)
        requires
            subset.cut_from(shared_octets(*buffer)),
        ensures
            owned@ == subset@,
    {
        Message(ByteSlice::from_borrowed(buffer, subset.0))
    }
}

/// The body of a message frame: all of the `frame_length` bytes are payload.
pub open spec fn message_spec(s: Seq<u8>, frame_length: nat) -> Outcome<Seq<u8>> {
    if s.len() < frame_length {
        Outcome::Incomplete
    } else {
        Outcome::Parsed { value: s.take(frame_length as int), consumed: frame_length }
    }
}

/// Parses a single message from the front of `input`, the body of a frame with
/// the header `hdr`.
///
/// Messages carry application data and are not created, changed or filtered
/// here. A message consists of one or more frames; this parser reads one.
pub fn message<'a>(input: &'a [u8], hdr: &FrameHeader) -> (r: Result<
    (&'a [u8], Message<Borrowed<'a>>),
    ParseError,
>)
    ensures
        match r {
            Ok((rest, msg)) => {
                &&& parsed_as(message_spec(input@, hdr.frame_length as nat), msg@, input@, rest@)
                &&& msg.cut_from(input@)
            },
            Err(e) => e.reports(message_spec(input@, hdr.frame_length as nat)) && e.within(
                input@.len(),
            ),
        },
{
    let (rest, msg) = match take(input, hdr.frame_length) {
        Ok(v) => v,
        Err(e) => return Err(e.at(0)),
    };
    Ok((rest, Message(ByteSlice(Borrowed { bytes: msg, offset: 0 }))))
}

} // verus!
