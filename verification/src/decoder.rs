//! The streaming decoder: from a byte stream that arrives in chunks of any
//! size to complete frames.
//!
//! The decoder keeps nothing but a buffer. Bytes are appended at its end as
//! they arrive; a frame is taken off its front as soon as all of it is there.
//! While a frame is not complete the buffer is left as it is, so giving up an
//! attempt costs nothing. A frame that is malformed ends the stream: in a
//! length-prefixed framing there is no place to pick up again.

use crate::frame::{
    frame_body, frame_body_spec, frame_header, frame_header_spec, lemma_header_stable, Frame,
    FrameHeader, FrameView,
};
use crate::reader::{Outcome, ParseError};
use crate::shared::{buffered_octets, shared_octets};
use bytes::Buf;
use vstd::prelude::*;

verus! {

/// Why a stream cannot be decoded any further. Both kinds say where: `offset`
/// counts bytes from the first header byte of the frame that failed.
#[derive(Debug, Clone, Copy, PartialEq, Eq, Structural)]
pub enum ParserError {
    /// A frame's body ends before what it holds does: the length in the header
    /// is too small for the body's own content. `offset` is where the frame
    /// ends, and where the missing bytes would have had to stand.
    Truncated { offset: usize },
    /// A frame is malformed. `offset` is where the field that was refused
    /// starts.
    Malformed { offset: usize },
}

impl ParserError {
    /// The error that ends the stream when the body of a frame fails to parse
    /// with `e`, in a frame of `hdr_bytes` of header and `frame_length` of body.
    pub open spec fn spec_in_frame(
        e: ParseError,
        hdr_bytes: usize,
        frame_length: usize,
    ) -> ParserError {
        match e {
            ParseError::Incomplete => ParserError::Truncated {
                offset: (hdr_bytes + frame_length) as usize,
            },
            ParseError::Malformed { offset } => ParserError::Malformed {
                offset: (hdr_bytes + offset) as usize,
            },
        }
    }

    /// The error that ends the stream when the body of a frame fails to parse
    /// with `e`: all of the body was there, so that a parse which lacks bytes
    /// will lack them for good.
    pub fn in_frame(e: ParseError, hdr_bytes: usize, frame_length: usize) -> (r: ParserError)
        requires
            hdr_bytes + frame_length <= usize::MAX,
            e.within(frame_length as nat),
        ensures
            r == Self::spec_in_frame(e, hdr_bytes, frame_length),
    {
        match e {
            ParseError::Incomplete => ParserError::Truncated { offset: hdr_bytes + frame_length },
            ParseError::Malformed { offset } => ParserError::Malformed {
                offset: hdr_bytes + offset,
            },
        }
    }

    /// Where in the frame the error is.
    pub fn offset(&self) -> (offset: usize)
        ensures
            offset == match self {
                ParserError::Truncated { offset } => *offset,
                ParserError::Malformed { offset } => *offset,
            },
    {
        match self {
            ParserError::Truncated { offset } => *offset,
            ParserError::Malformed { offset } => *offset,
        }
    }

    /// A short text that says what went wrong.
    pub fn description(&self) -> (text: &'static str)
        ensures
            text@ == match self {
                ParserError::Truncated { .. } => "frame body is shorter than its content"@,
                ParserError::Malformed { .. } => "malformed frame"@,
            },
    {
        match self {
            ParserError::Truncated { .. } => "frame body is shorter than its content",
            ParserError::Malformed { .. } => "malformed frame",
        }
    }
}

/// Tells a parse that only lacks bytes from one that failed: the first is no
/// error for a stream, which will be tried again once more has been read.
pub fn filter_short_read<'a, V>(res: Result<(&'a [u8], V), ParseError>) -> (r: Result<
    Option<(&'a [u8], V)>,
    ParserError,
>)
    ensures
        match res {
            Ok(v) => r == Ok::<Option<(&'a [u8], V)>, ParserError>(Some(v)),
            Err(ParseError::Incomplete) => r == Ok::<Option<(&'a [u8], V)>, ParserError>(None),
            Err(ParseError::Malformed { offset }) => r == Err::<
                Option<(&'a [u8], V)>,
                ParserError,
            >(ParserError::Malformed { offset }),
        },
{
    match res {
        Ok(v) => Ok(Some(v)),
        Err(ParseError::Incomplete) => Ok(None),  // will try again once more has been read
        Err(ParseError::Malformed { offset }) => Err(ParserError::Malformed { offset }),
    }
}

/// What one decode attempt on a buffer comes to.
pub enum Step {
    /// No complete frame is buffered yet. Nothing is consumed.
    NeedMore,
    /// A frame, taken from the first `used` bytes.
    Emit { frame: FrameView, used: nat },
    /// The stream is malformed. The first `used` bytes are consumed.
    Fail { error: ParserError, used: nat },
}

/// One decode attempt on the buffered bytes `buf`.
///
/// While the header is incomplete, or the header is there and announces more
/// body than is buffered, more bytes are needed. Once header and body are
/// there, the body alone decides: it is parsed from exactly the bytes that the
/// header announces, and what it holds beyond its own content is dropped.
pub open spec fn decode_spec(buf: Seq<u8>) -> Step {
    match frame_header_spec(buf) {
        Outcome::Incomplete => Step::NeedMore,
        Outcome::Malformed { offset } => Step::Fail {
            error: ParserError::Malformed { offset: offset as usize },
            used: 0,
        },
        Outcome::Parsed { value: hdr, consumed } => {
            let total = consumed + hdr.frame_length as nat;
            if total > buf.len() {
                Step::NeedMore
            } else {
                match frame_body_spec(buf.subrange(consumed as int, total as int), hdr) {
                    Outcome::Parsed { value, .. } => Step::Emit { frame: value, used: total },
                    Outcome::Incomplete => Step::Fail {
                        error: ParserError::Truncated { offset: total as usize },
                        used: total,
                    },
                    Outcome::Malformed { offset } => Step::Fail {
                        error: ParserError::Malformed { offset: (consumed + offset) as usize },
                        used: total,
                    },
                }
            }
        },
    }
}

/// Whether a decode attempt that returned `r` and turned the buffer `before`
/// into `after` did what [`decode_spec`] calls for.
pub open spec fn decoded_as(
    before: Seq<u8>,
    after: Seq<u8>,
    r: Result<Option<Frame<bytes::Bytes, bytes::Bytes>>, ParserError>,
) -> bool {
    match decode_spec(before) {
        Step::NeedMore => r matches Ok(None) && after == before,
        Step::Emit { frame, used } => {
            &&& r matches Ok(Some(owned))
            &&& owned@ == frame
            &&& owned.wf()
            &&& used <= before.len()
            &&& after == before.skip(used as int)
        },
        Step::Fail { error, used } => {
            &&& r matches Err(e)
            &&& e == error
            &&& used <= before.len()
            &&& after == before.skip(used as int)
        },
    }
}

/// Decodes frames from a buffer that the caller fills.
#[derive(Debug, Default)]
pub struct FrameParser {}

impl FrameParser {
    /// Tries to take one frame off the front of `src`.
    ///
    /// `Ok(None)` says that no complete frame is buffered; `src` is then
    /// untouched. `Ok(Some(frame))` hands out the frame in its owned form, and
    /// its bytes, header and body, have left `src`. `Err` ends the stream.
    pub fn decode(&mut self, src: &mut bytes::BytesMut) -> (r: Result<
        Option<Frame<bytes::Bytes, bytes::Bytes>>,
        ParserError,
    >)
        ensures
            decoded_as(buffered_octets(*old(src)), buffered_octets(*final(src)), r),
    {
        let ghost before = buffered_octets(*src);
        let (hdr_bytes, hdr) = match frame_header(<bytes::BytesMut as AsRef<[u8]>>::as_ref(src)) {
            Ok((pos, hdr)) => {
                let n_consumed = src.len() - pos.len();
                (n_consumed, hdr)
            },
            Err(ParseError::Incomplete) => return Ok(None),  // will try again once more has been read
            Err(ParseError::Malformed { offset }) => {
                assert(before.skip(0) =~= before);
                return Err(ParserError::Malformed { offset });
            },
        };

        if hdr.frame_length > src.len() - hdr_bytes {
            // will try again once more has been read
            return Ok(None);
        }
        take_frame(src, hdr_bytes, hdr)
    }
}

/// Takes the frame that `hdr` announces off the front of `src`: `hdr_bytes` of
/// header, and the body, all of which is buffered. The body is frozen and
/// parsed, and the frame that comes of it is handed out in its owned form:
/// every byte field a share of the frozen body, none of them copied.
fn take_frame(src: &mut bytes::BytesMut, hdr_bytes: usize, hdr: FrameHeader) -> (r: Result<
    Option<Frame<bytes::Bytes, bytes::Bytes>>,
    ParserError,
>)
    requires
        frame_header_spec(buffered_octets(*old(src))) == (Outcome::Parsed {
            value: hdr,
            consumed: hdr_bytes as nat,
        }),
        hdr_bytes + hdr.frame_length <= buffered_octets(*old(src)).len() <= usize::MAX,
    ensures
        decoded_as(buffered_octets(*old(src)), buffered_octets(*final(src)), r),
{
    let ghost before = buffered_octets(*src);
    src.advance(hdr_bytes);

    // the actual parsing
    let frame_bytes = src.split_to(hdr.frame_length).freeze();
    proof {
        assert(shared_octets(frame_bytes) =~= before.subrange(
            hdr_bytes as int,
            hdr_bytes + hdr.frame_length,
        ));
        assert(buffered_octets(*src) =~= before.skip(hdr_bytes + hdr.frame_length));
    }
    let (_, parsed_frame) = match frame_body(frame_bytes.as_ref(), &hdr) {
        Ok(v) => v,
        Err(e) => return Err(ParserError::in_frame(e, hdr_bytes, hdr.frame_length)),
    };
    let owned_frame = Frame::from_borrowed(&frame_bytes, parsed_frame);
    Ok(Some(owned_frame))
}

/// Decodes the frames of a connection's opening exchange. It reads a stream
/// as [`FrameParser`] does.
#[derive(Debug, Default)]
pub struct GreetingParser {}

impl GreetingParser {
    /// Tries to take one frame off the front of `src`, as
    /// [`FrameParser::decode`] does.
    pub fn decode(&mut self, src: &mut bytes::BytesMut) -> (r: Result<
        Option<Frame<bytes::Bytes, bytes::Bytes>>,
        ParserError,
    >)
        ensures
            decoded_as(buffered_octets(*old(src)), buffered_octets(*final(src)), r),
    {
        let ghost before = buffered_octets(*src);
        let header = filter_short_read(
            frame_header(<bytes::BytesMut as AsRef<[u8]>>::as_ref(src)),
        );
        let (hdr_bytes, hdr) = match header {
            Ok(Some((pos, hdr))) => (src.len() - pos.len(), hdr),
            Ok(None) => return Ok(None),
            Err(e) => {
                assert(before.skip(0) =~= before);
                return Err(e);
            },
        };
        if hdr.frame_length > src.len() - hdr_bytes {
            // will try again once more has been read
            Ok(None)
        } else {
            take_frame(src, hdr_bytes, hdr)
        }
    }
}

/// What a run of frames holds, as mathematical values.
pub open spec fn frame_views(frames: Seq<Frame<bytes::Bytes, bytes::Bytes>>) -> Seq<FrameView> {
    Seq::new(frames.len(), |i: int| frames[i]@)
}

/// What decoding as far as possible comes to: the frames in the order of
/// their bytes, the error that ended the stream if one did, and the bytes
/// that stay buffered.
pub struct Decoded {
    pub frames: Seq<FrameView>,
    pub error: Option<ParserError>,
    pub rest: Seq<u8>,
}

/// Decode attempts on `buf`, one after another, until one asks for more bytes
/// or fails.
pub open spec fn drain_spec(buf: Seq<u8>) -> Decoded
    decreases buf.len(),
{
    match decode_spec(buf) {
        Step::NeedMore => Decoded { frames: Seq::empty(), error: None, rest: buf },
        Step::Emit { frame, used } => {
            if 0 < used <= buf.len() {
                let later = drain_spec(buf.skip(used as int));
                Decoded { frames: seq![frame] + later.frames, error: later.error, rest: later.rest }
            } else {
                Decoded { frames: Seq::empty(), error: None, rest: buf }
            }
        },
        Step::Fail { error, used } => Decoded {
            frames: Seq::empty(),
            error: Some(error),
            rest: buf.skip(used as int),
        },
    }
}

/// The streaming decoder: an accumulation buffer, and nothing else.
#[derive(Debug)]
pub struct Parser {
    buffer: bytes::BytesMut,
}

impl View for Parser {
    type V = Seq<u8>;

    /// The bytes that are buffered: received, and not yet part of a frame
    /// that was handed out.
    closed spec fn view(&self) -> Seq<u8> {
        buffered_octets(self.buffer)
    }
}

impl Parser {
    /// A decoder with an empty buffer.
    pub fn new() -> (parser: Parser)
        ensures
            parser@ == Seq::<u8>::empty(),
    {
        Parser { buffer: bytes::BytesMut::new() }
    }

    /// The number of bytes that are buffered.
    pub fn buffered(&self) -> (n: usize)
        ensures
            n == self@.len(),
    {
        self.buffer.len()
    }

    /// Appends bytes that have arrived to the buffer.
    pub fn extend(&mut self, bytes: &[u8])
        requires
            old(self)@.len() + bytes@.len() <= isize::MAX,
        ensures
            final(self)@ == old(self)@ + bytes@,
    {
        self.buffer.extend_from_slice(bytes);
    }

    /// One decode attempt on what is buffered.
    pub fn decode(&mut self) -> (r: Result<Option<Frame<bytes::Bytes, bytes::Bytes>>, ParserError>)
        ensures
            decoded_as(old(self)@, final(self)@, r),
    {
        let mut frames = FrameParser {  };
        frames.decode(&mut self.buffer)
    }

    /// Appends `bytes` and decodes as far as that goes: the frames that are
    /// now complete, in the order of their bytes, and the error that ended the
    /// stream if one did. After an error the stream must not be fed again.
    pub fn feed(&mut self, bytes: &[u8]) -> (out: (
        Vec<Frame<bytes::Bytes, bytes::Bytes>>,
        Option<ParserError>,
    ))
        requires
            old(self)@.len() + bytes@.len() <= isize::MAX,
        ensures
            drain_spec(old(self)@ + bytes@) == (Decoded {
                frames: frame_views(out.0@),
                error: out.1,
                rest: final(self)@,
            }),
            forall|i: int| 0 <= i < out.0@.len() ==> (#[trigger] out.0@[i]).wf(),
    {
        self.extend(bytes);
        let ghost start = self@;
        let mut frames: Vec<Frame<bytes::Bytes, bytes::Bytes>> = Vec::new();
        proof {
            assert(frame_views(frames@) + drain_spec(self@).frames =~= drain_spec(start).frames);
        }
        loop
            invariant
                start == old(self)@ + bytes@,
                drain_spec(start).frames == frame_views(frames@) + drain_spec(self@).frames,
                drain_spec(start).error == drain_spec(self@).error,
                drain_spec(start).rest == drain_spec(self@).rest,
                forall|i: int| 0 <= i < frames@.len() ==> (#[trigger] frames@[i]).wf(),
            decreases self@.len(),
        {
            let ghost before = self@;
            let ghost sofar = frames@;
            match self.decode() {
                Ok(None) => {
                    proof {
                        assert(frame_views(frames@) + Seq::<FrameView>::empty() =~= frame_views(
                            frames@,
                        ));
                    }
                    return (frames, None);
                },
                Ok(Some(frame)) => {
                    frames.push(frame);
                    proof {
                        let later = drain_spec(self@);
                        assert(frame_views(frames@) =~= frame_views(sofar) + seq![frame@]);
                        assert(frame_views(sofar) + (seq![frame@] + later.frames) =~= frame_views(
                            frames@,
                        ) + later.frames);
                    }
                },
                Err(e) => {
                    proof {
                        assert(frame_views(frames@) + Seq::<FrameView>::empty() =~= frame_views(
                            frames@,
                        ));
                    }
                    return (frames, Some(e));
                },
            }
        }
    }
}

/// A header that announces more body than is buffered asks for more bytes,
/// whatever the buffered bytes are: an incomplete frame is never an error.
pub proof fn lemma_short_body_needs_more(buf: Seq<u8>)
    requires
        frame_header_spec(buf) matches Outcome::Parsed { value: hdr, consumed } && consumed
            + hdr.frame_length > buf.len(),
    ensures
        decode_spec(buf) is NeedMore,
{
}

/// A decode attempt takes nothing from the buffer unless all of a frame is
/// there, and then it takes that frame, header and body, and no more.
pub proof fn lemma_decode_takes_whole_frames(buf: Seq<u8>)
    ensures
        match decode_spec(buf) {
            Step::NeedMore => true,
            Step::Emit { used, .. } => frame_header_spec(buf) matches Outcome::Parsed {
                value: hdr,
                consumed,
            } && used == consumed + hdr.frame_length && 2 <= used <= buf.len(),
            Step::Fail { used, .. } => used <= buf.len(),
        },
{
}

/// What a decode attempt comes to does not change when bytes are appended,
/// once it is a frame or an error.
pub proof fn lemma_decode_stable(buf: Seq<u8>, more: Seq<u8>)
    requires
        !(decode_spec(buf) is NeedMore),
    ensures
        decode_spec(buf + more) == decode_spec(buf),
{
    lemma_header_stable(buf, more);
    match frame_header_spec(buf) {
        Outcome::Parsed { value: hdr, consumed } => {
            let total = consumed + hdr.frame_length as nat;
            assert((buf + more).subrange(consumed as int, total as int) =~= buf.subrange(
                consumed as int,
                total as int,
            ));
        },
        _ => {},
    }
}

/// Decoding a buffer with bytes appended is decoding the buffer, and then
/// what that left with the bytes appended; or, where the buffer already holds
/// an error, what decoding the buffer alone comes to.
pub proof fn lemma_drain_append(buf: Seq<u8>, more: Seq<u8>)
    ensures
        drain_spec(buf).error is Some ==> drain_spec(buf + more).frames == drain_spec(buf).frames
            && drain_spec(buf + more).error == drain_spec(buf).error,
        drain_spec(buf).error is None ==> drain_spec(buf + more) == (Decoded {
            frames: drain_spec(buf).frames + drain_spec(drain_spec(buf).rest + more).frames,
            error: drain_spec(drain_spec(buf).rest + more).error,
            rest: drain_spec(drain_spec(buf).rest + more).rest,
        }),
    decreases buf.len(),
{
    lemma_decode_takes_whole_frames(buf);
    match decode_spec(buf) {
        Step::NeedMore => {
            assert(Seq::<FrameView>::empty() + drain_spec(buf + more).frames =~= drain_spec(
                buf + more,
            ).frames);
        },
        Step::Emit { frame, used } => {
            lemma_decode_stable(buf, more);
            let tail = buf.skip(used as int);
            assert((buf + more).skip(used as int) =~= tail + more);
            lemma_drain_append(tail, more);
            if drain_spec(buf).error is None {
                let again = drain_spec(drain_spec(tail).rest + more);
                assert(seq![frame] + (drain_spec(tail).frames + again.frames) =~= (seq![frame]
                    + drain_spec(tail).frames) + again.frames);
            }
        },
        Step::Fail { error, used } => {
            lemma_decode_stable(buf, more);
        },
    }
}

/// What a decoder has made of a stream so far: the frames it has handed out,
/// the error that ended the stream if one did, and what it has buffered.
/// Feeding it the next chunk decodes as far as that goes; after an error
/// nothing is fed any more.
pub open spec fn feed_spec(state: Decoded, chunk: Seq<u8>) -> Decoded {
    if state.error is Some {
        state
    } else {
        let next = drain_spec(state.rest + chunk);
        Decoded { frames: state.frames + next.frames, error: next.error, rest: next.rest }
    }
}

/// What a decoder that starts empty makes of a stream that arrives as
/// `chunks`, fed one by one.
pub open spec fn feed_all_spec(chunks: Seq<Seq<u8>>) -> Decoded
    decreases chunks.len(),
{
    if chunks.len() == 0 {
        Decoded { frames: Seq::empty(), error: None, rest: Seq::empty() }
    } else {
        feed_spec(feed_all_spec(chunks.drop_last()), chunks.last())
    }
}

/// The stream that `chunks` are the pieces of.
pub open spec fn joined(chunks: Seq<Seq<u8>>) -> Seq<u8>
    decreases chunks.len(),
{
    if chunks.len() == 0 {
        Seq::empty()
    } else {
        joined(chunks.drop_last()) + chunks.last()
    }
}

/// Where a stream is cut into chunks does not matter: fed chunk by chunk, a
/// decoder hands out the frames, and ends in the error if there is one, that
/// it hands out when it is fed the whole stream at once. While there is no
/// error it also has the same bytes left in its buffer.
pub proof fn lemma_chunking_does_not_matter(chunks: Seq<Seq<u8>>)
    ensures
        feed_all_spec(chunks).frames == drain_spec(joined(chunks)).frames,
        feed_all_spec(chunks).error == drain_spec(joined(chunks)).error,
        feed_all_spec(chunks).error is None ==> feed_all_spec(chunks).rest == drain_spec(
            joined(chunks),
        ).rest,
    decreases chunks.len(),
{
    if chunks.len() == 0 {
        assert(joined(chunks) =~= Seq::<u8>::empty());
        assert(decode_spec(Seq::<u8>::empty()) is NeedMore);
    } else {
        lemma_chunking_does_not_matter(chunks.drop_last());
        lemma_drain_append(joined(chunks.drop_last()), chunks.last());
    }
}

} // verus!
