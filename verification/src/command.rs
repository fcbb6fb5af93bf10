//! Command frames: the six control operations and their bodies.

use crate::frame::FrameHeader;
use crate::metadata::{lemma_meta_data_stable, meta_data, meta_data_spec};
use crate::octets::{same_bytes, Borrowed, ByteSlice, Octets};
use crate::reader::{be16, be_u16, be_u8, parsed_as, take, Outcome, ParseError};
use crate::shared::shared_octets;
use vstd::prelude::*;

pub use crate::metadata::MetaData;

verus! {

/// The body of a PING: a time-to-live and an opaque context.
#[derive(Debug, Clone)]
pub struct Ping<T> {
    pub ttl: u16,
    pub context: T,
}

/// The body of a PONG: the context of the PING it answers.
#[derive(Debug, Clone)]
pub struct Pong<T> {
    pub context: T,
}

/// What a PING holds, as a mathematical value.
pub struct PingView {
    pub ttl: u16,
    pub context: Seq<u8>,
}

impl<T: Octets> View for Ping<T> {
    type V = PingView;

    open spec fn view(&self) -> PingView {
        PingView { ttl: self.ttl, context: self.context.octets() }
    }
}

impl<T: Octets> View for Pong<T> {
    type V = Seq<u8>;

    open spec fn view(&self) -> Seq<u8> {
        self.context.octets()
    }
}

/// A control operation, as a command frame carries it.
#[derive(Debug, Clone)]
pub enum Command<S, T> {
    /// The peer is ready; its properties.
    READY(MetaData<S, T>),
    /// The peer gives up; the reason.
    ERROR(ByteSlice<T>),
    /// The peer subscribes to a topic.
    SUBSCRIBE(ByteSlice<T>),
    /// The peer cancels its subscription to a topic.
    CANCEL(ByteSlice<T>),
    /// The peer asks whether this side is alive.
    PING(Ping<T>),
    /// The peer answers a PING.
    PONG(Pong<T>),
}

/// What a command holds, as a mathematical value.
pub enum CommandView {
    READY(Map<Seq<u8>, Seq<u8>>),
    ERROR(Seq<u8>),
    SUBSCRIBE(Seq<u8>),
    CANCEL(Seq<u8>),
    PING(PingView),
    PONG(Seq<u8>),
}

impl<S: Octets, T: Octets> View for Command<S, T> {
    type V = CommandView;

    open spec fn view(&self) -> CommandView {
        match self {
            Command::READY(meta_data) => CommandView::READY(meta_data@),
            Command::ERROR(reason) => CommandView::ERROR(reason@),
            Command::SUBSCRIBE(topic) => CommandView::SUBSCRIBE(topic@),
            Command::CANCEL(topic) => CommandView::CANCEL(topic@),
            Command::PING(ping) => CommandView::PING(ping@),
            Command::PONG(pong) => CommandView::PONG(pong@),
        }
    }
}

impl<S: Octets, T: Octets> Command<S, T> {
    /// No property name of a READY occurs twice.
    pub open spec fn wf(&self) -> bool {
        self matches Command::READY(meta_data) ==> meta_data.wf()
    }
}

impl<'a> Command<Borrowed<'a>, Borrowed<'a>> {
    /// Whether every byte field is a part of `input`, which starts `origin`
    /// bytes into what the offsets count from.
    pub open spec fn cut_at(&self, input: Seq<u8>, origin: nat) -> bool {
        match self {
            Command::READY(meta_data) => meta_data.cut_at(input, origin),
            Command::ERROR(reason) => reason.0.cut_at(input, origin),
            Command::SUBSCRIBE(topic) => topic.0.cut_at(input, origin),
            Command::CANCEL(topic) => topic.0.cut_at(input, origin),
            Command::PING(ping) => ping.context.cut_at(input, origin),
            Command::PONG(pong) => pong.context.cut_at(input, origin),
        }
    }

    /// Whether every byte field was cut from `base` at the offset it remembers.
    pub open spec fn cut_from(&self, base: Seq<u8>) -> bool {
        self.cut_at(base, 0)
    }

    /// A command cut from a part of `whole` is cut from `whole`.
    pub proof fn lemma_cut_wider(&self, input: Seq<u8>, whole: Seq<u8>, origin: nat, k: nat)
        requires
            k + input.len() <= whole.len(),
            input == whole.subrange(k as int, k as int + input.len()),
            self.cut_at(input, origin + k),
        ensures
            self.cut_at(whole, origin),
    {
        match self {
            Command::READY(meta_data) => meta_data.lemma_cut_wider(input, whole, origin, k),
            Command::ERROR(reason) => reason.0.lemma_cut_wider(input, whole, origin, k),
            Command::SUBSCRIBE(topic) => topic.0.lemma_cut_wider(input, whole, origin, k),
            Command::CANCEL(topic) => topic.0.lemma_cut_wider(input, whole, origin, k),
            Command::PING(ping) => ping.context.lemma_cut_wider(input, whole, origin, k),
            Command::PONG(pong) => pong.context.lemma_cut_wider(input, whole, origin, k),
        }
    }
}

impl Ping<bytes::Bytes> {
    /// The owned form of `subset`: its context as a share of `buffer`.
    pub fn from_borrowed(buffer: &bytes::Bytes, subset: Ping<Borrowed<'_>>) -> (owned: Self)
        requires
            subset.context.cut_from(shared_octets(*buffer)),
        ensures
            owned@ == subset@,
    {
        Ping { context: subset.context.to_shared(buffer), ttl: subset.ttl }
    }
}

impl Pong<bytes::Bytes> {
    /// The owned form of `subset`: its context as a share of `buffer`.
    pub fn from_borrowed(buffer: &bytes::Bytes, subset: Pong<Borrowed<'_>>) -> (owned: Self)
        requires
            subset.context.cut_from(shared_octets(*buffer)),
        ensures
            owned@ == subset@,
    {
        Pong { context: subset.context.to_shared(buffer) }
    }
}

impl Command<bytes::Bytes, bytes::Bytes> {
    /// The owned form of `cmd`: every byte field as a share of `buffer`, which
    /// the command was parsed from. No byte is copied.
    pub fn from_borrowed(
        buffer: &bytes::Bytes,
        cmd: Command<Borrowed<'_>, Borrowed<'_>>,
    ) -> (owned: Self)
        requires
            cmd.cut_from(shared_octets(*buffer)),
        ensures
            owned@ == cmd@,
            owned.wf() == cmd.wf(),
    {
        match cmd {
            Command::READY(meta_data) => Command::READY(MetaData::from_borrowed(buffer, meta_data)),
            Command::ERROR(slice) => Command::ERROR(ByteSlice::from_borrowed(buffer, slice)),
            Command::SUBSCRIBE(slice) => Command::SUBSCRIBE(
                ByteSlice::from_borrowed(buffer, slice),
            ),
            Command::CANCEL(slice) => Command::CANCEL(ByteSlice::from_borrowed(buffer, slice)),
            Command::PING(ping) => Command::PING(Ping::from_borrowed(buffer, ping)),
            Command::PONG(pong) => Command::PONG(Pong::from_borrowed(buffer, pong)),
        }
    }
}

/// The six commands, by name.
#[derive(Debug, Clone, Copy, PartialEq, Eq, Structural)]
pub enum CommandKind {
    READY,
    ERROR,
    SUBSCRIBE,
    CANCEL,
    PING,
    PONG,
}

impl CommandKind {
    /// The command's name on the wire: the ASCII letters of the variant's name.
    pub open spec fn name(self) -> Seq<u8> {
        match self {
            CommandKind::READY => seq![0x52u8, 0x45u8, 0x41u8, 0x44u8, 0x59u8],
            CommandKind::ERROR => seq![0x45u8, 0x52u8, 0x52u8, 0x4fu8, 0x52u8],
            CommandKind::SUBSCRIBE => seq![
                0x53u8, 0x55u8, 0x42u8, 0x53u8, 0x43u8, 0x52u8, 0x49u8, 0x42u8, 0x45u8,
            ],
            CommandKind::CANCEL => seq![0x43u8, 0x41u8, 0x4eu8, 0x43u8, 0x45u8, 0x4cu8],
            CommandKind::PING => seq![0x50u8, 0x49u8, 0x4eu8, 0x47u8],
            CommandKind::PONG => seq![0x50u8, 0x4fu8, 0x4eu8, 0x47u8],
        }
    }
}

/// The command that `name` names, if it names one. The match is exact, byte
/// for byte.
pub open spec fn command_kind(name: Seq<u8>) -> Option<CommandKind> {
    if name == CommandKind::READY.name() {
        Some(CommandKind::READY)
    } else if name == CommandKind::ERROR.name() {
        Some(CommandKind::ERROR)
    } else if name == CommandKind::SUBSCRIBE.name() {
        Some(CommandKind::SUBSCRIBE)
    } else if name == CommandKind::CANCEL.name() {
        Some(CommandKind::CANCEL)
    } else if name == CommandKind::PING.name() {
        Some(CommandKind::PING)
    } else if name == CommandKind::PONG.name() {
        Some(CommandKind::PONG)
    } else {
        None
    }
}

/// Looks `name` up among the six command names.
pub fn lookup_command(name: &[u8]) -> (kind: Option<CommandKind>)
    ensures
        kind == command_kind(name@),
{
    let ready: [u8; 5] = [0x52, 0x45, 0x41, 0x44, 0x59];
    let error: [u8; 5] = [0x45, 0x52, 0x52, 0x4f, 0x52];
    let subscribe: [u8; 9] = [0x53, 0x55, 0x42, 0x53, 0x43, 0x52, 0x49, 0x42, 0x45];
    let cancel: [u8; 6] = [0x43, 0x41, 0x4e, 0x43, 0x45, 0x4c];
    let ping: [u8; 4] = [0x50, 0x49, 0x4e, 0x47];
    let pong: [u8; 4] = [0x50, 0x4f, 0x4e, 0x47];
    proof {
        assert(ready@ =~= CommandKind::READY.name());
        assert(error@ =~= CommandKind::ERROR.name());
        assert(subscribe@ =~= CommandKind::SUBSCRIBE.name());
        assert(cancel@ =~= CommandKind::CANCEL.name());
        assert(ping@ =~= CommandKind::PING.name());
        assert(pong@ =~= CommandKind::PONG.name());
    }
    if same_bytes(name, ready.as_slice()) {
        Some(CommandKind::READY)
    } else if same_bytes(name, error.as_slice()) {
        Some(CommandKind::ERROR)
    } else if same_bytes(name, subscribe.as_slice()) {
        Some(CommandKind::SUBSCRIBE)
    } else if same_bytes(name, cancel.as_slice()) {
        Some(CommandKind::CANCEL)
    } else if same_bytes(name, ping.as_slice()) {
        Some(CommandKind::PING)
    } else if same_bytes(name, pong.as_slice()) {
        Some(CommandKind::PONG)
    } else {
        None
    }
}

/// No command name is longer than this many bytes.
pub const MAX_COMMAND_NAME_LEN: u8 = 10;

/// The body of a READY: metadata that takes exactly `data_len` bytes.
pub open spec fn ready_spec(s: Seq<u8>, data_len: nat) -> Outcome<CommandView> {
    match meta_data_spec(s, data_len) {
        Outcome::Parsed { value, consumed } => Outcome::Parsed {
            value: CommandView::READY(value),
            consumed,
        },
        other => other.failure(0),
    }
}

/// The body of an ERROR: one octet of length, then that many bytes of reason.
pub open spec fn error_spec(s: Seq<u8>) -> Outcome<CommandView> {
    if s.len() < 1 {
        Outcome::Incomplete
    } else if s.len() < 1 + s[0] {
        Outcome::Incomplete
    } else {
        Outcome::Parsed {
            value: CommandView::ERROR(s.subrange(1, 1 + s[0] as int)),
            consumed: 1 + s[0] as nat,
        }
    }
}

/// A topic: all of the `len` bytes that the body has left.
pub open spec fn subscription_spec(s: Seq<u8>, len: nat) -> Outcome<Seq<u8>> {
    if s.len() < len {
        Outcome::Incomplete
    } else {
        Outcome::Parsed { value: s.take(len as int), consumed: len }
    }
}

/// The body of a SUBSCRIBE: the topic, `data_len` bytes long.
pub open spec fn subscribe_spec(s: Seq<u8>, data_len: nat) -> Outcome<CommandView> {
    match subscription_spec(s, data_len) {
        Outcome::Parsed { value, consumed } => Outcome::Parsed {
            value: CommandView::SUBSCRIBE(value),
            consumed,
        },
        other => other.failure(0),
    }
}

/// The body of a CANCEL: the topic, `data_len` bytes long.
pub open spec fn cancel_spec(s: Seq<u8>, data_len: nat) -> Outcome<CommandView> {
    match subscription_spec(s, data_len) {
        Outcome::Parsed { value, consumed } => Outcome::Parsed {
            value: CommandView::CANCEL(value),
            consumed,
        },
        other => other.failure(0),
    }
}

/// The body of a PING, `data_len` bytes long: two octets of time-to-live,
/// big-endian, and a context of at least one byte. A body of two bytes or
/// fewer is refused.
pub open spec fn ping_spec(s: Seq<u8>, data_len: nat) -> Outcome<CommandView> {
    if data_len <= 2 {
        Outcome::Malformed { offset: 0 }
    } else if s.len() < data_len {
        Outcome::Incomplete
    } else {
        Outcome::Parsed {
            value: CommandView::PING(
                PingView { ttl: be16(s) as u16, context: s.subrange(2, data_len as int) },
            ),
            consumed: data_len,
        }
    }
}

/// The body of a PONG: the context, `data_len` bytes long.
pub open spec fn pong_spec(s: Seq<u8>, data_len: nat) -> Outcome<CommandView> {
    if s.len() < data_len {
        Outcome::Incomplete
    } else {
        Outcome::Parsed { value: CommandView::PONG(s.take(data_len as int)), consumed: data_len }
    }
}

/// The body of a command of the given kind, for which `data_len` bytes are
/// declared.
pub open spec fn command_body_spec(kind: CommandKind, s: Seq<u8>, data_len: nat) -> Outcome<
    CommandView,
> {
    match kind {
        CommandKind::READY => ready_spec(s, data_len),
        CommandKind::ERROR => error_spec(s),
        CommandKind::SUBSCRIBE => subscribe_spec(s, data_len),
        CommandKind::CANCEL => cancel_spec(s, data_len),
        CommandKind::PING => ping_spec(s, data_len),
        CommandKind::PONG => pong_spec(s, data_len),
    }
}

/// The command at the front of `s`, the body of a frame whose header declares
/// `frame_length` bytes: one octet of name length, the name, and the body that
/// goes with the name, for which `frame_length - 1 - len(name)` bytes are
/// declared.
///
/// A name length above [`MAX_COMMAND_NAME_LEN`] is refused at the name, before
/// any byte of it is looked at; a name that does not fit in `frame_length` is
/// refused at the length octet; an unknown name is refused at the name.
#[verifier::opaque]
pub open spec fn command_spec(s: Seq<u8>, frame_length: nat) -> Outcome<CommandView> {
    if s.len() < 1 {
        Outcome::Incomplete
    } else {
        let n = s[0] as int;
        if n > MAX_COMMAND_NAME_LEN {
            Outcome::Malformed { offset: 1 }
        } else if frame_length < 1 + n {
            Outcome::Malformed { offset: 0 }
        } else if s.len() < 1 + n {
            Outcome::Incomplete
        } else {
            match command_kind(s.subrange(1, 1 + n)) {
                None => Outcome::Malformed { offset: 1 },
                Some(kind) => command_body_spec(
                    kind,
                    s.skip(1 + n),
                    (frame_length - 1 - n) as nat,
                ).after((1 + n) as nat),
            }
        }
    }
}

/// Once the body of a command has been parsed or refused, bytes that follow
/// change nothing.
pub proof fn lemma_command_body_stable(kind: CommandKind, s: Seq<u8>, more: Seq<u8>, data_len: nat)
    requires
        !(command_body_spec(kind, s, data_len) is Incomplete),
    ensures
        command_body_spec(kind, s + more, data_len) == command_body_spec(kind, s, data_len),
{
    let longer = s + more;
    match kind {
        CommandKind::READY => {
            lemma_meta_data_stable(s, more, data_len);
        },
        CommandKind::ERROR => {
            assert(longer[0] == s[0]);
            assert(longer.subrange(1, 1 + s[0] as int) =~= s.subrange(1, 1 + s[0] as int));
        },
        CommandKind::PING => {
            if data_len > 2 {
                assert(longer[0] == s[0] && longer[1] == s[1]);
                assert(longer.subrange(2, data_len as int) =~= s.subrange(2, data_len as int));
            }
        },
        _ => {
            assert(longer.take(data_len as int) =~= s.take(data_len as int));
        },
    }
}

/// Once a command has been parsed or refused, bytes that follow change
/// nothing: only an incomplete command is still open.
pub proof fn lemma_command_stable(s: Seq<u8>, more: Seq<u8>, frame_length: nat)
    requires
        !(command_spec(s, frame_length) is Incomplete),
    ensures
        command_spec(s + more, frame_length) == command_spec(s, frame_length),
{
    reveal(command_spec);
    let longer = s + more;
    let n = s[0] as int;
    assert(longer[0] == s[0]);
    if n <= MAX_COMMAND_NAME_LEN && frame_length >= 1 + n {
        assert(longer.subrange(1, 1 + n) =~= s.subrange(1, 1 + n));
        assert(longer.skip(1 + n) =~= s.skip(1 + n) + more);
        if let Some(kind) = command_kind(s.subrange(1, 1 + n)) {
            lemma_command_body_stable(kind, s.skip(1 + n), more, (frame_length - 1 - n) as nat);
        }
    }
}

/// Parses a command from the front of `input`, the body of a frame with the
/// header `hdr`. The offsets of the byte fields count from the start of `input`.
pub fn command<'a>(input: &'a [u8], hdr: &FrameHeader) -> (r: Result<
    (&'a [u8], Command<Borrowed<'a>, Borrowed<'a>>),
    ParseError,
>)
    ensures
        match r {
            Ok((rest, cmd)) => {
                &&& parsed_as(command_spec(input@, hdr.frame_length as nat), cmd@, input@, rest@)
                &&& cmd.wf()
                &&& cmd.cut_from(input@)
            },
            Err(e) => e.reports(command_spec(input@, hdr.frame_length as nat)) && e.within(
                input@.len(),
            ),
        },
{
    proof {
        reveal(command_spec);
    }
    let (after_len, cmd_name_len) = match be_u8(input) {
        Ok(v) => v,
        Err(e) => return Err(e.at(0)),
    };

    // sanity check: no command name is that long
    if cmd_name_len > MAX_COMMAND_NAME_LEN {
        return Err(ParseError::Malformed { offset: 1 });
    }
    let name_len = cmd_name_len as usize;
    if hdr.frame_length < 1 + name_len {
        return Err(ParseError::Malformed { offset: 0 });
    }
    let (remaining, cmd_name) = match take(after_len, name_len) {
        Ok(v) => v,
        Err(e) => return Err(e.at(1)),
    };
    let data_len = hdr.frame_length - 1 - name_len;
    let base = 1 + name_len;
    proof {
        assert(input@.len() == input.len());
        assert(cmd_name@ == input@.subrange(1, 1 + name_len));
        assert(remaining@ == input@.skip(1 + name_len));
        assert(remaining@ == input@.subrange(base as int, base as int + remaining@.len()));
    }

    let kind = match lookup_command(cmd_name) {
        Some(kind) => kind,
        None => return Err(ParseError::Malformed { offset: 1 }),
    };
    let parsed = match kind {
        CommandKind::READY => command_ready_meta_data(remaining, data_len, base),
        CommandKind::ERROR => command_error_reason(remaining, base),
        CommandKind::SUBSCRIBE => command_subscribe_subscription(remaining, data_len, base),
        CommandKind::CANCEL => command_cancel_subscription(remaining, data_len, base),
        CommandKind::PING => command_ping(remaining, data_len, base),
        CommandKind::PONG => command_pong(remaining, data_len, base),
    };
    let ghost body = command_body_spec(kind, remaining@, data_len as nat);
    assert(command_spec(input@, hdr.frame_length as nat) == body.after(base as nat));
    match parsed {
        Ok((rest, cmd)) => {
            proof {
                assert(parsed_as(body, cmd@, remaining@, rest@));
                cmd.lemma_cut_wider(remaining@, input@, 0, base as nat);
                let used = body->consumed as int;
                assert(remaining@.skip(used) =~= input@.skip(base + used));
            }
            Ok((rest, cmd))
        },
        Err(e) => {
            assert(e.reports(body));
            Err(e.shifted(base))
        },
    }
}

fn command_ready_meta_data<'a>(input: &'a [u8], data_len: usize, base: usize) -> (r: Result<
    (&'a [u8], Command<Borrowed<'a>, Borrowed<'a>>),
    ParseError,
>)
    requires
        base + input@.len() <= usize::MAX,
    ensures
        match r {
            Ok((rest, cmd)) => {
                &&& parsed_as(ready_spec(input@, data_len as nat), cmd@, input@, rest@)
                &&& cmd.wf()
                &&& cmd.cut_at(input@, base as nat)
            },
            Err(e) => e.reports(ready_spec(input@, data_len as nat)) && e.within(input@.len()),
        },
{
    match meta_data(input, data_len, base) {
        Ok((rest, md)) => Ok((rest, Command::READY(md))),
        Err(e) => Err(e),
    }
}

/// Error command
///
/// error-reason = short-size 0*255VCHAR
fn command_error_reason<'a>(input: &'a [u8], base: usize) -> (r: Result<
    (&'a [u8], Command<Borrowed<'a>, Borrowed<'a>>),
    ParseError,
>)
    requires
        base + input@.len() <= usize::MAX,
    ensures
        match r {
            Ok((rest, cmd)) => {
                &&& parsed_as(error_spec(input@), cmd@, input@, rest@)
                &&& cmd.wf()
                &&& cmd.cut_at(input@, base as nat)
            },
            Err(e) => e.reports(error_spec(input@)) && e.within(input@.len()),
        },
{
    let (after_len, len) = match be_u8(input) {
        Ok(v) => v,
        Err(e) => return Err(e.at(0)),
    };
    let (rest, error_txt) = match take(after_len, len as usize) {
        Ok(v) => v,
        Err(e) => return Err(e.at(1)),
    };
    proof {
        assert(error_txt@ == input@.subrange(1, 1 + len));
        assert(rest@ == input@.skip(1 + len));
    }
    Ok((rest, Command::ERROR(ByteSlice(Borrowed { bytes: error_txt, offset: base + 1 }))))
}

/// Subscribe
///
/// subscription = *OCTET
fn subscription<'a>(input: &'a [u8], len: usize, base: usize) -> (r: Result<
    (&'a [u8], Borrowed<'a>),
    ParseError,
>)
    requires
        base + input@.len() <= usize::MAX,
    ensures
        match r {
            Ok((rest, topic)) => {
                &&& parsed_as(subscription_spec(input@, len as nat), topic.octets(), input@, rest@)
                &&& topic.cut_at(input@, base as nat)
            },
            Err(e) => e.reports(subscription_spec(input@, len as nat)) && e.within(input@.len()),
        },
{
    let (rest, channel_name) = match take(input, len) {
        Ok(v) => v,
        Err(e) => return Err(e.at(0)),
    };
    Ok((rest, Borrowed { bytes: channel_name, offset: base }))
}

fn command_subscribe_subscription<'a>(input: &'a [u8], data_len: usize, base: usize) -> (r: Result<
    (&'a [u8], Command<Borrowed<'a>, Borrowed<'a>>),
    ParseError,
>)
    requires
        base + input@.len() <= usize::MAX,
    ensures
        match r {
            Ok((rest, cmd)) => {
                &&& parsed_as(subscribe_spec(input@, data_len as nat), cmd@, input@, rest@)
                &&& cmd.wf()
                &&& cmd.cut_at(input@, base as nat)
            },
            Err(e) => e.reports(subscribe_spec(input@, data_len as nat)) && e.within(input@.len()),
        },
{
    match subscription(input, data_len, base) {
        Ok((rest, channel_name)) => Ok((rest, Command::SUBSCRIBE(ByteSlice(channel_name)))),
        Err(e) => Err(e),
    }
}

fn command_cancel_subscription<'a>(input: &'a [u8], data_len: usize, base: usize) -> (r: Result<
    (&'a [u8], Command<Borrowed<'a>, Borrowed<'a>>),
    ParseError,
>)
    requires
        base + input@.len() <= usize::MAX,
    ensures
        match r {
            Ok((rest, cmd)) => {
                &&& parsed_as(cancel_spec(input@, data_len as nat), cmd@, input@, rest@)
                &&& cmd.wf()
                &&& cmd.cut_at(input@, base as nat)
            },
            Err(e) => e.reports(cancel_spec(input@, data_len as nat)) && e.within(input@.len()),
        },
{
    match subscription(input, data_len, base) {
        Ok((rest, channel_name)) => Ok((rest, Command::CANCEL(ByteSlice(channel_name)))),
        Err(e) => Err(e),
    }
}

/// Ping command
/// ping = command-size %d4 "PING" ping-ttl ping-context
/// ping-ttl = 2OCTET
/// ping-context = *OCTET
fn command_ping<'a>(input: &'a [u8], data_len: usize, base: usize) -> (r: Result<
    (&'a [u8], Command<Borrowed<'a>, Borrowed<'a>>),
    ParseError,
>)
    requires
        base + input@.len() <= usize::MAX,
    ensures
        match r {
            Ok((rest, cmd)) => {
                &&& parsed_as(ping_spec(input@, data_len as nat), cmd@, input@, rest@)
                &&& cmd.wf()
                &&& cmd.cut_at(input@, base as nat)
            },
            Err(e) => e.reports(ping_spec(input@, data_len as nat)) && e.within(input@.len()),
        },
{
    if data_len <= 2 {
        return Err(ParseError::Malformed { offset: 0 });
    }
    let (after_ttl, ttl) = match be_u16(input) {
        Ok(v) => v,
        Err(e) => return Err(e.at(0)),
    };
    let (rest, context) = match take(after_ttl, data_len - 2) {
        Ok(v) => v,
        Err(e) => return Err(e.at(2)),
    };
    proof {
        assert(context@ == input@.subrange(2, data_len as int));
        assert(rest@ == input@.skip(data_len as int));
    }
    Ok((rest, Command::PING(Ping { ttl, context: Borrowed { bytes: context, offset: base + 2 } })))
}

fn command_pong<'a>(input: &'a [u8], data_len: usize, base: usize) -> (r: Result<
    (&'a [u8], Command<Borrowed<'a>, Borrowed<'a>>),
    ParseError,
>)
    requires
        base + input@.len() <= usize::MAX,
    ensures
        match r {
            Ok((rest, cmd)) => {
                &&& parsed_as(pong_spec(input@, data_len as nat), cmd@, input@, rest@)
                &&& cmd.wf()
                &&& cmd.cut_at(input@, base as nat)
            },
            Err(e) => e.reports(pong_spec(input@, data_len as nat)) && e.within(input@.len()),
        },
{
    let (rest, context) = match take(input, data_len) {
        Ok(v) => v,
        Err(e) => return Err(e.at(0)),
    };
    Ok((rest, Command::PONG(Pong { context: Borrowed { bytes: context, offset: base } })))
}

} // verus!
