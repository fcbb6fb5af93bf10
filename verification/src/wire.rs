//! The wire format written down a second time, from values to bytes, and the
//! proof that the parsers read back what it writes.
//!
//! Nothing here runs: the encoders are mathematical functions. They pin the
//! parsers down from the other side: whatever bytes stand for a value by the
//! layout of the protocol, the parsers make that value of them, and take
//! exactly those bytes.

use crate::command::{
    command_body_spec, command_kind, command_spec, CommandKind, CommandView, PingView,
};
use crate::decoder::{decode_spec, Step};
use crate::frame::{
    frame_body_spec, frame_header_spec, frame_spec, FrameFlags, FrameHeader, FrameView,
};
use crate::greeting::{
    filler_field, greeting_spec, mechanism_field, mechanism_named, Greeting, SecurityMechanism,
};
use crate::metadata::{meta_data_spec, pairs_map, properties_spec, property_spec};
use crate::reader::{bad_name_char_within, be16, be32, be64, differ_within, name_char, Outcome};
use vstd::prelude::*;

verus! {

/// The 64 octets of a greeting. `padding` is the eight octets inside the
/// signature, which a reader ignores.
pub open spec fn encode_greeting(greeting: Greeting, padding: Seq<u8>) -> Seq<u8>
    recommends
        padding.len() == 8,
{
    seq![0xffu8] + padding + seq![0x7fu8, greeting.version.major, greeting.version.minor]
        + mechanism_field(greeting.mechanism) + seq![if greeting.as_server { 1u8 } else { 0u8 }]
        + filler_field()
}

/// The three padded mechanism names differ, so each names its mechanism.
pub proof fn lemma_mechanism_round_trip(mechanism: SecurityMechanism)
    ensures
        mechanism_field(mechanism).len() == 20,
        mechanism_named(mechanism_field(mechanism)) == Some(mechanism),
{
    let null = mechanism_field(SecurityMechanism::NULL);
    let plain = mechanism_field(SecurityMechanism::PLAIN);
    let curve = mechanism_field(SecurityMechanism::CURVE);
    assert(null[0] == 0x4e && plain[0] == 0x50 && curve[0] == 0x43);
}

/// Reading a greeting that was written gives the greeting back, and takes
/// its 64 octets, whatever the padding was and whatever follows.
pub proof fn lemma_greeting_round_trip(greeting: Greeting, padding: Seq<u8>, rest: Seq<u8>)
    requires
        padding.len() == 8,
    ensures
        encode_greeting(greeting, padding).len() == 64,
        greeting_spec(encode_greeting(greeting, padding) + rest) == (Outcome::Parsed {
            value: greeting,
            consumed: 64,
        }),
{
    lemma_mechanism_round_trip(greeting.mechanism);
    let s = encode_greeting(greeting, padding) + rest;
    assert(s[0] == 0xff);
    assert(s[9] == 0x7f);
    assert(s.skip(10)[0] == greeting.version.major);
    assert(s.skip(10)[1] == greeting.version.minor);
    assert(s.skip(12).take(20) =~= mechanism_field(greeting.mechanism));
    assert(s.skip(32)[0] == if greeting.as_server { 1u8 } else { 0u8 });
    assert(!differ_within(s.skip(33), filler_field())) by {
        assert forall|i: int| 0 <= i < s.skip(33).len() && i < filler_field().len() implies s.skip(
            33,
        )[i] == filler_field()[i] by {
            assert(s.skip(33)[i] == s[33 + i]);
        }
    }
}

/// The flag octet of a header: bit 0 for more frames to follow, bit 1 for a
/// long length, bit 2 for a command. The other bits are zero.
pub open spec fn flags_byte(flags: FrameFlags) -> u8 {
    ((if flags.more_frames_to_follow { 1int } else { 0int }) + (if flags.is_long {
        2int
    } else {
        0int
    }) + (if flags.is_command { 4int } else { 0int })) as u8
}

/// Reading a flag octet that was written gives the flags back.
pub proof fn lemma_flags_round_trip(flags: FrameFlags)
    ensures
        FrameFlags::spec_from_byte(flags_byte(flags)) == flags,
{
    assert(0u8 & 1 == 0 && 0u8 & 2 == 0 && 0u8 & 4 == 0) by (bit_vector);
    assert(1u8 & 1 != 0 && 1u8 & 2 == 0 && 1u8 & 4 == 0) by (bit_vector);
    assert(2u8 & 1 == 0 && 2u8 & 2 != 0 && 2u8 & 4 == 0) by (bit_vector);
    assert(3u8 & 1 != 0 && 3u8 & 2 != 0 && 3u8 & 4 == 0) by (bit_vector);
    assert(4u8 & 1 == 0 && 4u8 & 2 == 0 && 4u8 & 4 != 0) by (bit_vector);
    assert(5u8 & 1 != 0 && 5u8 & 2 == 0 && 5u8 & 4 != 0) by (bit_vector);
    assert(6u8 & 1 == 0 && 6u8 & 2 != 0 && 6u8 & 4 != 0) by (bit_vector);
    assert(7u8 & 1 != 0 && 7u8 & 2 != 0 && 7u8 & 4 != 0) by (bit_vector);
}

/// A number below 2^16 in two octets, most significant first.
pub open spec fn be_bytes2(v: nat) -> Seq<u8> {
    seq![(v / 0x100 % 0x100) as u8, (v % 0x100) as u8]
}

/// A number below 2^32 in four octets, most significant first.
pub open spec fn be_bytes4(v: nat) -> Seq<u8> {
    seq![
        (v / 0x100_0000 % 0x100) as u8,
        (v / 0x1_0000 % 0x100) as u8,
        (v / 0x100 % 0x100) as u8,
        (v % 0x100) as u8,
    ]
}

/// A number below 2^64 in eight octets, most significant first.
pub open spec fn be_bytes8(v: nat) -> Seq<u8> {
    be_bytes4(v / 0x1_0000_0000) + be_bytes4(v % 0x1_0000_0000)
}

/// Reading a big-endian number that was written gives the number back.
pub proof fn lemma_be_round_trip(v: nat, rest: Seq<u8>)
    ensures
        v < 0x1_0000 ==> be16(be_bytes2(v) + rest) == v,
        v < 0x1_0000_0000 ==> be32(be_bytes4(v) + rest) == v,
        v < 0x1_0000_0000_0000_0000 ==> be64(be_bytes8(v) + rest) == v,
{
    if v < 0x1_0000 {
        let s = be_bytes2(v) + rest;
        assert(s[0] == be_bytes2(v)[0] && s[1] == be_bytes2(v)[1]);
    }
    if v < 0x1_0000_0000 {
        lemma_be32_round_trip(v, rest);
    }
    if v < 0x1_0000_0000_0000_0000 {
        let high = v / 0x1_0000_0000;
        let low = v % 0x1_0000_0000;
        let s = be_bytes8(v) + rest;
        assert(s =~= be_bytes4(high) + (be_bytes4(low) + rest));
        lemma_be32_round_trip(high, be_bytes4(low) + rest);
        assert(s.skip(4) =~= be_bytes4(low) + rest);
        lemma_be32_round_trip(low, rest);
    }
}

proof fn lemma_be32_round_trip(v: nat, rest: Seq<u8>)
    requires
        v < 0x1_0000_0000,
    ensures
        be32(be_bytes4(v) + rest) == v,
{
    let s = be_bytes4(v) + rest;
    assert(s[0] == be_bytes4(v)[0] && s[1] == be_bytes4(v)[1] && s[2] == be_bytes4(v)[2] && s[3]
        == be_bytes4(v)[3]);
}

/// The octets of a frame header for a body of `frame_length` bytes: the flag
/// octet, then the length in one octet, or in eight where the flags say long.
pub open spec fn encode_header(flags: FrameFlags, frame_length: nat) -> Seq<u8> {
    if flags.is_long {
        seq![flags_byte(flags)] + be_bytes8(frame_length)
    } else {
        seq![flags_byte(flags), frame_length as u8]
    }
}

/// Reading a header that was written gives the header back, and takes its two
/// or nine octets, whatever follows: where a short header is not asked to
/// hold a length above 255.
pub proof fn lemma_header_round_trip(hdr: FrameHeader, rest: Seq<u8>)
    requires
        !hdr.flags.is_long ==> hdr.frame_length <= 255,
    ensures
        encode_header(hdr.flags, hdr.frame_length as nat).len() == if hdr.flags.is_long {
            9nat
        } else {
            2nat
        },
        frame_header_spec(encode_header(hdr.flags, hdr.frame_length as nat) + rest) == (
        Outcome::Parsed {
            value: hdr,
            consumed: encode_header(hdr.flags, hdr.frame_length as nat).len(),
        }),
{
    lemma_flags_round_trip(hdr.flags);
    let s = encode_header(hdr.flags, hdr.frame_length as nat) + rest;
    assert(s[0] == flags_byte(hdr.flags));
    if hdr.flags.is_long {
        assert(hdr.frame_length < 0x1_0000_0000_0000_0000);
        assert(s.skip(1) =~= be_bytes8(hdr.frame_length as nat) + rest);
        lemma_be_round_trip(hdr.frame_length as nat, rest);
    } else {
        assert(s[1] == hdr.frame_length as u8);
    }
}

/// The octets of one property: the length of the name, the name, the length
/// of the value in four octets, the value.
pub open spec fn encode_property(name: Seq<u8>, value: Seq<u8>) -> Seq<u8> {
    seq![name.len() as u8] + name + be_bytes4(value.len()) + value
}

/// Whether a property can be written: a name of 1 to 255 name characters, and
/// a value whose length fits in four octets.
pub open spec fn property_encodable(name: Seq<u8>, value: Seq<u8>) -> bool {
    &&& 1 <= name.len() <= 255
    &&& forall|i: int| 0 <= i < name.len() ==> name_char(#[trigger] name[i])
    &&& value.len() < 0x1_0000_0000
}

/// The octets of a run of properties, in the order of the run.
pub open spec fn encode_properties(properties: Seq<(Seq<u8>, Seq<u8>)>) -> Seq<u8>
    decreases properties.len(),
{
    if properties.len() == 0 {
        Seq::empty()
    } else {
        encode_property(properties[0].0, properties[0].1) + encode_properties(
            properties.drop_first(),
        )
    }
}

/// A run of properties written into a map one after another, each in place
/// of what its name held before.
pub open spec fn written_into(
    acc: Map<Seq<u8>, Seq<u8>>,
    properties: Seq<(Seq<u8>, Seq<u8>)>,
) -> Map<Seq<u8>, Seq<u8>>
    decreases properties.len(),
{
    if properties.len() == 0 {
        acc
    } else {
        written_into(acc.insert(properties[0].0, properties[0].1), properties.drop_first())
    }
}

/// Written into the empty map, a run of properties gives the map that it
/// spells.
pub proof fn lemma_written_is_pairs_map(properties: Seq<(Seq<u8>, Seq<u8>)>)
    ensures
        written_into(Map::empty(), properties) == pairs_map(properties),
{
    lemma_written_last(Map::empty(), properties);
}

proof fn lemma_written_last(acc: Map<Seq<u8>, Seq<u8>>, properties: Seq<(Seq<u8>, Seq<u8>)>)
    ensures
        properties.len() == 0 ==> written_into(acc, properties) == acc,
        properties.len() > 0 ==> written_into(acc, properties) == written_into(
            acc,
            properties.drop_last(),
        ).insert(properties.last().0, properties.last().1),
        acc == Map::<Seq<u8>, Seq<u8>>::empty() ==> written_into(acc, properties) == pairs_map(
            properties,
        ),
    decreases properties.len(),
{
    if properties.len() > 0 {
        let first = properties[0];
        let next = acc.insert(first.0, first.1);
        lemma_written_last(next, properties.drop_first());
        if properties.len() == 1 {
            assert(properties.drop_last() =~= Seq::empty());
            assert(properties.drop_first() =~= Seq::empty());
        } else {
            assert(properties.drop_first().drop_last() =~= properties.drop_last().drop_first());
            assert(properties.drop_first().last() == properties.last());
            assert(properties.drop_last()[0] == first);
        }
        if acc == Map::<Seq<u8>, Seq<u8>>::empty() {
            lemma_written_last(acc, properties.drop_last());
        }
    }
}

/// Reading a property that was written gives its name and value back, and
/// takes exactly its octets, whatever follows.
pub proof fn lemma_property_round_trip(name: Seq<u8>, value: Seq<u8>, rest: Seq<u8>)
    requires
        property_encodable(name, value),
    ensures
        encode_property(name, value).len() == 5 + name.len() + value.len(),
        property_spec(encode_property(name, value) + rest) == (Outcome::Parsed {
            value: (name, value),
            consumed: encode_property(name, value).len(),
        }),
{
    reveal(property_spec);
    let s = encode_property(name, value) + rest;
    let n = name.len() as int;
    assert(s[0] == n as u8);
    assert(!bad_name_char_within(s.skip(1), n as nat)) by {
        assert forall|i: int| 0 <= i < s.skip(1).len() && i < n implies name_char(
            s.skip(1)[i],
        ) by {
            assert(s.skip(1)[i] == name[i]);
        }
    }
    assert(s.skip(1 + n) =~= be_bytes4(value.len()) + (value + rest));
    lemma_be_round_trip(value.len(), value + rest);
    assert(s.subrange(1, 1 + n) =~= name);
    assert(s.subrange(5 + n, 5 + n + value.len()) =~= value);
}

/// Reading a run of properties that was written, in a window that ends where
/// the run ends, writes them into the map in their order, and takes all.
pub proof fn lemma_properties_round_trip(
    properties: Seq<(Seq<u8>, Seq<u8>)>,
    acc: Map<Seq<u8>, Seq<u8>>,
    closed: bool,
)
    requires
        forall|i: int|
            0 <= i < properties.len() ==> property_encodable(
                (#[trigger] properties[i]).0,
                properties[i].1,
            ),
    ensures
        properties_spec(encode_properties(properties), acc, closed) == (Outcome::Parsed {
            value: written_into(acc, properties),
            consumed: encode_properties(properties).len(),
        }),
    decreases properties.len(),
{
    if properties.len() > 0 {
        let first = properties[0];
        let later = encode_properties(properties.drop_first());
        let w = encode_properties(properties);
        assert(property_encodable(first.0, first.1));
        lemma_property_round_trip(first.0, first.1, later);
        let n = encode_property(first.0, first.1).len() as int;
        assert(w.skip(n) =~= later);
        assert forall|i: int| 0 <= i < properties.drop_first().len() implies property_encodable(
            (#[trigger] properties.drop_first()[i]).0,
            properties.drop_first()[i].1,
        ) by {
            assert(properties.drop_first()[i] == properties[i + 1]);
        }
        lemma_properties_round_trip(properties.drop_first(), acc.insert(first.0, first.1), closed);
    }
}

/// A command as it is written: what it holds, with the properties of a READY
/// in the order in which they are put on the wire.
pub enum CommandValue {
    READY(Seq<(Seq<u8>, Seq<u8>)>),
    ERROR(Seq<u8>),
    SUBSCRIBE(Seq<u8>),
    CANCEL(Seq<u8>),
    PING { ttl: u16, context: Seq<u8> },
    PONG(Seq<u8>),
}

impl CommandValue {
    /// Which of the six commands it is.
    pub open spec fn kind(self) -> CommandKind {
        match self {
            CommandValue::READY(_) => CommandKind::READY,
            CommandValue::ERROR(_) => CommandKind::ERROR,
            CommandValue::SUBSCRIBE(_) => CommandKind::SUBSCRIBE,
            CommandValue::CANCEL(_) => CommandKind::CANCEL,
            CommandValue::PING { .. } => CommandKind::PING,
            CommandValue::PONG(_) => CommandKind::PONG,
        }
    }

    /// The command's name on the wire.
    pub open spec fn name(self) -> Seq<u8> {
        self.kind().name()
    }

    /// What follows the name on the wire.
    pub open spec fn body(self) -> Seq<u8> {
        match self {
            CommandValue::READY(properties) => encode_properties(properties),
            CommandValue::ERROR(reason) => seq![reason.len() as u8] + reason,
            CommandValue::SUBSCRIBE(topic) => topic,
            CommandValue::CANCEL(topic) => topic,
            CommandValue::PING { ttl, context } => be_bytes2(ttl as nat) + context,
            CommandValue::PONG(context) => context,
        }
    }

    /// The octets of the command: the length of its name, the name, the body.
    pub open spec fn encode(self) -> Seq<u8> {
        seq![self.name().len() as u8] + self.name() + self.body()
    }

    /// Whether the command can be written and read back: every property of a
    /// READY can be written, the reason of an ERROR has at most 255 bytes, and
    /// the context of a PING is not empty.
    pub open spec fn encodable(self) -> bool {
        match self {
            CommandValue::READY(properties) => forall|i: int|
                0 <= i < properties.len() ==> property_encodable(
                    (#[trigger] properties[i]).0,
                    properties[i].1,
                ),
            CommandValue::ERROR(reason) => reason.len() <= 255,
            CommandValue::PING { context, .. } => context.len() >= 1,
            _ => true,
        }
    }

    /// What a reader makes of the command.
    pub open spec fn view(self) -> CommandView {
        match self {
            CommandValue::READY(properties) => CommandView::READY(pairs_map(properties)),
            CommandValue::ERROR(reason) => CommandView::ERROR(reason),
            CommandValue::SUBSCRIBE(topic) => CommandView::SUBSCRIBE(topic),
            CommandValue::CANCEL(topic) => CommandView::CANCEL(topic),
            CommandValue::PING { ttl, context } => CommandView::PING(PingView { ttl, context }),
            CommandValue::PONG(context) => CommandView::PONG(context),
        }
    }
}

/// The six command names differ from one another, so each names its
/// command; and none is longer than nine bytes.
pub proof fn lemma_kind_round_trip(kind: CommandKind)
    ensures
        command_kind(kind.name()) == Some(kind),
        4 <= kind.name().len() <= 9,
{
    assert(CommandKind::READY.name()[0] == 0x52 && CommandKind::ERROR.name()[0] == 0x45);
    assert(CommandKind::PING.name()[1] == 0x49 && CommandKind::PONG.name()[1] == 0x4f);
    assert(CommandKind::READY.name().len() == 5 && CommandKind::ERROR.name().len() == 5);
    assert(CommandKind::SUBSCRIBE.name().len() == 9 && CommandKind::CANCEL.name().len() == 6);
    assert(CommandKind::PING.name().len() == 4 && CommandKind::PONG.name().len() == 4);
}

/// Reading the body of a command that was written gives what the command
/// holds, and takes exactly the body, whatever follows.
pub proof fn lemma_command_body_round_trip(command: CommandValue, rest: Seq<u8>)
    requires
        command.encodable(),
    ensures
        command_body_spec(command.kind(), command.body() + rest, command.body().len()) == (
        Outcome::Parsed { value: command.view(), consumed: command.body().len() }),
{
    let body = command.body();
    let data_len = body.len();
    match command {
        CommandValue::READY(properties) => {
            reveal(meta_data_spec);
            assert((body + rest).take(data_len as int) =~= body);
            lemma_properties_round_trip(properties, Map::empty(), true);
            lemma_written_is_pairs_map(properties);
        },
        CommandValue::ERROR(reason) => {
            assert((body + rest)[0] == reason.len() as u8);
            assert((body + rest).subrange(1, 1 + reason.len() as int) =~= reason);
        },
        CommandValue::SUBSCRIBE(topic) => {
            assert((body + rest).take(data_len as int) =~= topic);
        },
        CommandValue::CANCEL(topic) => {
            assert((body + rest).take(data_len as int) =~= topic);
        },
        CommandValue::PING { ttl, context } => {
            assert(body + rest =~= be_bytes2(ttl as nat) + (context + rest));
            lemma_be_round_trip(ttl as nat, context + rest);
            assert((body + rest).subrange(2, data_len as int) =~= context);
        },
        CommandValue::PONG(context) => {
            assert((body + rest).take(data_len as int) =~= context);
        },
    }
}

/// Reading a command that was written gives the command back, and takes
/// exactly its octets, whatever follows: where the frame declares the length
/// that the command has.
pub proof fn lemma_command_round_trip(command: CommandValue, rest: Seq<u8>)
    requires
        command.encodable(),
    ensures
        command_spec(command.encode() + rest, command.encode().len()) == (Outcome::Parsed {
            value: command.view(),
            consumed: command.encode().len(),
        }),
{
    reveal(command_spec);
    lemma_kind_round_trip(command.kind());
    lemma_command_body_round_trip(command, rest);
    let s = command.encode() + rest;
    let name = command.name();
    let n = name.len() as int;
    let body = command.body();
    assert(s[0] == n as u8);
    assert(s.subrange(1, 1 + n) =~= name);
    assert(s.skip(1 + n) =~= body + rest);
    assert(command.encode().len() == 1 + n + body.len());
}

/// A frame as it is written: a command, or the payload of a message.
pub enum FrameValue {
    Command(CommandValue),
    Message(Seq<u8>),
}

impl FrameValue {
    /// The octets of the frame's body.
    pub open spec fn body(self) -> Seq<u8> {
        match self {
            FrameValue::Command(command) => command.encode(),
            FrameValue::Message(payload) => payload,
        }
    }

    /// The header that announces the body, with a short or a long length and
    /// with or without the flag that more frames follow.
    pub open spec fn header(self, more: bool, long: bool) -> FrameHeader {
        FrameHeader {
            flags: FrameFlags {
                is_command: self is Command,
                is_long: long,
                more_frames_to_follow: more,
            },
            frame_length: self.body().len() as usize,
        }
    }

    /// The octets of the frame: header and body.
    pub open spec fn encode(self, more: bool, long: bool) -> Seq<u8> {
        encode_header(self.header(more, long).flags, self.body().len()) + self.body()
    }

    /// Whether the frame can be written and read back: a command must be one
    /// that can, and the body must be of a length that the header can hold
    /// and that fits in memory.
    pub open spec fn encodable(self, long: bool) -> bool {
        &&& self matches FrameValue::Command(command) ==> command.encodable()
        &&& self.body().len() <= usize::MAX
        &&& !long ==> self.body().len() <= 255
    }

    /// What a reader makes of the frame.
    pub open spec fn view(self) -> FrameView {
        match self {
            FrameValue::Command(command) => FrameView::Command(command.view()),
            FrameValue::Message(payload) => FrameView::Message(payload),
        }
    }
}

/// Reading a frame that was written gives the frame back, and takes exactly
/// its octets, whatever follows; and a decoder whose buffer starts with the
/// frame hands it out.
pub proof fn lemma_frame_round_trip(frame: FrameValue, more: bool, long: bool, rest: Seq<u8>)
    requires
        frame.encodable(long),
    ensures
        frame_spec(frame.encode(more, long) + rest) == (Outcome::Parsed {
            value: frame.view(),
            consumed: frame.encode(more, long).len(),
        }),
        decode_spec(frame.encode(more, long) + rest) == (Step::Emit {
            frame: frame.view(),
            used: frame.encode(more, long).len(),
        }),
{
    reveal(frame_body_spec);
    let hdr = frame.header(more, long);
    let body = frame.body();
    let s = frame.encode(more, long) + rest;
    let written = encode_header(hdr.flags, body.len());
    assert(s =~= written + (body + rest));
    lemma_header_round_trip(hdr, body + rest);
    let h = written.len() as int;
    assert(s.skip(h) =~= body + rest);
    assert(s.subrange(h, h + body.len()) =~= body + Seq::<u8>::empty());
    match frame {
        FrameValue::Command(command) => {
            lemma_command_round_trip(command, rest);
            lemma_command_round_trip(command, Seq::empty());
        },
        FrameValue::Message(payload) => {
            assert((body + rest).take(body.len() as int) =~= payload);
            assert((body + Seq::<u8>::empty()).take(body.len() as int) =~= payload);
        },
    }
}

} // verus!
