use bytes::Bytes;
use zmqrs_parser::command::Command;
use zmqrs_parser::decoder::Parser;
use zmqrs_parser::frame::{frame, Frame};
use zmqrs_parser::greeting::{greeting, Greeting, SecurityMechanism, Version};
use zmqrs_parser::octets::Octets;

/// A frame as a writer has it, before it is put on the wire.
#[derive(Debug, Clone, PartialEq)]
enum Written {
    Ready(Vec<(Vec<u8>, Vec<u8>)>),
    Error(Vec<u8>),
    Subscribe(Vec<u8>),
    Cancel(Vec<u8>),
    Ping(u16, Vec<u8>),
    Pong(Vec<u8>),
    Message(Vec<u8>),
}

fn write_greeting(greeting: &Greeting, padding: [u8; 8]) -> Vec<u8> {
    let mut bytes = vec![0xff];
    bytes.extend_from_slice(&padding);
    bytes.push(0x7f);
    bytes.push(greeting.version.major);
    bytes.push(greeting.version.minor);
    let name: &[u8] = match greeting.mechanism {
        SecurityMechanism::NULL => b"NULL",
        SecurityMechanism::PLAIN => b"PLAIN",
        SecurityMechanism::CURVE => b"CURVE",
    };
    let mut field = [0u8; 20];
    field[..name.len()].copy_from_slice(name);
    bytes.extend_from_slice(&field);
    bytes.push(if greeting.as_server { 1 } else { 0 });
    bytes.extend_from_slice(&[0u8; 31]);
    bytes
}

fn write_command(name: &[u8], rest: &[u8]) -> Vec<u8> {
    let mut body = vec![name.len() as u8];
    body.extend_from_slice(name);
    body.extend_from_slice(rest);
    body
}

fn write_body(written: &Written) -> Vec<u8> {
    match written {
        Written::Ready(properties) => {
            let mut rest = Vec::new();
            for (name, value) in properties {
                rest.push(name.len() as u8);
                rest.extend_from_slice(name);
                rest.extend_from_slice(&(value.len() as u32).to_be_bytes());
                rest.extend_from_slice(value);
            }
            write_command(b"READY", &rest)
        }
        Written::Error(reason) => {
            let mut rest = vec![reason.len() as u8];
            rest.extend_from_slice(reason);
            write_command(b"ERROR", &rest)
        }
        Written::Subscribe(topic) => write_command(b"SUBSCRIBE", topic),
        Written::Cancel(topic) => write_command(b"CANCEL", topic),
        Written::Ping(ttl, context) => {
            let mut rest = ttl.to_be_bytes().to_vec();
            rest.extend_from_slice(context);
            write_command(b"PING", &rest)
        }
        Written::Pong(context) => write_command(b"PONG", context),
        Written::Message(payload) => payload.clone(),
    }
}

fn write_frame(written: &Written, more: bool, long: bool) -> Vec<u8> {
    let body = write_body(written);
    let is_command = !matches!(written, Written::Message(_));
    let flags = (more as u8) | ((long as u8) << 1) | ((is_command as u8) << 2);
    let mut bytes = vec![flags];
    if long {
        bytes.extend_from_slice(&(body.len() as u64).to_be_bytes());
    } else {
        assert!(body.len() <= 255);
        bytes.push(body.len() as u8);
    }
    bytes.extend_from_slice(&body);
    bytes
}

/// What a reader got, in the writer's terms. The properties of a READY come
/// back as a map: under each name the value that was written last.
fn read_back<S: Octets, T: Octets>(frame: &Frame<S, T>) -> Written {
    match frame {
        Frame::Command(Command::READY(meta_data)) => {
            let mut properties = Vec::new();
            for i in 0..meta_data.len() {
                properties.push((
                    meta_data.name_at(i).unwrap().as_octets().to_vec(),
                    meta_data.value_at(i).unwrap().0.as_octets().to_vec(),
                ));
            }
            Written::Ready(properties)
        }
        Frame::Command(Command::ERROR(reason)) => Written::Error(reason.0.as_octets().to_vec()),
        Frame::Command(Command::SUBSCRIBE(topic)) => {
            Written::Subscribe(topic.0.as_octets().to_vec())
        }
        Frame::Command(Command::CANCEL(topic)) => Written::Cancel(topic.0.as_octets().to_vec()),
        Frame::Command(Command::PING(ping)) => {
            Written::Ping(ping.ttl, ping.context.as_octets().to_vec())
        }
        Frame::Command(Command::PONG(pong)) => Written::Pong(pong.context.as_octets().to_vec()),
        Frame::Message(message) => Written::Message(message.payload().0.as_octets().to_vec()),
    }
}

fn samples() -> Vec<Written> {
    vec![
        Written::Ready(vec![]),
        Written::Ready(vec![(b"Socket-Type".to_vec(), b"ROUTER".to_vec())]),
        Written::Ready(vec![
            (b"Socket-Type".to_vec(), b"REQ".to_vec()),
            (b"Identity".to_vec(), vec![]),
            (b"X-a.b+c_d".to_vec(), vec![0, 255, 10, 13]),
        ]),
        Written::Error(vec![]),
        Written::Error(b"no such mechanism".to_vec()),
        Written::Subscribe(vec![]),
        Written::Subscribe(b"news/".to_vec()),
        Written::Cancel(b"news/".to_vec()),
        Written::Cancel(vec![0, 1, 2]),
        Written::Ping(0, vec![1]),
        Written::Ping(0xffff, b"0123456789abcdef".to_vec()),
        Written::Ping(0x0100, vec![0]),
        Written::Pong(vec![]),
        Written::Pong(b"0123456789abcdef".to_vec()),
        Written::Message(vec![]),
        Written::Message(b"World".to_vec()),
        Written::Message((0..=255u8).collect()),
    ]
}

#[test]
fn greeting_round_trip() {
    for mechanism in [SecurityMechanism::NULL, SecurityMechanism::PLAIN, SecurityMechanism::CURVE] {
        for as_server in [false, true] {
            for (major, minor) in [(3, 0), (3, 1), (0, 0), (255, 255), (2, 7)] {
                let written = Greeting { version: Version { major, minor }, mechanism, as_server };
                for padding in [[0u8; 8], [0xff; 8], [1, 2, 3, 4, 5, 6, 7, 8]] {
                    let mut bytes = write_greeting(&written, padding);
                    assert_eq!(bytes.len(), 64);
                    bytes.extend_from_slice(&[0x04, 0x19]);
                    let (rest, read) = greeting(&bytes).unwrap();
                    assert_eq!(read, written);
                    assert_eq!(rest, &[0x04, 0x19]);
                }
            }
        }
    }
}

#[test]
fn frame_round_trip_with_a_short_header() {
    for written in samples() {
        for more in [false, true] {
            if write_body(&written).len() > 255 {
                continue;
            }
            let mut bytes = write_frame(&written, more, false);
            let len = bytes.len();
            bytes.extend_from_slice(&[0xab, 0xcd]);
            let (rest, read) = frame(&bytes).unwrap();
            assert_eq!(read_back(&read), written);
            assert_eq!(rest, &[0xab, 0xcd]);
            assert_eq!(bytes.len() - rest.len(), len);
        }
    }
}

#[test]
fn frame_round_trip_with_a_long_header() {
    for written in samples() {
        for more in [false, true] {
            let mut bytes = write_frame(&written, more, true);
            let len = bytes.len();
            bytes.extend_from_slice(&[0xab, 0xcd]);
            let (rest, read) = frame(&bytes).unwrap();
            assert_eq!(read_back(&read), written);
            assert_eq!(rest, &[0xab, 0xcd]);
            assert_eq!(bytes.len() - rest.len(), len);
        }
    }
}

#[test]
fn frame_round_trip_through_the_decoder() {
    let mut stream = Vec::new();
    for (i, written) in samples().iter().enumerate() {
        stream.extend(write_frame(written, i % 2 == 0, i % 3 == 0 || write_body(written).len() > 255));
    }
    let mut parser = Parser::new();
    let (frames, error) = parser.feed(&stream);
    assert_eq!(error, None);
    assert_eq!(parser.buffered(), 0);
    let read: Vec<Written> = frames.iter().map(|f: &Frame<Bytes, Bytes>| read_back(f)).collect();
    assert_eq!(read, samples());
}

#[test]
fn ready_round_trip_keeps_the_value_written_last() {
    let written = Written::Ready(vec![
        (b"a".to_vec(), b"1".to_vec()),
        (b"b".to_vec(), b"2".to_vec()),
        (b"a".to_vec(), b"3".to_vec()),
    ]);
    let bytes = write_frame(&written, false, false);
    let (_, read) = frame(&bytes).unwrap();
    assert_eq!(
        read_back(&read),
        Written::Ready(vec![(b"a".to_vec(), b"3".to_vec()), (b"b".to_vec(), b"2".to_vec())])
    );
}
