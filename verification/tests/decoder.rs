use bytes::{Bytes, BytesMut};
use zmqrs_parser::command::Command;
use zmqrs_parser::decoder::{filter_short_read, FrameParser, GreetingParser, Parser, ParserError};
use zmqrs_parser::frame::{frame_body, frame_header, Frame, FrameFlags, FrameHeader};
use zmqrs_parser::octets::{Borrowed, ByteSlice};
use zmqrs_parser::reader::ParseError;

fn server_ready() -> Vec<u8> {
    vec![
        0x04, 0x19, 0x05, 0x52, 0x45, 0x41, 0x44, 0x59, 0x0b, 0x53, 0x6f, 0x63, 0x6b, 0x65, 0x74,
        0x2d, 0x54, 0x79, 0x70, 0x65, 0x00, 0x00, 0x00, 0x03, 0x52, 0x45, 0x50,
    ]
}

fn stream() -> Vec<u8> {
    let mut bytes = server_ready();
    bytes.extend_from_slice(&[0x01, 0x00, 0x00, 0x05, 0x57, 0x6f, 0x72, 0x6c, 0x64]);
    bytes.extend_from_slice(&[0x04, 0x09, 4, b'P', b'I', b'N', b'G', 0x00, 0x10, b'c', b'x']);
    bytes.extend_from_slice(&[0x02, 0, 0, 0, 0, 0, 0, 0, 3, b'e', b'n', b'd']);
    bytes
}

fn describe(frame: &Frame<Bytes, Bytes>) -> String {
    match frame {
        Frame::Command(Command::READY(meta_data)) => {
            let mut text = String::from("READY");
            for i in 0..meta_data.len() {
                text.push_str(&format!(
                    " {:?}={:?}",
                    meta_data.name_at(i).unwrap().as_ref(),
                    meta_data.value_at(i).unwrap().0.as_ref()
                ));
            }
            text
        }
        Frame::Command(Command::PING(ping)) => {
            format!("PING {} {:?}", ping.ttl, ping.context.as_ref())
        }
        Frame::Command(other) => format!("{:?}", other),
        Frame::Message(message) => format!("MESSAGE {:?}", message.payload().0.as_ref()),
    }
}

fn expected() -> Vec<String> {
    vec![
        format!("READY {:?}={:?}", b"Socket-Type", b"REP"),
        format!("MESSAGE {:?}", b""),
        format!("MESSAGE {:?}", b"World"),
        format!("PING 16 {:?}", b"cx"),
        format!("MESSAGE {:?}", b"end"),
    ]
}

#[test]
fn decode_hands_out_owned_frames() {
    let mut src = BytesMut::from(&server_ready()[..]);
    let mut parser = FrameParser::default();
    let frame = parser.decode(&mut src).unwrap().unwrap();
    assert!(src.is_empty());
    // the frame lives on when the buffer is gone
    drop(src);
    match frame {
        Frame::Command(Command::READY(meta_data)) => {
            assert_eq!(meta_data.len(), 1);
            assert_eq!(meta_data.name_at(0).unwrap().as_ref(), b"Socket-Type");
            assert_eq!(meta_data.get(b"Socket-Type").unwrap().0.as_ref(), b"REP");
        }
        other => panic!("not a READY: {:?}", other),
    }
}

#[test]
fn decode_the_message_world() {
    let mut src = BytesMut::from(&[0x01u8, 0x00, 0x00, 0x05, 0x57, 0x6f, 0x72, 0x6c, 0x64][..]);
    let mut parser = FrameParser::default();
    match parser.decode(&mut src).unwrap().unwrap() {
        Frame::Message(message) => assert!(message.payload().0.is_empty()),
        other => panic!("not a message: {:?}", other),
    }
    assert_eq!(src.len(), 7);
    match parser.decode(&mut src).unwrap().unwrap() {
        Frame::Message(message) => assert_eq!(message.payload().0.as_ref(), b"World"),
        other => panic!("not a message: {:?}", other),
    }
    assert!(src.is_empty());
    assert!(parser.decode(&mut src).unwrap().is_none());
}

#[test]
fn decode_needs_more_until_the_body_is_there() {
    let whole = [0x00u8, 0x05, b'h', b'e', b'l', b'l', b'o'];
    let mut parser = FrameParser::default();
    for n in 0..whole.len() {
        let mut src = BytesMut::from(&whole[..n]);
        assert_eq!(parser.decode(&mut src).map(|f| f.is_none()), Ok(true), "length {}", n);
        // nothing was consumed
        assert_eq!(&src[..], &whole[..n]);
    }
    let mut src = BytesMut::from(&whole[..]);
    assert!(parser.decode(&mut src).unwrap().is_some());
}

#[test]
fn decode_needs_more_for_a_command_whose_body_is_short_even_if_it_looks_wrong() {
    // the name length 200 will be refused, but not before the body is complete
    let whole = [0x04u8, 0x04, 200, 1, 2, 3];
    let mut parser = FrameParser::default();
    for n in 0..whole.len() {
        let mut src = BytesMut::from(&whole[..n]);
        assert_eq!(parser.decode(&mut src).map(|f| f.is_none()), Ok(true), "length {}", n);
        assert_eq!(src.len(), n);
    }
    let mut src = BytesMut::from(&whole[..]);
    assert_eq!(parser.decode(&mut src).err(), Some(ParserError::Malformed { offset: 3 }));
}

#[test]
fn decode_needs_more_for_a_long_frame() {
    let mut whole = vec![0x02u8, 0, 0, 0, 0, 0, 0, 0x01, 0x00];
    whole.extend_from_slice(&[7u8; 255]);
    let mut parser = FrameParser::default();
    let mut src = BytesMut::from(&whole[..]);
    assert!(parser.decode(&mut src).unwrap().is_none());
    assert_eq!(src.len(), whole.len());
    src.extend_from_slice(&[8]);
    match parser.decode(&mut src).unwrap().unwrap() {
        Frame::Message(message) => {
            assert_eq!(message.payload().0.len(), 256);
            assert_eq!(message.payload().0[255], 8);
        }
        other => panic!("not a message: {:?}", other),
    }
}

#[test]
fn decode_takes_one_frame_and_leaves_the_next() {
    let mut src = BytesMut::from(&[0x00u8, 0x01, b'a', 0x00, 0x01, b'b', 0x00][..]);
    let mut parser = FrameParser::default();
    match parser.decode(&mut src).unwrap().unwrap() {
        Frame::Message(message) => assert_eq!(message.payload().0.as_ref(), b"a"),
        other => panic!("not a message: {:?}", other),
    }
    assert_eq!(&src[..], &[0x00, 0x01, b'b', 0x00]);
    match parser.decode(&mut src).unwrap().unwrap() {
        Frame::Message(message) => assert_eq!(message.payload().0.as_ref(), b"b"),
        other => panic!("not a message: {:?}", other),
    }
    assert_eq!(&src[..], &[0x00]);
    assert!(parser.decode(&mut src).unwrap().is_none());
    assert_eq!(&src[..], &[0x00]);
}

#[test]
fn decode_reports_a_malformed_body_with_its_offset() {
    // unknown command
    let mut src = BytesMut::from(&[0x04u8, 0x05, 4, b'N', b'O', b'P', b'E', 0xaa][..]);
    let mut parser = FrameParser::default();
    assert_eq!(parser.decode(&mut src).err(), Some(ParserError::Malformed { offset: 3 }));
    // the frame has left the buffer
    assert_eq!(&src[..], &[0xaa]);

    // a PING without context, refused where its body starts
    let mut src = BytesMut::from(&[0x04u8, 0x07, 4, b'P', b'I', b'N', b'G', 0, 1][..]);
    assert_eq!(parser.decode(&mut src).err(), Some(ParserError::Malformed { offset: 7 }));

    // a name that does not fit the frame, refused at the length octet
    let mut src = BytesMut::from(&[0x04u8, 0x03, 5, b'R', b'E'][..]);
    assert_eq!(parser.decode(&mut src).err(), Some(ParserError::Malformed { offset: 2 }));
}

#[test]
fn decode_reports_a_body_that_is_too_short_for_its_content() {
    // the reason claims 9 bytes, the frame has 2 left
    let mut src = BytesMut::from(&[0x04u8, 0x09, 5, b'E', b'R', b'R', b'O', b'R', 9, b'n', b'o'][..]);
    let mut parser = FrameParser::default();
    assert_eq!(parser.decode(&mut src).err(), Some(ParserError::Truncated { offset: 11 }));
    assert!(src.is_empty());
    // an empty command frame
    let mut src = BytesMut::from(&[0x04u8, 0x00, 0x77][..]);
    assert_eq!(parser.decode(&mut src).err(), Some(ParserError::Truncated { offset: 2 }));
    assert_eq!(&src[..], &[0x77]);
    // with a long header
    let mut src = BytesMut::from(&[0x06u8, 0, 0, 0, 0, 0, 0, 0, 5, 4, b'P', b'I', b'N', b'G'][..]);
    assert_eq!(parser.decode(&mut src).err(), Some(ParserError::Malformed { offset: 14 }));
    let mut src = BytesMut::from(&[0x06u8, 0, 0, 0, 0, 0, 0, 0, 6, 5, b'E', b'R', b'R', b'O', b'R'][..]);
    assert_eq!(parser.decode(&mut src).err(), Some(ParserError::Truncated { offset: 15 }));
}

#[test]
fn decode_refuses_metadata_that_runs_past_the_frame() {
    let mut bytes = server_ready();
    // the value now claims 4 bytes; the frame still ends after 3
    bytes[23] = 4;
    bytes.extend_from_slice(&[0x00, 0x01, b'x']);
    let mut src = BytesMut::from(&bytes[..]);
    let mut parser = FrameParser::default();
    // refused where the property starts: 2 of header, 6 of command name
    assert_eq!(parser.decode(&mut src).err(), Some(ParserError::Malformed { offset: 8 }));
}

#[test]
fn greeting_parser_decodes_like_frame_parser() {
    let mut parser = GreetingParser::default();
    let mut src = BytesMut::from(&server_ready()[..26]);
    assert!(parser.decode(&mut src).unwrap().is_none());
    assert_eq!(src.len(), 26);
    src.extend_from_slice(&[0x50]);
    match parser.decode(&mut src).unwrap().unwrap() {
        Frame::Command(Command::READY(meta_data)) => {
            assert_eq!(meta_data.get(b"Socket-Type").unwrap().0.as_ref(), b"REP")
        }
        other => panic!("not a READY: {:?}", other),
    }
    let mut src = BytesMut::from(&[0x04u8, 0x01, 11][..]);
    assert_eq!(parser.decode(&mut src).err(), Some(ParserError::Malformed { offset: 3 }));
}

#[test]
fn parser_feed_hands_out_all_complete_frames() {
    let mut parser = Parser::new();
    let (frames, error) = parser.feed(&stream());
    assert_eq!(error, None);
    assert_eq!(frames.iter().map(describe).collect::<Vec<_>>(), expected());
    assert_eq!(parser.buffered(), 0);
}

#[test]
fn chunking_does_not_change_what_is_decoded() {
    let stream = stream();
    for size in 1..=stream.len() {
        let mut parser = Parser::new();
        let mut seen = Vec::new();
        for chunk in stream.chunks(size) {
            let (frames, error) = parser.feed(chunk);
            assert_eq!(error, None);
            seen.extend(frames.iter().map(describe));
        }
        assert_eq!(seen, expected(), "chunks of {}", size);
        assert_eq!(parser.buffered(), 0);
    }
}

#[test]
fn chunking_at_every_single_cut_does_not_change_what_is_decoded() {
    let stream = stream();
    for cut in 0..=stream.len() {
        let mut parser = Parser::new();
        let (mut frames, error) = parser.feed(&stream[..cut]);
        assert_eq!(error, None);
        let (later, error) = parser.feed(&stream[cut..]);
        assert_eq!(error, None);
        frames.extend(later);
        assert_eq!(frames.iter().map(describe).collect::<Vec<_>>(), expected(), "cut at {}", cut);
    }
}

#[test]
fn chunking_does_not_change_where_a_stream_fails() {
    let mut stream = stream();
    stream.extend_from_slice(&[0x04, 0x02, 11, 0, 0xff, 0xff]);
    for size in 1..=stream.len() {
        let mut parser = Parser::new();
        let mut seen = Vec::new();
        let mut failure = None;
        for chunk in stream.chunks(size) {
            let (frames, error) = parser.feed(chunk);
            seen.extend(frames.iter().map(describe));
            if error.is_some() {
                failure = error;
                break;
            }
        }
        assert_eq!(seen, expected(), "chunks of {}", size);
        assert_eq!(failure, Some(ParserError::Malformed { offset: 3 }), "chunks of {}", size);
    }
}

#[test]
fn parser_keeps_an_incomplete_frame_buffered() {
    let mut parser = Parser::new();
    let (frames, error) = parser.feed(&[0x00, 0x03, b'a']);
    assert!(frames.is_empty());
    assert_eq!(error, None);
    assert_eq!(parser.buffered(), 3);
    assert!(parser.decode().unwrap().is_none());
    assert_eq!(parser.buffered(), 3);
    parser.extend(&[b'b']);
    assert_eq!(parser.buffered(), 4);
    assert!(parser.decode().unwrap().is_none());
    parser.extend(&[b'c', 0x00]);
    match parser.decode().unwrap().unwrap() {
        Frame::Message(message) => assert_eq!(message.payload().0.as_ref(), b"abc"),
        other => panic!("not a message: {:?}", other),
    }
    assert_eq!(parser.buffered(), 1);
}

#[test]
fn frames_handed_out_earlier_stay_as_they_were() {
    let mut parser = Parser::new();
    let (first, _) = parser.feed(&[0x00, 0x03, b'o', b'n', b'e', 0x00, 0x03, b't']);
    assert_eq!(first.len(), 1);
    let (second, _) = parser.feed(&[b'w', b'o', 0x00, 0x05, b't', b'h', b'r', b'e', b'e']);
    assert_eq!(second.len(), 2);
    let texts: Vec<String> = first.iter().chain(second.iter()).map(describe).collect();
    assert_eq!(
        texts,
        vec![
            format!("MESSAGE {:?}", b"one"),
            format!("MESSAGE {:?}", b"two"),
            format!("MESSAGE {:?}", b"three")
        ]
    );
}

#[test]
fn owned_fields_are_cut_at_their_offsets() {
    let body = Bytes::from(vec![4u8, b'P', b'I', b'N', b'G', 0xab, 0xcd, b'c', b't', b'x']);
    let hdr = FrameHeader {
        flags: FrameFlags { is_command: true, is_long: false, more_frames_to_follow: false },
        frame_length: body.len(),
    };
    let (_, borrowed) = frame_body(body.as_ref(), &hdr).unwrap();
    let owned = Frame::from_borrowed(&body, borrowed);
    match owned {
        Frame::Command(Command::PING(ping)) => {
            assert_eq!(ping.ttl, 0xabcd);
            assert_eq!(ping.context.as_ref(), b"ctx");
        }
        other => panic!("not a PING: {:?}", other),
    }
}

#[test]
fn byte_slice_from_borrowed_shares_the_buffer() {
    let buffer = Bytes::from(&b"Hallo Welt"[..]);
    let (_s0, s1) = buffer.as_ref().split_at(6);
    let owned = ByteSlice::from_borrowed(&buffer, ByteSlice(Borrowed { bytes: s1, offset: 6 }));
    assert_eq!(owned.0.as_ref(), b"Welt");
    // a share of the same storage, not a copy
    assert_eq!(owned.0.as_ptr(), buffer[6..].as_ptr());
    let empty = ByteSlice::from_borrowed(&buffer, ByteSlice(Borrowed { bytes: b"", offset: 10 }));
    assert!(empty.0.is_empty());
}

#[test]
fn filter_short_read_tells_short_from_wrong() {
    let input = [0x00u8, 0x05];
    let ok = filter_short_read(frame_header(&input)).unwrap().unwrap();
    assert!(ok.0.is_empty());
    assert_eq!(ok.1.frame_length, 5);

    let short: Result<(&[u8], u8), ParseError> = Err(ParseError::Incomplete);
    assert_eq!(filter_short_read(short), Ok(None));

    let wrong: Result<(&[u8], u8), ParseError> = Err(ParseError::Malformed { offset: 4 });
    assert_eq!(filter_short_read(wrong), Err(ParserError::Malformed { offset: 4 }));
}

#[test]
fn parser_error_in_frame_counts_from_the_header() {
    assert_eq!(
        ParserError::in_frame(ParseError::Incomplete, 2, 25),
        ParserError::Truncated { offset: 27 }
    );
    assert_eq!(
        ParserError::in_frame(ParseError::Malformed { offset: 9 }, 9, 300),
        ParserError::Malformed { offset: 18 }
    );
    assert_eq!(ParserError::Truncated { offset: 27 }.offset(), 27);
    assert_eq!(ParserError::Malformed { offset: 18 }.offset(), 18);
}

#[test]
fn parser_error_describes_itself() {
    assert_eq!(
        ParserError::Truncated { offset: 0 }.description(),
        "frame body is shorter than its content"
    );
    assert_eq!(ParserError::Malformed { offset: 1 }.description(), "malformed frame");
}
