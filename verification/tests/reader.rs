use zmqrs_parser::command::{lookup_command, CommandKind};
use zmqrs_parser::frame::frame_header;
use zmqrs_parser::reader::{ParseError, ReadError};

#[test]
fn read_error_at_an_offset() {
    assert_eq!(ReadError::Incomplete.at(7), ParseError::Incomplete);
    assert_eq!(ReadError::Mismatch.at(7), ParseError::Malformed { offset: 7 });
    assert_eq!(ReadError::Mismatch.at(0), ParseError::Malformed { offset: 0 });
}

#[test]
fn parse_error_shifted_by_a_base() {
    assert_eq!(ParseError::Incomplete.shifted(12), ParseError::Incomplete);
    assert_eq!(ParseError::Malformed { offset: 3 }.shifted(12), ParseError::Malformed { offset: 15 });
    assert_eq!(ParseError::Malformed { offset: 3 }.shifted(0), ParseError::Malformed { offset: 3 });
}

#[test]
fn lookup_knows_the_six_names() {
    assert_eq!(lookup_command(b"READY"), Some(CommandKind::READY));
    assert_eq!(lookup_command(b"ERROR"), Some(CommandKind::ERROR));
    assert_eq!(lookup_command(b"SUBSCRIBE"), Some(CommandKind::SUBSCRIBE));
    assert_eq!(lookup_command(b"CANCEL"), Some(CommandKind::CANCEL));
    assert_eq!(lookup_command(b"PING"), Some(CommandKind::PING));
    assert_eq!(lookup_command(b"PONG"), Some(CommandKind::PONG));
}

#[test]
fn lookup_matches_byte_for_byte() {
    for name in [&b""[..], b"ready", b"Ready", b"READY ", b" READY", b"READ", b"PIN", b"PONGG", b"\0"] {
        assert_eq!(lookup_command(name), None, "name {:?}", name);
    }
}

#[test]
fn integers_are_read_most_significant_byte_first() {
    // the eight octets of a long length, each with a value of its own
    let input = [0x02u8, 0x00, 0x00, 0x00, 0x00, 0x0a, 0x0b, 0x0c, 0x0d];
    let (_, hdr) = frame_header(&input).unwrap();
    assert_eq!(hdr.frame_length, 0x0a0b0c0d);
    let input = [0x02u8, 0x00, 0x00, 0x00, 0x00, 0x00, 0x00, 0x01, 0x00];
    let (_, hdr) = frame_header(&input).unwrap();
    assert_eq!(hdr.frame_length, 256);
}

#[test]
fn a_long_length_that_memory_cannot_hold_is_refused() {
    if (usize::MAX as u64) < u64::MAX {
        let input = [0x02u8, 0x01, 0, 0, 0, 0, 0, 0, 0];
        assert_eq!(frame_header(&input).err(), Some(ParseError::Malformed { offset: 1 }));
    }
}
