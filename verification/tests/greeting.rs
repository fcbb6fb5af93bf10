use zmqrs_parser::greeting::{greeting, Greeting, SecurityMechanism, Version};
use zmqrs_parser::reader::ParseError;

fn valid(mechanism: &[u8], as_server: u8) -> Vec<u8> {
    let mut bytes = vec![0xff, 1, 2, 3, 4, 5, 6, 7, 8, 0x7f, 3, 1];
    let mut field = [0u8; 20];
    field[..mechanism.len()].copy_from_slice(mechanism);
    bytes.extend_from_slice(&field);
    bytes.push(as_server);
    bytes.extend_from_slice(&[0u8; 31]);
    bytes
}

#[test]
fn greeting_takes_64_octets_and_leaves_the_rest() {
    let mut bytes = valid(b"PLAIN", 1);
    bytes.extend_from_slice(&[0xde, 0xad]);
    let (rest, parsed) = greeting(&bytes).unwrap();
    assert_eq!(rest, &[0xde, 0xad]);
    assert_eq!(
        parsed,
        Greeting {
            version: Version { major: 3, minor: 1 },
            mechanism: SecurityMechanism::PLAIN,
            as_server: true
        }
    );
}

#[test]
fn greeting_knows_the_three_mechanisms() {
    assert_eq!(greeting(&valid(b"NULL", 0)).unwrap().1.mechanism, SecurityMechanism::NULL);
    assert_eq!(greeting(&valid(b"PLAIN", 0)).unwrap().1.mechanism, SecurityMechanism::PLAIN);
    assert_eq!(greeting(&valid(b"CURVE", 0)).unwrap().1.mechanism, SecurityMechanism::CURVE);
}

#[test]
fn greeting_refuses_an_unknown_mechanism() {
    assert_eq!(greeting(&valid(b"GSSAPI", 0)), Err(ParseError::Malformed { offset: 12 }));
    assert_eq!(greeting(&valid(b"null", 0)), Err(ParseError::Malformed { offset: 12 }));
    assert_eq!(greeting(&valid(b"", 0)), Err(ParseError::Malformed { offset: 12 }));
}

#[test]
fn greeting_refuses_a_mechanism_with_bytes_after_the_name() {
    let mut bytes = valid(b"NULL", 0);
    bytes[12 + 19] = 1;
    assert_eq!(greeting(&bytes), Err(ParseError::Malformed { offset: 12 }));
    let mut bytes = valid(b"PLAIN", 0);
    bytes[12 + 5] = b'X';
    assert_eq!(greeting(&bytes), Err(ParseError::Malformed { offset: 12 }));
    let mut bytes = valid(b"CURVE", 0);
    bytes[12 + 10] = 0xff;
    assert_eq!(greeting(&bytes), Err(ParseError::Malformed { offset: 12 }));
}

#[test]
fn greeting_takes_any_version() {
    let mut bytes = valid(b"NULL", 0);
    bytes[10] = 0;
    bytes[11] = 255;
    assert_eq!(greeting(&bytes).unwrap().1.version, Version { major: 0, minor: 255 });
}

#[test]
fn greeting_reads_as_server_as_true_only_for_one() {
    assert!(greeting(&valid(b"NULL", 1)).unwrap().1.as_server);
    assert!(!greeting(&valid(b"NULL", 0)).unwrap().1.as_server);
    assert!(!greeting(&valid(b"NULL", 2)).unwrap().1.as_server);
    assert!(!greeting(&valid(b"NULL", 255)).unwrap().1.as_server);
}

#[test]
fn greeting_refuses_a_wrong_signature() {
    let mut bytes = valid(b"NULL", 0);
    bytes[0] = 0xfe;
    assert_eq!(greeting(&bytes), Err(ParseError::Malformed { offset: 0 }));
    // a wrong first byte is wrong at once, however little has arrived
    assert_eq!(greeting(&bytes[..1]), Err(ParseError::Malformed { offset: 0 }));

    let mut bytes = valid(b"NULL", 0);
    bytes[9] = 0x7e;
    assert_eq!(greeting(&bytes), Err(ParseError::Malformed { offset: 9 }));
    assert_eq!(greeting(&bytes[..10]), Err(ParseError::Malformed { offset: 9 }));
    assert_eq!(greeting(&bytes[..9]), Err(ParseError::Incomplete));
}

#[test]
fn greeting_refuses_a_filler_that_is_not_zero() {
    let mut bytes = valid(b"NULL", 0);
    bytes[63] = 1;
    assert_eq!(greeting(&bytes), Err(ParseError::Malformed { offset: 33 }));
    let mut bytes = valid(b"NULL", 0);
    bytes[33] = 1;
    assert_eq!(greeting(&bytes), Err(ParseError::Malformed { offset: 33 }));
    // refused as soon as the byte is there
    assert_eq!(greeting(&bytes[..34]), Err(ParseError::Malformed { offset: 33 }));
}

#[test]
fn greeting_is_incomplete_at_every_shorter_length() {
    let bytes = valid(b"CURVE", 1);
    for n in 0..64 {
        assert_eq!(greeting(&bytes[..n]), Err(ParseError::Incomplete), "length {}", n);
    }
    assert!(greeting(&bytes).is_ok());
}

#[test]
fn mechanism_description_names_the_variant() {
    assert_eq!(SecurityMechanism::NULL.description(), "SecurityMechanism::NULL");
    assert_eq!(SecurityMechanism::PLAIN.description(), "SecurityMechanism::PLAIN");
    assert_eq!(SecurityMechanism::CURVE.description(), "SecurityMechanism::CURVE");
}

#[test]
fn mechanism_try_from_wants_all_twenty_octets() {
    let mut field = [0u8; 20];
    field[..4].copy_from_slice(b"NULL");
    assert_eq!(SecurityMechanism::try_from(&field), Ok(SecurityMechanism::NULL));
    assert_eq!(
        SecurityMechanism::try_from(&field[..5]),
        Err(ParseError::Malformed { offset: 0 })
    );
    assert_eq!(SecurityMechanism::try_from(&[]), Err(ParseError::Malformed { offset: 0 }));
    field[..5].copy_from_slice(b"CURVE");
    assert_eq!(SecurityMechanism::try_from(&field), Ok(SecurityMechanism::CURVE));
    field[..5].copy_from_slice(b"PLAIN");
    assert_eq!(SecurityMechanism::try_from(&field), Ok(SecurityMechanism::PLAIN));
    field[..5].copy_from_slice(b"PLAIM");
    assert_eq!(SecurityMechanism::try_from(&field), Err(ParseError::Malformed { offset: 0 }));
}
