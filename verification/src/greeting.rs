//! The greeting: the fixed 64 octets that open a connection.
//!
//! greeting = signature version mechanism as-server filler

use crate::octets::same_bytes;
use crate::reader::{be_u8, differ_within, parsed_as, tag, take, Outcome, ParseError};
use vstd::prelude::*;

verus! {

/// What a peer announces when it opens a connection.
#[derive(Debug, Clone, Copy, PartialEq, Eq, Structural)]
pub struct Greeting {
    pub version: Version,
    pub mechanism: SecurityMechanism,
    pub as_server: bool,
}

/// The protocol version of a peer. Both parts are taken as they come; whether
/// a version is acceptable is for the session to decide.
#[derive(Debug, Clone, Copy, PartialEq, Eq, Structural)]
pub struct Version {
    pub major: u8,
    pub minor: u8,
}

/// The security mechanisms that a greeting can name.
#[derive(Debug, Clone, Copy, PartialEq, Eq, Structural)]
pub enum SecurityMechanism {
    NULL,
    PLAIN,
    CURVE,
}

/// The 20 octets that name a mechanism on the wire: its name in ASCII,
/// padded with NUL.
pub open spec fn mechanism_field(mechanism: SecurityMechanism) -> Seq<u8> {
    match mechanism {
        SecurityMechanism::NULL => seq![
            0x4eu8, 0x55u8, 0x4cu8, 0x4cu8, 0u8, 0u8, 0u8, 0u8, 0u8, 0u8,
            0u8, 0u8, 0u8, 0u8, 0u8, 0u8, 0u8, 0u8, 0u8, 0u8,
        ],
        SecurityMechanism::PLAIN => seq![
            0x50u8, 0x4cu8, 0x41u8, 0x49u8, 0x4eu8, 0u8, 0u8, 0u8, 0u8, 0u8,
            0u8, 0u8, 0u8, 0u8, 0u8, 0u8, 0u8, 0u8, 0u8, 0u8,
        ],
        SecurityMechanism::CURVE => seq![
            0x43u8, 0x55u8, 0x52u8, 0x56u8, 0x45u8, 0u8, 0u8, 0u8, 0u8, 0u8,
            0u8, 0u8, 0u8, 0u8, 0u8, 0u8, 0u8, 0u8, 0u8, 0u8,
        ],
    }
}

/// The mechanism that a 20-octet field names, if it names one.
pub open spec fn mechanism_named(field: Seq<u8>) -> Option<SecurityMechanism> {
    if field == mechanism_field(SecurityMechanism::NULL) {
        Some(SecurityMechanism::NULL)
    } else if field == mechanism_field(SecurityMechanism::PLAIN) {
        Some(SecurityMechanism::PLAIN)
    } else if field == mechanism_field(SecurityMechanism::CURVE) {
        Some(SecurityMechanism::CURVE)
    } else {
        None
    }
}

impl SecurityMechanism {
    /// The name of the variant, for diagnostics.
    pub fn description(&self) -> (text: &'static str)
        ensures
            text@ == self.spec_description(),
    {
        match self {
            SecurityMechanism::NULL => "SecurityMechanism::NULL",
            SecurityMechanism::PLAIN => "SecurityMechanism::PLAIN",
            SecurityMechanism::CURVE => "SecurityMechanism::CURVE",
        }
    }

    /// What [`SecurityMechanism::description`] returns.
    pub open spec fn spec_description(&self) -> Seq<char> {
        match self {
            SecurityMechanism::NULL => "SecurityMechanism::NULL"@,
            SecurityMechanism::PLAIN => "SecurityMechanism::PLAIN"@,
            SecurityMechanism::CURVE => "SecurityMechanism::CURVE"@,
        }
    }

    /// The mechanism that the mechanism field `value` names. Only the three
    /// padded names are accepted, each in full; anything else is refused.
    pub fn try_from(value: &[u8]) -> (r: Result<SecurityMechanism, ParseError>)
        ensures
            match r {
                Ok(mechanism) => mechanism_named(value@) == Some(mechanism),
                Err(e) => mechanism_named(value@) is None && e == (ParseError::Malformed {
                    offset: 0,
                }),
            },
    {
        // all three have the same length; the names are zero-padded
        let null: [u8; 20] = [0x4e, 0x55, 0x4c, 0x4c, 0, 0, 0, 0, 0, 0, 0, 0, 0, 0, 0, 0, 0, 0, 0, 0];
        let plain: [u8; 20] = [
            0x50, 0x4c, 0x41, 0x49, 0x4e, 0, 0, 0, 0, 0, 0, 0, 0, 0, 0, 0, 0, 0, 0, 0,
        ];
        let curve: [u8; 20] = [
            0x43, 0x55, 0x52, 0x56, 0x45, 0, 0, 0, 0, 0, 0, 0, 0, 0, 0, 0, 0, 0, 0, 0,
        ];
        proof {
            assert(null@ =~= mechanism_field(SecurityMechanism::NULL));
            assert(plain@ =~= mechanism_field(SecurityMechanism::PLAIN));
            assert(curve@ =~= mechanism_field(SecurityMechanism::CURVE));
        }
        if same_bytes(value, null.as_slice()) {
            Ok(SecurityMechanism::NULL)
        } else if same_bytes(value, plain.as_slice()) {
            Ok(SecurityMechanism::PLAIN)
        } else if same_bytes(value, curve.as_slice()) {
            Ok(SecurityMechanism::CURVE)
        } else {
            Err(ParseError::Malformed { offset: 0 })
        }
    }
}

/// The signature: `0xFF`, eight octets that do not matter, `0x7F`.
pub open spec fn signature_spec(s: Seq<u8>) -> Outcome<()> {
    if s.len() < 1 {
        Outcome::Incomplete
    } else if s[0] != 0xff {
        Outcome::Malformed { offset: 0 }
    } else if s.len() < 10 {
        Outcome::Incomplete
    } else if s[9] != 0x7f {
        Outcome::Malformed { offset: 9 }
    } else {
        Outcome::Parsed { value: (), consumed: 10 }
    }
}

/// The version: one octet major, one octet minor, whatever they hold.
pub open spec fn version_spec(s: Seq<u8>) -> Outcome<Version> {
    if s.len() < 2 {
        Outcome::Incomplete
    } else {
        Outcome::Parsed { value: Version { major: s[0], minor: s[1] }, consumed: 2 }
    }
}

/// The mechanism: 20 octets that spell one of the three padded names.
pub open spec fn mechanism_spec(s: Seq<u8>) -> Outcome<SecurityMechanism> {
    if s.len() < 20 {
        Outcome::Incomplete
    } else {
        match mechanism_named(s.take(20)) {
            Some(mechanism) => Outcome::Parsed { value: mechanism, consumed: 20 },
            None => Outcome::Malformed { offset: 0 },
        }
    }
}

/// The as-server octet: `0x01` says yes, every other value says no.
pub open spec fn as_server_spec(s: Seq<u8>) -> Outcome<bool> {
    if s.len() < 1 {
        Outcome::Incomplete
    } else {
        Outcome::Parsed { value: s[0] == 0x01, consumed: 1 }
    }
}

/// The 31 zero octets that fill the greeting up to 64.
pub open spec fn filler_field() -> Seq<u8> {
    Seq::new(31, |i: int| 0u8)
}

/// The filler: 31 octets, all zero. A byte that is not zero is refused as
/// soon as it is there.
pub open spec fn filler_spec(s: Seq<u8>) -> Outcome<()> {
    if differ_within(s, filler_field()) {
        Outcome::Malformed { offset: 0 }
    } else if s.len() < 31 {
        Outcome::Incomplete
    } else {
        Outcome::Parsed { value: (), consumed: 31 }
    }
}

/// The greeting at the front of `s`: its five fields one after another, each
/// refused where it starts (the signature's last octet where it stands).
pub open spec fn greeting_spec(s: Seq<u8>) -> Outcome<Greeting> {
    match signature_spec(s) {
        Outcome::Parsed { .. } => match version_spec(s.skip(10)) {
            Outcome::Parsed { value: version, .. } => match mechanism_spec(s.skip(12)) {
                Outcome::Parsed { value: mechanism, .. } => match as_server_spec(s.skip(32)) {
                    Outcome::Parsed { value: as_server, .. } => match filler_spec(s.skip(33)) {
                        Outcome::Parsed { .. } => Outcome::Parsed {
                            value: Greeting { version, mechanism, as_server },
                            consumed: 64,
                        },
                        other => other.failure(33),
                    },
                    other => other.failure(32),
                },
                other => other.failure(12),
            },
            other => other.failure(10),
        },
        other => other.failure(0),
    }
}

/// Once a greeting has been parsed or refused, bytes that follow change
/// nothing: only an incomplete greeting is still open.
pub proof fn lemma_greeting_stable(s: Seq<u8>, more: Seq<u8>)
    requires
        !(greeting_spec(s) is Incomplete),
    ensures
        greeting_spec(s + more) == greeting_spec(s),
{
    let longer = s + more;
    assert(longer[0] == s[0]);
    if signature_spec(s) is Parsed {
        assert(longer[9] == s[9]);
        if version_spec(s.skip(10)) is Parsed {
            assert(longer.skip(10)[0] == s.skip(10)[0]);
            assert(longer.skip(10)[1] == s.skip(10)[1]);
            if mechanism_spec(s.skip(12)) is Parsed {
                assert(longer.skip(12).take(20) =~= s.skip(12).take(20));
                if as_server_spec(s.skip(32)) is Parsed {
                    assert(longer.skip(32)[0] == s.skip(32)[0]);
                    lemma_filler_stable(s.skip(33), more);
                    assert(longer.skip(33) =~= s.skip(33) + more);
                }
            } else {
                assert(s.len() >= 32);
                assert(longer.skip(12).take(20) =~= s.skip(12).take(20));
            }
        }
    } else if s[0] == 0xff {
        assert(longer[9] == s[9]);
    }
}

proof fn lemma_filler_stable(s: Seq<u8>, more: Seq<u8>)
    requires
        !(filler_spec(s) is Incomplete),
    ensures
        filler_spec(s + more) == filler_spec(s),
{
    let longer = s + more;
    if differ_within(s, filler_field()) {
        let i = choose|i: int| 0 <= i < s.len() && i < filler_field().len() && s[i] != filler_field()[i];
        assert(longer[i] == s[i]);
    } else {
        assert(s.len() >= 31);
        assert forall|i: int| 0 <= i < longer.len() && i < filler_field().len() implies longer[i]
            == filler_field()[i] by {
            assert(longer[i] == s[i]);
        }
    }
}

/// Parses the greeting of a connection from the front of `input`.
pub fn greeting<'a>(input: &'a [u8]) -> (r: Result<(&'a [u8], Greeting), ParseError>)
    ensures
        match r {
            Ok((rest, greeting)) => parsed_as(greeting_spec(input@), greeting, input@, rest@),
            Err(e) => e.reports(greeting_spec(input@)) && e.within(input@.len()),
        },
{
    let (after_signature, _) = match signature(input) {
        Ok(v) => v,
        Err(e) => return Err(e),
    };
    let (after_version, version) = match version(after_signature) {
        Ok(v) => v,
        Err(e) => return Err(e.shifted(10)),
    };
    assert(after_version@ == input@.skip(12));
    let (after_mechanism, sec_mechanism) = match mechanism(after_version) {
        Ok(v) => v,
        Err(e) => return Err(e.shifted(12)),
    };
    assert(after_mechanism@ == input@.skip(32));
    let (after_as_server, as_server) = match as_server(after_mechanism) {
        Ok(v) => v,
        Err(e) => return Err(e.shifted(32)),
    };
    assert(after_as_server@ == input@.skip(33));
    let (rest, _) = match filler(after_as_server) {
        Ok(v) => v,
        Err(e) => return Err(e.shifted(33)),
    };
    assert(rest@ == input@.skip(64));

    Ok((rest, Greeting { version, mechanism: sec_mechanism, as_server }))
}

/// Succeeds where the signature is the right one.
fn signature<'a>(input: &'a [u8]) -> (r: Result<(&'a [u8], ()), ParseError>)
    ensures
        match r {
            Ok((rest, unit)) => parsed_as(signature_spec(input@), unit, input@, rest@),
            Err(e) => e.reports(signature_spec(input@)) && e.within(input@.len()),
        },
{
    // signature = %xFF padding %x7F
    // padding = 8OCTET        ; Not significant
    let first: [u8; 1] = [0xff];
    let last: [u8; 1] = [0x7f];
    let (after_first, _) = match tag(input, first.as_slice()) {
        Ok(v) => v,
        Err(e) => return Err(e.at(0)),
    };
    let (after_padding, _) = match take(after_first, 8) {
        Ok(v) => v,
        Err(e) => return Err(e.at(1)),
    };
    let (rest, _) = match tag(after_padding, last.as_slice()) {
        Ok(v) => v,
        Err(e) => {
            assert(after_padding@ == input@.skip(9));
            return Err(e.at(9));
        },
    };
    proof {
        assert(after_padding@ == input@.skip(9));
        assert(rest@ == input@.skip(10));
    }
    Ok((rest, ()))
}

fn version<'a>(input: &'a [u8]) -> (r: Result<(&'a [u8], Version), ParseError>)
    ensures
        match r {
            Ok((rest, version)) => parsed_as(version_spec(input@), version, input@, rest@),
            Err(e) => e.reports(version_spec(input@)) && e.within(input@.len()),
        },
{
    // version = version-major version-minor
    let (after_major, major) = match be_u8(input) {
        Ok(v) => v,
        Err(e) => return Err(e.at(0)),
    };
    let (rest, minor) = match be_u8(after_major) {
        Ok(v) => v,
        Err(e) => return Err(e.at(1)),
    };
    assert(rest@ == input@.skip(2));
    Ok((rest, Version { major, minor }))
}

fn mechanism<'a>(input: &'a [u8]) -> (r: Result<(&'a [u8], SecurityMechanism), ParseError>)
    ensures
        match r {
            Ok((rest, mechanism)) => parsed_as(mechanism_spec(input@), mechanism, input@, rest@),
            Err(e) => e.reports(mechanism_spec(input@)) && e.within(input@.len()),
        },
{
    // ;   The mechanism is a null padded string
    // mechanism = 20mechanism-char
    let (rest, mechanism_str) = match take(input, 20) {
        Ok(v) => v,
        Err(e) => return Err(e.at(0)),
    };
    let mec = match SecurityMechanism::try_from(mechanism_str) {
        Ok(v) => v,
        Err(e) => return Err(e),
    };
    Ok((rest, mec))
}

fn as_server<'a>(input: &'a [u8]) -> (r: Result<(&'a [u8], bool), ParseError>)
    ensures
        match r {
            Ok((rest, yes)) => parsed_as(as_server_spec(input@), yes, input@, rest@),
            Err(e) => e.reports(as_server_spec(input@)) && e.within(input@.len()),
        },
{
    // ;   Is the peer acting as server for security handshake?
    // as-server = %x00 | %x01
    let (rest, val) = match be_u8(input) {
        Ok(v) => v,
        Err(e) => return Err(e.at(0)),
    };
    Ok((rest, val == 0x01))
}

fn filler<'a>(input: &'a [u8]) -> (r: Result<(&'a [u8], ()), ParseError>)
    ensures
        match r {
            Ok((rest, unit)) => parsed_as(filler_spec(input@), unit, input@, rest@),
            Err(e) => e.reports(filler_spec(input@)) && e.within(input@.len()),
        },
{
    // ;   The filler extends the greeting to 64 octets
    // filler = 31%x00             ; 31 zero octets
    let zeros: [u8; 31] = [0u8; 31];
    assert(zeros@ =~= filler_field());
    let (rest, _) = match tag(input, zeros.as_slice()) {
        Ok(v) => v,
        Err(e) => return Err(e.at(0)),
    };
    Ok((rest, ()))
}

} // verus!
