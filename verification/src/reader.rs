//! The primitive reader: bounds-checked extraction of big-endian integers and
//! byte runs from the front of a byte slice.
//!
//! Every parser of this crate consumes its input through the functions of this
//! module, and through nothing else. Each one either hands back a value and
//! the rest of the input, or refuses without having read past the end.

use vstd::prelude::*;

verus! {

/// Why the primitive reader handed nothing back.
#[derive(Debug, Clone, Copy, PartialEq, Eq, Structural)]
pub enum ReadError {
    /// The input ends before the value does; more bytes may complete it.
    Incomplete,
    /// The bytes that are there are not the ones asked for.
    Mismatch,
}

/// Why a parser produced no value.
#[derive(Debug, Clone, Copy, PartialEq, Eq, Structural)]
pub enum ParseError {
    /// The input ends too early. Supplying more bytes may let the parse finish.
    Incomplete,
    /// The input can never be valid, however many bytes follow. `offset`
    /// counts the bytes before the field that was refused.
    Malformed { offset: usize },
}

/// What a parser makes of a byte sequence, as a mathematical value.
pub enum Outcome<T> {
    /// A value, and the number of bytes it took from the front.
    Parsed { value: T, consumed: nat },
    /// The sequence is a proper beginning of something that may yet be valid.
    Incomplete,
    /// No continuation of the sequence is valid; `offset` is where it went wrong.
    Malformed { offset: nat },
}

impl<T> Outcome<T> {
    /// The same outcome for a parser that started `n` bytes earlier.
    pub open spec fn after(self, n: nat) -> Outcome<T> {
        match self {
            Outcome::Parsed { value, consumed } => Outcome::Parsed { value, consumed: consumed + n },
            Outcome::Incomplete => Outcome::Incomplete,
            Outcome::Malformed { offset } => Outcome::Malformed { offset: offset + n },
        }
    }

    /// A failure carried over to a parser of another type, `n` bytes further in.
    pub open spec fn failure<U>(self, n: nat) -> Outcome<U>
        recommends
            !(self is Parsed),
    {
        match self {
            Outcome::Malformed { offset } => Outcome::Malformed { offset: offset + n },
            _ => Outcome::Incomplete,
        }
    }
}

impl ReadError {
    /// The parse error for a read that was refused `offset` bytes into the input.
    pub fn at(self, offset: usize) -> (e: ParseError)
        ensures
            e == self.spec_at(offset),
    {
        match self {
            ReadError::Incomplete => ParseError::Incomplete,
            ReadError::Mismatch => ParseError::Malformed { offset },
        }
    }

    /// What [`ReadError::at`] returns.
    pub open spec fn spec_at(self, offset: usize) -> ParseError {
        match self {
            ReadError::Incomplete => ParseError::Incomplete,
            ReadError::Mismatch => ParseError::Malformed { offset },
        }
    }
}

impl ParseError {
    /// Whether the place that a `Malformed` names lies within `len` bytes.
    pub open spec fn within(self, len: nat) -> bool {
        self matches ParseError::Malformed { offset } ==> offset <= len
    }

    /// The same error, seen from `base` bytes before the input it arose in.
    pub fn shifted(self, base: usize) -> (e: ParseError)
        requires
            self matches ParseError::Malformed { offset } ==> offset + base <= usize::MAX,
        ensures
            e == self.spec_shifted(base),
    {
        match self {
            ParseError::Incomplete => ParseError::Incomplete,
            ParseError::Malformed { offset } => ParseError::Malformed { offset: offset + base },
        }
    }

    /// What [`ParseError::shifted`] returns.
    pub open spec fn spec_shifted(self, base: usize) -> ParseError {
        match self {
            ParseError::Incomplete => ParseError::Incomplete,
            ParseError::Malformed { offset } => ParseError::Malformed {
                offset: (offset + base) as usize,
            },
        }
    }

    /// Whether this error is the one that `outcome` calls for.
    pub open spec fn reports<T>(self, outcome: Outcome<T>) -> bool {
        match self {
            ParseError::Incomplete => outcome is Incomplete,
            ParseError::Malformed { offset } => outcome == Outcome::<T>::Malformed {
                offset: offset as nat,
            },
        }
    }
}

/// Whether a parser that returned `value` and left `rest` of `input` did what
/// `outcome` calls for.
pub open spec fn parsed_as<T>(outcome: Outcome<T>, value: T, input: Seq<u8>, rest: Seq<u8>) -> bool {
    &&& outcome matches Outcome::Parsed { value: v, consumed }
    &&& v == value
    &&& consumed <= input.len()
    &&& rest == input.skip(consumed as int)
}

/// The number that two bytes spell, most significant first.
pub open spec fn be16(s: Seq<u8>) -> nat
    recommends
        s.len() >= 2,
{
    (s[0] as nat) * 0x100 + (s[1] as nat)
}

/// The number that four bytes spell, most significant first.
pub open spec fn be32(s: Seq<u8>) -> nat
    recommends
        s.len() >= 4,
{
    (s[0] as nat) * 0x100_0000 + (s[1] as nat) * 0x1_0000 + (s[2] as nat) * 0x100 + (s[3] as nat)
}

/// The number that eight bytes spell, most significant first.
pub open spec fn be64(s: Seq<u8>) -> nat
    recommends
        s.len() >= 8,
{
    be32(s) * 0x1_0000_0000 + be32(s.skip(4))
}

/// Calls `nom::number::streaming::be_u8`: the first byte and the input after
/// it, or `Incomplete` on an empty input.
#[verifier::external_body]
pub(crate) fn be_u8<'a>(input: &'a [u8]) -> (r: Result<(&'a [u8], u8), ReadError>)
    ensures
        match r {
            Ok((rest, v)) => input@.len() >= 1 && v == input@[0] && rest@ == input@.skip(1),
            Err(e) => input@.len() < 1 && e == ReadError::Incomplete,
        },
{
    match nom::number::streaming::be_u8::<(&[u8], nom::error::ErrorKind)>(input) {
        Ok((rest, v)) => Ok((rest, v)),
        Err(nom::Err::Incomplete(_)) => Err(ReadError::Incomplete),
        Err(_) => Err(ReadError::Mismatch),
    }
}

/// Calls `nom::number::streaming::be_u16`: the big-endian number in the first
/// two bytes and the input after them, or `Incomplete` when fewer are there.
#[verifier::external_body]
pub(crate) fn be_u16<'a>(input: &'a [u8]) -> (r: Result<(&'a [u8], u16), ReadError>)
    ensures
        match r {
            Ok((rest, v)) => input@.len() >= 2 && v == be16(input@) && rest@ == input@.skip(2),
            Err(e) => input@.len() < 2 && e == ReadError::Incomplete,
        },
{
    match nom::number::streaming::be_u16::<(&[u8], nom::error::ErrorKind)>(input) {
        Ok((rest, v)) => Ok((rest, v)),
        Err(nom::Err::Incomplete(_)) => Err(ReadError::Incomplete),
        Err(_) => Err(ReadError::Mismatch),
    }
}

/// Calls `nom::number::streaming::be_u32`: the big-endian number in the first
/// four bytes and the input after them, or `Incomplete` when fewer are there.
#[verifier::external_body]
pub(crate) fn be_u32<'a>(input: &'a [u8]) -> (r: Result<(&'a [u8], u32), ReadError>)
    ensures
        match r {
            Ok((rest, v)) => input@.len() >= 4 && v == be32(input@) && rest@ == input@.skip(4),
            Err(e) => input@.len() < 4 && e == ReadError::Incomplete,
        },
{
    match nom::number::streaming::be_u32::<(&[u8], nom::error::ErrorKind)>(input) {
        Ok((rest, v)) => Ok((rest, v)),
        Err(nom::Err::Incomplete(_)) => Err(ReadError::Incomplete),
        Err(_) => Err(ReadError::Mismatch),
    }
}

/// Calls `nom::number::streaming::be_u64`: the big-endian number in the first
/// eight bytes and the input after them, or `Incomplete` when fewer are there.
#[verifier::external_body]
pub(crate) fn be_u64<'a>(input: &'a [u8]) -> (r: Result<(&'a [u8], u64), ReadError>)
    ensures
        match r {
            Ok((rest, v)) => input@.len() >= 8 && v == be64(input@) && rest@ == input@.skip(8),
            Err(e) => input@.len() < 8 && e == ReadError::Incomplete,
        },
{
    match nom::number::streaming::be_u64::<(&[u8], nom::error::ErrorKind)>(input) {
        Ok((rest, v)) => Ok((rest, v)),
        Err(nom::Err::Incomplete(_)) => Err(ReadError::Incomplete),
        Err(_) => Err(ReadError::Mismatch),
    }
}

/// Calls `nom::bytes::streaming::take`: the first `count` bytes and the input
/// after them, or `Incomplete` when the input is shorter than `count`.
#[verifier::external_body]
pub(crate) fn take<'a>(input: &'a [u8], count: usize) -> (r: Result<
    (&'a [u8], &'a [u8]),
    ReadError,
>)
    ensures
        match r {
            Ok((rest, taken)) => count <= input@.len() && taken@ == input@.take(count as int)
                && rest@ == input@.skip(count as int),
            Err(e) => count > input@.len() && e == ReadError::Incomplete,
        },
{
    match nom::bytes::streaming::take::<usize, &[u8], (&[u8], nom::error::ErrorKind)>(count)(input) {
        Ok((rest, taken)) => Ok((rest, taken)),
        Err(nom::Err::Incomplete(_)) => Err(ReadError::Incomplete),
        Err(_) => Err(ReadError::Mismatch),
    }
}

/// Whether two sequences disagree at a place that both have.
pub open spec fn differ_within(a: Seq<u8>, b: Seq<u8>) -> bool {
    exists|i: int| 0 <= i < a.len() && i < b.len() && a[i] != b[i]
}

/// Calls `nom::bytes::streaming::tag` with a byte slice as the pattern. The
/// input must begin with `pattern`: where it does, the pattern as found and
/// the input after it; `Mismatch` as soon as one byte that is there differs;
/// `Incomplete` while the input is a beginning of the pattern and shorter.
#[verifier::external_body]
pub(crate) fn tag<'a>(input: &'a [u8], pattern: &[u8]) -> (r: Result<
    (&'a [u8], &'a [u8]),
    ReadError,
>)
    ensures
        match r {
            Ok((rest, found)) => !differ_within(input@, pattern@) && pattern@.len() <= input@.len()
                && found@ == input@.take(pattern@.len() as int) && rest@ == input@.skip(
                pattern@.len() as int,
            ),
            Err(ReadError::Mismatch) => differ_within(input@, pattern@),
            Err(ReadError::Incomplete) => !differ_within(input@, pattern@) && pattern@.len()
                > input@.len(),
        },
{
    match nom::bytes::streaming::tag::<&[u8], &[u8], (&[u8], nom::error::ErrorKind)>(pattern)(input) {
        Ok((rest, found)) => Ok((rest, found)),
        Err(nom::Err::Incomplete(_)) => Err(ReadError::Incomplete),
        Err(_) => Err(ReadError::Mismatch),
    }
}

/// The bytes that `nom::character::is_alphanumeric` accepts: the ASCII letters
/// and digits.
pub assume_specification[ nom::character::is_alphanumeric ](chr: u8) -> (r: bool)
    ensures
        r == (0x41 <= chr <= 0x5A || 0x61 <= chr <= 0x7A || 0x30 <= chr <= 0x39),
;

/// The bytes a property name may hold: ASCII letters, digits, `-`, `_`, `.`, `+`.
pub open spec fn name_char(v: u8) -> bool {
    ||| 0x41 <= v <= 0x5A
    ||| 0x61 <= v <= 0x7A
    ||| 0x30 <= v <= 0x39
    ||| v == 0x2D
    ||| v == 0x5F
    ||| v == 0x2E
    ||| v == 0x2B
}

/// Whether `v` may stand in a property name.
pub fn is_name_char(v: u8) -> (r: bool)
    ensures
        r == name_char(v),
{
    v == 0x2D || v == 0x5F || v == 0x2E || v == 0x2B || nom::character::is_alphanumeric(v)
}

/// Whether one of the first `count` bytes of `s`, as far as they are there, may
/// not stand in a property name.
pub open spec fn bad_name_char_within(s: Seq<u8>, count: nat) -> bool {
    exists|i: int| 0 <= i < s.len() && i < count && !name_char(s[i])
}

/// Calls `nom::bytes::streaming::take_while_m_n` with both bounds set to
/// `count` and [`is_name_char`] as the test: a run of exactly `count` name
/// characters. `Mismatch` as soon as one of the first `count` bytes that are
/// there is no name character; `Incomplete` while all that are there are name
/// characters and there are fewer than `count`.
#[verifier::external_body]
pub(crate) fn take_name_chars<'a>(input: &'a [u8], count: usize) -> (r: Result<
    (&'a [u8], &'a [u8]),
    ReadError,
>)
    ensures
        match r {
            Ok((rest, name)) => !bad_name_char_within(input@, count as nat) && count <= input@.len()
                && name@ == input@.take(count as int) && rest@ == input@.skip(count as int),
            Err(ReadError::Mismatch) => bad_name_char_within(input@, count as nat),
            Err(ReadError::Incomplete) => !bad_name_char_within(input@, count as nat) && count
                > input@.len(),
        },
{
    let run = nom::bytes::streaming::take_while_m_n::<_, &[u8], (&[u8], nom::error::ErrorKind)>(
        count,
        count,
        |b: u8| is_name_char(b),
    );
    match run(input) {
        Ok((rest, name)) => Ok((rest, name)),
        Err(nom::Err::Incomplete(_)) => Err(ReadError::Incomplete),
        Err(_) => Err(ReadError::Mismatch),
    }
}

} // verus!
