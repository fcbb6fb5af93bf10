//! Byte-bearing values: what the fields of a parsed frame hold.
//!
//! The same frame exists in two forms. In the *borrowed* form every byte field
//! is a [`Borrowed`]: a slice of the parse input together with the place where
//! it was cut. Nothing is copied, and the value lives as long as the input.
//! In the *owned* form every byte field is a `bytes::Bytes`: a share of frozen
//! storage, free to outlive the buffer it was received in. The offset that a
//! borrowed field remembers is what turns it into an owned one without a copy.

use crate::shared::{share, shared_octets};
use vstd::prelude::*;

verus! {

/// A value that stands for a run of bytes.
pub trait Octets {
    /// The bytes that the value stands for.
    spec fn octets(&self) -> Seq<u8>;

    /// The same bytes, to read.
    fn as_octets(&self) -> (s: &[u8])
        ensures
            s@ == self.octets(),
    ;
}

impl Octets for bytes::Bytes {
    open spec fn octets(&self) -> Seq<u8> {
        shared_octets(*self)
    }

    fn as_octets(&self) -> (s: &[u8]) {
        self.as_ref()
    }
}

/// A run of bytes lent out of a parse input, and where in that input it starts.
#[derive(Debug, Clone, Copy)]
pub struct Borrowed<'a> {
    pub bytes: &'a [u8],
    pub offset: usize,
}

impl<'a> Octets for Borrowed<'a> {
    open spec fn octets(&self) -> Seq<u8> {
        self.bytes@
    }

    fn as_octets(&self) -> (s: &[u8]) {
        self.bytes
    }
}

impl<'a> Borrowed<'a> {
    /// Whether this is the part of `base` that starts at `self.offset`.
    pub open spec fn cut_from(self, base: Seq<u8>) -> bool {
        self.cut_at(base, 0)
    }

    /// Whether this is a part of `input`, where `input` itself starts `origin`
    /// bytes into what the offset counts from.
    pub open spec fn cut_at(self, input: Seq<u8>, origin: nat) -> bool {
        &&& origin <= self.offset
        &&& self.offset - origin + self.bytes@.len() <= input.len()
        &&& self.bytes@ == input.subrange(
            self.offset - origin,
            self.offset - origin + self.bytes@.len(),
        )
    }

    /// A part of a part is a part of the whole: where `input` is what `whole`
    /// holds from its `k`-th byte on, or a beginning of that.
    pub proof fn lemma_cut_wider(self, input: Seq<u8>, whole: Seq<u8>, origin: nat, k: nat)
        requires
            k + input.len() <= whole.len(),
            input == whole.subrange(k as int, k as int + input.len()),
            self.cut_at(input, origin + k),
        ensures
            self.cut_at(whole, origin),
    {
        let start = self.offset - origin - k;
        let end = start + self.bytes@.len();
        assert(input.subrange(start, end) =~= whole.subrange(start + k, end + k));
    }

    /// The same bytes as a share of `buffer`, which they were cut from.
    pub fn to_shared(self, buffer: &bytes::Bytes) -> (owned: bytes::Bytes)
        requires
            self.cut_from(shared_octets(*buffer)),
        ensures
            owned.octets() == self.octets(),
    {
        let held = buffer.as_ref().len();
        assert(self.offset + self.bytes@.len() <= held);
        share(buffer, self.offset, self.offset + self.bytes.len())
    }
}

/// Whether two slices hold the same bytes.
pub fn same_bytes(a: &[u8], b: &[u8]) -> (same: bool)
    ensures
        same == (a@ == b@),
{
    if a.len() != b.len() {
        return false;
    }
    let mut i: usize = 0;
    while i < a.len()
        invariant
            a@.len() == b@.len(),
            i <= a@.len(),
            forall|k: int| 0 <= k < i ==> a@[k] == b@[k],
        decreases a@.len() - i,
    {
        if a[i] != b[i] {
            return false;
        }
        i += 1;
    }
    assert(a@ =~= b@);
    true
}

/// A run of opaque bytes in a frame: a reason, a topic, a value, a payload.
#[derive(Debug, Clone)]
pub struct ByteSlice<T>(pub T);

impl<T: Octets> View for ByteSlice<T> {
    type V = Seq<u8>;

    open spec fn view(&self) -> Seq<u8> {
        self.0.octets()
    }
}

impl<'a> ByteSlice<Borrowed<'a>> {
    /// Whether the bytes were cut from `base` at the offset they remember.
    pub open spec fn cut_from(self, base: Seq<u8>) -> bool {
        self.0.cut_from(base)
    }
}

impl ByteSlice<bytes::Bytes> {
    /// The owned form of `subset`: a share of `buffer`, which `subset` was cut from.
    pub fn from_borrowed(buffer: &bytes::Bytes, subset: ByteSlice<Borrowed<'_>>) -> (owned: Self)
        requires
            subset.cut_from(shared_octets(*buffer)),
        ensures
            owned@ == subset@,
    {
        ByteSlice(subset.0.to_shared(buffer))
    }
}

/// A diagnostic shows at most this many bytes of a slice.
pub const PRINTABLE_LIMIT: usize = 80;

/// A byte as a diagnostic shows it: itself where it is printable ASCII, a
/// full stop where it is not.
pub open spec fn printable_byte(v: u8) -> u8 {
    if 32 <= v < 127 {
        v
    } else {
        0x2e
    }
}

/// A run of bytes as a diagnostic shows it: the first [`PRINTABLE_LIMIT`]
/// bytes, each made printable.
pub open spec fn printable_spec(s: Seq<u8>) -> Seq<u8> {
    Seq::new(
        if s.len() < PRINTABLE_LIMIT {
            s.len()
        } else {
            PRINTABLE_LIMIT as nat
        },
        |i: int| printable_byte(s[i]),
    )
}

impl<T: Octets> ByteSlice<T> {
    /// The bytes in a form fit for a log line: printable ASCII only, and no
    /// more than [`PRINTABLE_LIMIT`] of them.
    pub fn printable(&self) -> (text: Vec<u8>)
        ensures
            text@ == printable_spec(self@),
    {
        let bytes = self.0.as_octets();
        let shown = if bytes.len() < PRINTABLE_LIMIT {
            bytes.len()
        } else {
            PRINTABLE_LIMIT
        };
        let mut text: Vec<u8> = Vec::new();
        let mut i: usize = 0;
        while i < shown
            invariant
                i <= shown <= bytes@.len(),
                text@.len() == i,
                forall|k: int| 0 <= k < i ==> text@[k] == printable_byte(bytes@[k]),
            decreases shown - i,
        {
            let v = bytes[i];
            text.push(if v >= 32 && v < 127 { v } else { 0x2e });
            i += 1;
        }
        assert(text@ =~= printable_spec(self@));
        text
    }
}

} // verus!
