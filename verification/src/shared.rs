//! The byte containers of the `bytes` crate, as far as the decoder uses them.
//!
//! `BytesMut` is the accumulation buffer of the streaming decoder; `Bytes` is
//! a reference-counted share of storage that was frozen, and what the owned
//! form of a frame holds. Verus does not look inside either: this module names
//! what each one holds and states what the methods in use do to it.

use vstd::prelude::*;

verus! {

/// `bytes::Bytes`, taken as it is: a value that is carried through, and
/// looked into only by way of [`shared_octets`].
#[verifier::external_type_specification]
#[verifier::external_body]
pub struct ExBytes(bytes::Bytes);

/// `bytes::BytesMut`, taken as it is: a value that is carried through, and
/// looked into only by way of [`buffered_octets`].
#[verifier::external_type_specification]
#[verifier::external_body]
pub struct ExBytesMut(bytes::BytesMut);

/// The bytes that a `Bytes` handle gives access to, in order.
pub uninterp spec fn shared_octets(b: bytes::Bytes) -> Seq<u8>;

/// The bytes that a `BytesMut` buffer holds, in order.
pub uninterp spec fn buffered_octets(b: bytes::BytesMut) -> Seq<u8>;

/// `BytesMut::new` makes an empty buffer.
pub assume_specification[ bytes::BytesMut::new ]() -> (b: bytes::BytesMut)
    ensures
        buffered_octets(b) == Seq::<u8>::empty(),
;

/// `BytesMut::len` is the number of bytes held.
pub assume_specification[ bytes::BytesMut::len ](b: &bytes::BytesMut) -> (n: usize)
    ensures
        n == buffered_octets(*b).len(),
;

/// `BytesMut::split_to` cuts the buffer in two at `at`: the bytes before it
/// are returned, the bytes from it on stay. It panics when `at` is past the end.
pub assume_specification[ bytes::BytesMut::split_to ](b: &mut bytes::BytesMut, at: usize) -> (front:
    bytes::BytesMut)
    requires
        at <= buffered_octets(*old(b)).len(),
    ensures
        buffered_octets(front) == buffered_octets(*old(b)).take(at as int),
        buffered_octets(*final(b)) == buffered_octets(*old(b)).skip(at as int),
;

/// `BytesMut::freeze` turns the buffer into a `Bytes` of the same content.
pub assume_specification[ bytes::BytesMut::freeze ](b: bytes::BytesMut) -> (frozen: bytes::Bytes)
    ensures
        shared_octets(frozen) == buffered_octets(b),
;

/// `BytesMut::extend_from_slice` appends a copy of `extend`. It panics when
/// the new length is more than an allocation can hold.
pub assume_specification[ bytes::BytesMut::extend_from_slice ](
    b: &mut bytes::BytesMut,
    extend: &[u8],
)
    requires
        buffered_octets(*old(b)).len() + extend@.len() <= isize::MAX,
    ensures
        buffered_octets(*final(b)) == buffered_octets(*old(b)) + extend@,
;

/// `Buf::advance` on a `BytesMut` drops the first `cnt` bytes. It panics when
/// fewer are held.
pub assume_specification[ <bytes::BytesMut as bytes::Buf>::advance ](
    b: &mut bytes::BytesMut,
    cnt: usize,
)
    requires
        cnt <= buffered_octets(*old(b)).len(),
    ensures
        buffered_octets(*final(b)) == buffered_octets(*old(b)).skip(cnt as int),
;

/// `AsRef<[u8]>` on a `BytesMut` lends the bytes held.
pub assume_specification<'a>[ <bytes::BytesMut as AsRef<[u8]>>::as_ref ](
    b: &'a bytes::BytesMut,
) -> (s: &'a [u8])
    ensures
        s@ == buffered_octets(*b),
;

/// `AsRef<[u8]>` on a `Bytes` lends the bytes it gives access to.
pub assume_specification<'a>[ <bytes::Bytes as AsRef<[u8]>>::as_ref ](b: &'a bytes::Bytes) -> (s:
    &'a [u8])
    ensures
        s@ == shared_octets(*b),
;

/// Calls `Bytes::slice` with the range `start..end`: a handle to that part of
/// the same storage, without a copy. `Bytes::slice` panics unless
/// `start <= end` and `end` is within the content.
#[verifier::external_body]
pub(crate) fn share(b: &bytes::Bytes, start: usize, end: usize) -> (part: bytes::Bytes)
    requires
        start <= end <= shared_octets(*b).len(),
    ensures
        shared_octets(part) == shared_octets(*b).subrange(start as int, end as int),
{
    b.slice(start..end)
}

} // verus!
