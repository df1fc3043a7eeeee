//! The byte containers of the `bytes` crate, as far as the store uses them.
//!
//! Verus does not look inside `Bytes` or `BytesMut`. What one holds is named
//! by [`bytes_contents`] and [`buffer_contents`], and the contracts below
//! say of each operation what it does to those contents. None of them is
//! proved: they restate what the `bytes` crate does.

use bytes::Buf;
use bytes::Bytes;
use bytes::BytesMut;
use std::ops::Deref;
use vstd::prelude::*;

verus! {

/// `bytes::Bytes`: a shared run of bytes. Nothing inside it is seen.
#[verifier::external_type_specification]
#[verifier::external_body]
pub struct ExBytes(bytes::Bytes);

/// `bytes::BytesMut`: a buffer of bytes that grows. Nothing inside it is
/// seen.
#[verifier::external_type_specification]
#[verifier::external_body]
pub struct ExBytesMut(bytes::BytesMut);

/// The bytes that a `Bytes` holds, in order.
pub uninterp spec fn bytes_contents(b: Bytes) -> Seq<u8>;

/// The bytes that a `BytesMut` holds, in order.
pub uninterp spec fn buffer_contents(b: BytesMut) -> Seq<u8>;

/// `Bytes::copy_from_slice` holds a copy of the slice.
pub assume_specification[ Bytes::copy_from_slice ](data: &[u8]) -> (b: Bytes)
    ensures
        bytes_contents(b) == data@,
;

/// `Bytes::len` is the number of bytes held.
pub assume_specification[ Bytes::len ](b: &Bytes) -> (n: usize)
    ensures
        n == bytes_contents(*b).len(),
;

/// `Bytes::from(Vec<u8>)` holds the bytes of the vector.
pub assume_specification[ <Bytes as From<Vec<u8>>>::from ](v: Vec<u8>) -> (b: Bytes)
    ensures
        bytes_contents(b) == v@,
;

/// A clone of a `Bytes` holds the same bytes.
pub assume_specification[ <Bytes as Clone>::clone ](b: &Bytes) -> (c: Bytes)
    ensures
        bytes_contents(c) == bytes_contents(*b),
;

/// A `Bytes` dereferences to the slice of the bytes it holds.
pub assume_specification<'a>[ <Bytes as Deref>::deref ](b: &'a Bytes) -> (s: &'a [u8])
    ensures
        s@ == bytes_contents(*b),
;

/// `BytesMut::with_capacity` makes an empty buffer, whatever the capacity.
pub assume_specification[ BytesMut::with_capacity ](capacity: usize) -> (b: BytesMut)
    ensures
        buffer_contents(b) == Seq::<u8>::empty(),
;

/// `BytesMut::is_empty` tells whether the buffer holds no byte.
pub assume_specification[ BytesMut::is_empty ](b: &BytesMut) -> (e: bool)
    ensures
        e == (buffer_contents(*b).len() == 0),
;

/// A `BytesMut` dereferences to the slice of the bytes it holds.
pub assume_specification<'a>[ <BytesMut as Deref>::deref ](b: &'a BytesMut) -> (s: &'a [u8])
    ensures
        s@ == buffer_contents(*b),
;

/// `Buf::advance` on a `BytesMut` drops the first `cnt` bytes. It panics
/// where the buffer holds fewer, so such a call is not admitted.
#[verifier::external_body]
pub(crate) fn buffer_advance(b: &mut BytesMut, cnt: usize)
    requires
        cnt <= buffer_contents(*old(b)).len(),
    ensures
        buffer_contents(*final(b)) == buffer_contents(*old(b)).skip(cnt as int),
{
    b.advance(cnt)
}

} // verus!
