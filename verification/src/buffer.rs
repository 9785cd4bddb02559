//! What this crate assumes of the `bytes` crate's two buffer types.
//!
//! Nothing here is proved. Each item states, over the sequence of bytes a
//! buffer holds, what the `bytes` source shows of one of its functions.

use bytes::{Buf, Bytes, BytesMut};
use vstd::prelude::*;

verus! {

/// `bytes::BytesMut`, a growable byte buffer. Verus sees nothing inside it.
#[verifier::external_type_specification]
#[verifier::external_body]
pub struct ExBytesMut(BytesMut);

/// `bytes::Bytes`, an immutable byte buffer. Verus sees nothing inside it.
#[verifier::external_type_specification]
#[verifier::external_body]
pub struct ExBytes(Bytes);

/// The bytes a `BytesMut` holds, first to last.
pub uninterp spec fn pending(src: BytesMut) -> Seq<u8>;

/// The bytes a `Bytes` holds, first to last.
pub uninterp spec fn payload(frame: Bytes) -> Seq<u8>;

/// `BytesMut::len` returns the number of bytes held.
pub assume_specification[ BytesMut::len ](src: &BytesMut) -> (n: usize)
    ensures
        n == pending(*src).len(),
;

/// `BytesMut::split_to` hands out the first `at` bytes as a buffer of their
/// own and keeps the rest. It panics when `at` is past the end.
pub assume_specification[ BytesMut::split_to ](src: &mut BytesMut, at: usize) -> (front: BytesMut)
    requires
        at <= pending(*old(src)).len(),
    ensures
        pending(front) == pending(*old(src)).take(at as int),
        pending(*final(src)) == pending(*old(src)).skip(at as int),
;

/// `BytesMut::freeze` turns the buffer into a `Bytes` with the same content.
pub assume_specification[ BytesMut::freeze ](src: BytesMut) -> (frame: Bytes)
    ensures
        payload(frame) == pending(src),
;

/// `Buf::advance` on a `BytesMut` drops the first `cnt` bytes. It panics when
/// `cnt` is past the end.
pub assume_specification[ <BytesMut as Buf>::advance ](src: &mut BytesMut, cnt: usize)
    requires
        cnt <= pending(*old(src)).len(),
    ensures
        pending(*final(src)) == pending(*old(src)).skip(cnt as int),
;

/// `AsRef<[u8]>::as_ref` on a `BytesMut` lends the bytes held as a slice.
pub assume_specification<'a>[ <BytesMut as AsRef<[u8]>>::as_ref ](src: &'a BytesMut) -> (bytes: &'a [u8])
    ensures
        bytes@ == pending(*src),
;

} // verus!
