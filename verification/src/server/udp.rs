//! The UDP receiver: every datagram is a frame.

use crate::buffer::pending;
use crate::server::{decoded_by, deliver, Received};
use bytes::{Bytes, BytesMut};
use vstd::prelude::*;

verus! {

/// Hands each datagram, whole, to a decoder.
pub struct Decode<F>(F);

impl<F> Decode<F> {
    /// The decoder that datagrams are handed to.
    pub closed spec fn receiver(&self) -> F {
        self.0
    }

    /// A receiver of datagrams for the decoder `receive`.
    pub fn new(receive: F) -> (decode: Self)
        ensures
            decode.receiver() == receive,
    {
        Decode(receive)
    }

    /// Takes all of `src` as one frame and yields what the decoder makes of it.
    pub fn decode<M, E>(&mut self, src: &mut BytesMut) -> (yielded: Result<Option<Received<M>>, E>)
        where F: FnMut(Bytes) -> Result<Option<M>, E>
        requires
            forall|bytes: Bytes| call_requires(old(self).receiver(), (bytes,)),
        ensures
            final(self).receiver() == old(self).receiver(),
            pending(*final(src)) == Seq::<u8>::empty(),
            decoded_by(old(self).receiver(), pending(*old(src)), yielded),
    {
        let len = src.len();
        let ghost datagram = pending(*src);
        let frame = src.split_to(len).freeze();
        assert(crate::buffer::payload(frame) =~= datagram);
        assert(pending(*src) =~= Seq::<u8>::empty());
        assert(call_requires(self.receiver(), (frame,)));
        deliver((self.0)(frame))
    }
}

} // verus!
