//! A lazy producer of a message's wire form, one byte or one buffer at a time.
use crate::codec::{
    byte_at, lemma_serialize_from_len, lemma_stream_matches_serialize, serialize, stream_byte,
    EncodingError,
};
use crate::message::{ClientHello, ClientHelloView};
use vstd::prelude::*;

verus! {

/// Produces the wire form of a valid message without building it up front.
pub struct ClientHelloIterator {
    msg: ClientHello,
    position: usize,
}

impl ClientHelloIterator {
    #[verifier::type_invariant]
    spec fn inv(&self) -> bool {
        &&& self.msg@.valid()
        &&& self.position <= serialize(self.msg@).len()
    }

    /// The message being produced.
    pub closed spec fn message(&self) -> ClientHelloView {
        self.msg@
    }

    /// How many bytes have been produced so far.
    pub closed spec fn position(&self) -> nat {
        self.position as nat
    }

    /// The next byte of the wire form, or `None` once all have been produced.
    pub fn next(&mut self) -> (r: Option<u8>)
        ensures
            final(self).message() == old(self).message(),
            r == stream_byte(old(self).message(), old(self).position()),
            final(self).position() == if r is Some {
                old(self).position() + 1
            } else {
                old(self).position()
            },
            final(self).message().valid(),
            final(self).position() <= serialize(final(self).message()).len(),
    {
        proof {
            use_type_invariant(&*self);
            lemma_stream_matches_serialize(self.msg@, self.position as nat);
            lemma_serialize_from_len(self.msg@, 0);
        }
        let r = byte_at(&self.msg, self.position);
        if r.is_some() {
            self.position = self.position + 1;
        }
        r
    }

    /// Writes the next bytes into `buf` from its start and returns how many:
    /// fewer than `buf.len()` only when the wire form runs out, so `0` on a
    /// non-empty `buf` means that all of it has been produced.
    pub fn read(&mut self, buf: &mut [u8]) -> (r: usize)
        ensures
            final(self).message() == old(self).message(),
            final(self).position() == old(self).position() + r,
            r <= old(buf)@.len(),
            final(buf)@.len() == old(buf)@.len(),
            forall|j: int|
                0 <= j < r ==> stream_byte(old(self).message(), (old(self).position() + j) as nat)
                    == Some(#[trigger] final(buf)@[j]),
            forall|j: int| r <= j < old(buf)@.len() ==> #[trigger] final(buf)@[j] == old(buf)@[j],
            r < old(buf)@.len() ==> stream_byte(
                old(self).message(),
                (old(self).position() + r) as nat,
            ) is None,
    {
        let len = buf.len();
        let mut written: usize = 0;
        while written < len
            invariant
                len == buf@.len() == old(buf)@.len(),
                written <= len,
                self.message() == old(self).message(),
                self.position() == old(self).position() + written,
                forall|j: int|
                    0 <= j < written ==> stream_byte(
                        old(self).message(),
                        (old(self).position() + j) as nat,
                    ) == Some(#[trigger] buf@[j]),
                forall|j: int| written <= j < len ==> #[trigger] buf@[j] == old(buf)@[j],
            decreases len - written,
        {
            match self.next() {
                Some(b) => {
                    buf[written] = b;
                },
                None => {
                    return written;
                },
            }
            written = written + 1;
        }
        written
    }
}

impl ClientHello {
    /// A producer of the message's wire form; fails, naming the first field
    /// in wire order that breaks its size rule, if any does.
    pub fn into_stream(self) -> (r: Result<ClientHelloIterator, EncodingError>)
        ensures
            r is Ok <==> self@.valid(),
            match r {
                Ok(s) => s.message() == self@ && s.position() == 0,
                Err(e) => self@.first_violation() == Some(e.field),
            },
    {
        if let Some(f) = self.first_violation() {
            return Err(EncodingError { field: f });
        }
        Ok(ClientHelloIterator { msg: self, position: 0 })
    }
}

} // verus!
