use vstd::prelude::*;
use bytes::BytesMut;
use crate::decode::{parse, parse_message, ParseError, Parsed};
use crate::value::Value;

verus! {

#[verifier::external_type_specification]
#[verifier::external_body]
pub struct ExBytesMut(bytes::BytesMut);

/// The bytes that a `BytesMut` holds, front first.
pub uninterp spec fn held_bytes(b: BytesMut) -> Seq<u8>;

/// Relies on `BytesMut::with_capacity`: the new buffer holds no bytes.
#[verifier::external_body]
fn empty_buffer(capacity: usize) -> (r: BytesMut)
    ensures
        held_bytes(r) == Seq::<u8>::empty(),
{
    BytesMut::with_capacity(capacity)
}

/// Relies on `BytesMut::extend_from_slice`: the given bytes are appended.
#[verifier::external_body]
fn append_bytes(b: &mut BytesMut, data: &[u8])
    ensures
        held_bytes(*final(b)) == held_bytes(*old(b)) + data@,
{
    b.extend_from_slice(data)
}

/// Relies on `BytesMut`'s `Deref` to `[u8]`: the slice is the bytes held.
#[verifier::external_body]
fn held_slice(b: &BytesMut) -> (r: &[u8])
    ensures
        r@ == held_bytes(*b),
{
    b
}

/// Relies on `BytesMut`'s `Buf::advance`: the first `n` bytes are dropped.
/// It panics when `n` exceeds the length, so that is excluded.
#[verifier::external_body]
fn drop_front(b: &mut BytesMut, n: usize)
    requires
        n <= held_bytes(*old(b)).len(),
    ensures
        held_bytes(*final(b)) == held_bytes(*old(b)).skip(n as int),
{
    bytes::Buf::advance(b, n)
}

/// A connection's accumulation buffer: bytes arrive at the back, and whole
/// frames are taken from the front.
pub struct FrameBuffer {
    buffer: BytesMut,
}

impl View for FrameBuffer {
    type V = Seq<u8>;

    closed spec fn view(&self) -> Seq<u8> {
        held_bytes(self.buffer)
    }
}

impl FrameBuffer {
    /// An empty buffer.
    pub fn new() -> (r: FrameBuffer)
        ensures
            r@ == Seq::<u8>::empty(),
    {
        FrameBuffer { buffer: empty_buffer(512) }
    }

    /// Appends bytes read from the transport.
    pub fn push(&mut self, data: &[u8])
        ensures
            final(self)@ == old(self)@ + data@,
    {
        append_bytes(&mut self.buffer, data);
    }

    /// Takes the frame at the front, if it is whole, and removes exactly its
    /// bytes. When more bytes are needed, or the bytes are malformed, the
    /// buffer is left as it was.
    pub fn next_frame(&mut self) -> (r: Result<Option<Value>, ParseError>)
        ensures
            match parse(old(self)@) {
                Parsed::Done(v, n) => r matches Ok(Some(w)) && w@ == v && final(self)@ == old(self)@.skip(n as int),
                Parsed::Incomplete => r is Ok && r->Ok_0 is None && final(self)@ == old(self)@,
                Parsed::Failed(e) => r == Err::<Option<Value>, ParseError>(e) && final(self)@ == old(self)@,
            },
    {
        let parsed = parse_message(held_slice(&self.buffer));
        match parsed {
            Ok(Some((v, n))) => {
                drop_front(&mut self.buffer, n);
                Ok(Some(v))
            },
            Ok(None) => Ok(None),
            Err(e) => Err(e),
        }
    }
}

} // verus!
