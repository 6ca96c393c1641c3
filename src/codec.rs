use vstd::prelude::*;

use bytes::BytesMut;

use crate::data::Data;
use crate::error::Error;
use crate::parser::{frame, lemma_frame_within, parse_frame, Frame, ParseError, Parsed, MAX_DEPTH};
use crate::ser::{encode, to_bytes, NullType};

verus! {

/// Relies on `bytes::BytesMut`, the growable byte buffer that the decoder reads from and the
/// encoder writes to. Its bytes are `buffer_bytes`.
#[verifier::external_type_specification]
#[verifier::external_body]
pub struct ExBytesMut(BytesMut);

/// The bytes that a buffer holds, in order.
pub uninterp spec fn buffer_bytes(b: BytesMut) -> Seq<u8>;

/// Relies on `BytesMut::as_ref`: the slice is the bytes the buffer holds.
#[verifier::external_body]
fn buf_view(b: &BytesMut) -> (r: &[u8])
    ensures
        r@ == buffer_bytes(*b),
{
    b.as_ref()
}

/// Relies on `Buf::advance` for `BytesMut`: the first `n` bytes are dropped. It panics when
/// `n` exceeds the length, which `requires` rules out.
#[verifier::external_body]
fn buf_advance(b: &mut BytesMut, n: usize)
    requires
        n <= buffer_bytes(*old(b)).len(),
    ensures
        buffer_bytes(*final(b)) == buffer_bytes(*old(b)).subrange(
            n as int,
            buffer_bytes(*old(b)).len() as int,
        ),
{
    bytes::Buf::advance(b, n)
}

/// Relies on `BytesMut::reserve`: only the capacity changes, never the bytes held. It
/// panics when the new capacity overflows, which `requires` rules out.
#[verifier::external_body]
fn buf_reserve(b: &mut BytesMut, n: usize)
    requires
        buffer_bytes(*old(b)).len() + n <= isize::MAX,
    ensures
        buffer_bytes(*final(b)) == buffer_bytes(*old(b)),
{
    b.reserve(n)
}

/// Relies on `BytesMut::extend_from_slice`: the bytes of `src` are appended.
#[verifier::external_body]
fn buf_extend(b: &mut BytesMut, src: &[u8])
    requires
        buffer_bytes(*old(b)).len() + src@.len() <= isize::MAX,
    ensures
        buffer_bytes(*final(b)) == buffer_bytes(*old(b)) + src@,
{
    b.extend_from_slice(src)
}

/// What one call of the decoder does to a buffer holding `before`, leaving `after`.
pub open spec fn decode_outcome(
    r: Result<Option<Result<Data, Error>>, Error>,
    before: Seq<u8>,
    after: Seq<u8>,
) -> bool {
    match frame(before, 0, MAX_DEPTH as nat) {
        Parsed::Done(d, n) => r matches Ok(Some(Ok(x))) && x@ == d && after == before.subrange(
            n,
            before.len() as int,
        ),
        Parsed::Server(t, n) => r matches Ok(Some(Err(Error::Redis(m)))) && m@ == t && after
            == before.subrange(n, before.len() as int),
        Parsed::Incomplete(_) => r matches Ok(None) && after == before,
        Parsed::Invalid(q) => r matches Err(Error::Parse(ParseError::Invalid(e))) && e == q
            && after == before.subrange(q, before.len() as int),
    }
}

/// Codec for RESP: decodes one frame per call from a growing buffer, and encodes values.
///
/// A decoded item is itself a `Result`: an error line from the server is a transient,
/// per-message error, while malformed bytes fail the decoder.
#[derive(Debug)]
pub struct Codec;

impl Codec {
    /// Takes one frame from the front of `src`. Gives `Ok(None)` while no whole frame is
    /// there (an empty buffer included), leaving the bytes as they are and reserving room
    /// for the rest of a bulk string whose length is known.
    pub fn decode(&mut self, src: &mut BytesMut) -> (r: Result<Option<Result<Data, Error>>, Error>)
        ensures
            decode_outcome(r, buffer_bytes(*old(src)), buffer_bytes(*final(src))),
    {
        let parsed = parse_frame(buf_view(src), 0, MAX_DEPTH);
        let len = buf_view(src).len();
        proof {
            lemma_frame_within(buffer_bytes(*src), 0, MAX_DEPTH as nat);
        }
        match parsed {
            Frame::Done(d, n) => {
                buf_advance(src, n);
                Ok(Some(Ok(d)))
            },
            Frame::Server(t, n) => {
                buf_advance(src, n);
                Ok(Some(Err(Error::Redis(t))))
            },
            Frame::Failed(ParseError::Incomplete(hint)) => {
                if let Some(h) = hint {
                    if len <= isize::MAX as usize && h <= (isize::MAX as usize - len) as u64 {
                        buf_reserve(src, h as usize);
                    }
                }
                Ok(None)
            },
            Frame::Failed(ParseError::Invalid(q)) => {
                buf_advance(src, q);
                Err(Error::Parse(ParseError::Invalid(q)))
            },
        }
    }

    /// Appends the encoding of `item` to `dst`, nulls as null bulk strings. Fails, leaving
    /// `dst` as it was, only where the buffer would outgrow `isize::MAX` bytes.
    pub fn encode(&mut self, item: Data, dst: &mut BytesMut) -> (r: Result<(), Error>)
        ensures
            r is Ok <==> buffer_bytes(*old(dst)).len() + encode(item@, NullType::BulkString).len()
                <= isize::MAX,
            r is Ok ==> buffer_bytes(*final(dst)) == buffer_bytes(*old(dst)) + encode(
                item@,
                NullType::BulkString,
            ),
            r is Err ==> buffer_bytes(*final(dst)) == buffer_bytes(*old(dst)),
    {
        let mut out: Vec<u8> = Vec::new();
        to_bytes(&item, &mut out);
        assert(out@ =~= encode(item@, NullType::BulkString));
        let len = buf_view(dst).len();
        if len > isize::MAX as usize || out.len() > isize::MAX as usize - len {
            return Err(Error::Message("buffer full".to_owned()));
        }
        buf_extend(dst, out.as_slice());
        Ok(())
    }
}

} // verus!
