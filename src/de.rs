use vstd::prelude::*;
use vstd::slice::slice_to_vec;

use crate::data::Data;
use crate::error::{Error, ReadError};
use crate::typed::FromData;
use crate::parser::{
    bulk, frame, hint_matches, loose_int, loose_text, marked_number, marked_text, parse_array,
    parse_bytes, parse_err, parse_frame, parse_int_loose, parse_str_loose, Frame, ParseError,
    Parsed, MAX_DEPTH, lemma_frame_within, rest,
};

verus! {

/// What a read by the deserializer did, against the item it reads: a server error line
/// comes first and is consumed as an error; any other failure consumes nothing.
pub open spec fn read_outcome<A, B>(
    r: Result<A, Error>,
    before: Seq<u8>,
    after: Seq<u8>,
    f: Parsed<B>,
    same: spec_fn(A, B) -> bool,
) -> bool {
    if before.len() > 0 && before[0] == 45 {
        match marked_text(before, 0, 45) {
            Parsed::Done(t, n) => r matches Err(Error::Redis(m)) && m@ == t && after
                == before.subrange(n, before.len() as int),
            Parsed::Incomplete(h) => r matches Err(Error::Parse(ParseError::Incomplete(g)))
                && hint_matches(h, g) && after == before,
            Parsed::Invalid(q) => r matches Err(Error::Parse(ParseError::Invalid(e))) && e == q
                && after == before,
            Parsed::Server(_, _) => false,
        }
    } else {
        match f {
            Parsed::Done(v, n) => r matches Ok(x) && same(x, v) && after == before.subrange(
                n,
                before.len() as int,
            ),
            Parsed::Incomplete(h) => r matches Err(Error::Parse(ParseError::Incomplete(g)))
                && hint_matches(h, g) && after == before,
            Parsed::Invalid(q) => r matches Err(Error::Parse(ParseError::Invalid(e))) && e == q
                && after == before,
            Parsed::Server(_, _) => false,
        }
    }
}

/// The result of reading one whole frame as `Data`: a server error line, at the top or
/// inside an array, ends the read with that error.
pub open spec fn data_outcome(r: Result<Data, Error>, before: Seq<u8>, after: Seq<u8>) -> bool {
    match frame(before, 0, MAX_DEPTH as nat) {
        Parsed::Done(d, n) => r matches Ok(x) && x@ == d && after == before.subrange(
            n,
            before.len() as int,
        ),
        Parsed::Server(t, n) => r matches Err(Error::Redis(m)) && m@ == t && after
            == before.subrange(n, before.len() as int),
        Parsed::Incomplete(h) => r matches Err(Error::Parse(ParseError::Incomplete(g)))
            && hint_matches(h, g) && after == before,
        Parsed::Invalid(q) => r matches Err(Error::Parse(ParseError::Invalid(e))) && e == q
            && after == before.subrange(q, before.len() as int),
    }
}

/// RESP deserializer: a cursor over bytes that reads one item at a time.
pub struct Deserializer<'de> {
    pub input: &'de [u8],
}

impl<'de> Deserializer<'de> {
    /// Reads a server error line.
    pub fn parse_error(&mut self) -> (r: Result<&'de str, Error>)
        ensures
            match marked_text(old(self).input@, 0, 45) {
                Parsed::Done(t, n) => r matches Ok(x) && x@ == t && final(self).input@
                    == old(self).input@.subrange(n, old(self).input@.len() as int),
                Parsed::Incomplete(h) => r matches Err(Error::Parse(ParseError::Incomplete(g)))
                    && hint_matches(h, g) && final(self).input@ == old(self).input@,
                Parsed::Invalid(q) => r matches Err(Error::Parse(ParseError::Invalid(e))) && e == q
                    && final(self).input@ == old(self).input@,
                Parsed::Server(_, _) => false,
            },
    {
        match parse_err(self.input) {
            Ok((rem, t)) => {
                self.input = rem;
                Ok(t)
            },
            Err(e) => Err(Error::Parse(e)),
        }
    }

    /// Fails with the server's error when the next item is an error line, consuming it;
    /// otherwise leaves the input as it is.
    pub fn check_error(&mut self) -> (r: Result<(), Error>)
        ensures
            read_outcome(
                r,
                old(self).input@,
                final(self).input@,
                Parsed::Done((), 0),
                |x: (), y: ()| true,
            ),
            r is Ok <==> !(old(self).input@.len() > 0 && old(self).input@[0] == 45),
            r is Ok ==> final(self).input@ == old(self).input@,
    {
        if self.input.len() > 0 && self.input[0] == 45 {
            match self.parse_error() {
                Ok(t) => Err(Error::Redis(t.to_owned())),
                Err(e) => Err(e),
            }
        } else {
            proof {
                assert(old(self).input@.subrange(0, old(self).input@.len() as int)
                    =~= old(self).input@);
            }
            Ok(())
        }
    }

    /// Reads a textual value: a simple string, or a bulk string of UTF-8.
    pub fn parse_str(&mut self) -> (r: Result<&'de str, Error>)
        ensures
            read_outcome(
                r,
                old(self).input@,
                final(self).input@,
                loose_text(old(self).input@, 0),
                |x: &str, t: Seq<char>| x@ == t,
            ),
    {
        self.check_error()?;
        match parse_str_loose(self.input) {
            Ok((rem, t)) => {
                self.input = rem;
                Ok(t)
            },
            Err(e) => Err(Error::Parse(e)),
        }
    }

    /// Reads an integer: an integer frame, or text that holds one.
    pub fn parse_int(&mut self) -> (r: Result<i64, Error>)
        ensures
            read_outcome(
                r,
                old(self).input@,
                final(self).input@,
                loose_int(old(self).input@, 0),
                |x: i64, v: i64| x == v,
            ),
    {
        self.check_error()?;
        match parse_int_loose(self.input) {
            Ok((rem, v)) => {
                self.input = rem;
                Ok(v)
            },
            Err(e) => Err(Error::Parse(e)),
        }
    }

    /// Reads a bulk string; the null bulk string gives `None`.
    pub fn parse_bytes(&mut self) -> (r: Result<Option<&'de [u8]>, Error>)
        ensures
            read_outcome(
                r,
                old(self).input@,
                final(self).input@,
                bulk(old(self).input@, 0),
                |x: Option<&[u8]>, b: Option<Seq<u8>>|
                    match b {
                        Some(v) => x matches Some(y) && y@ == v,
                        None => x is None,
                    },
            ),
    {
        self.check_error()?;
        match parse_bytes(self.input) {
            Ok((rem, b)) => {
                self.input = rem;
                Ok(b)
            },
            Err(e) => Err(Error::Parse(e)),
        }
    }

    /// Reads an array header: the number of elements, -1 for the null array.
    pub fn parse_array(&mut self) -> (r: Result<i64, Error>)
        ensures
            read_outcome(
                r,
                old(self).input@,
                final(self).input@,
                marked_number(old(self).input@, 0, 42),
                |x: i64, v: i64| x == v,
            ),
    {
        self.check_error()?;
        match parse_array(self.input) {
            Ok((rem, v)) => {
                self.input = rem;
                Ok(v)
            },
            Err(e) => Err(Error::Parse(e)),
        }
    }

    /// Reads an array header that must announce exactly `exp` elements. A header that
    /// announces another length is consumed and gives a mapping error.
    pub fn parse_array_len(&mut self, exp: usize) -> (r: Result<i64, Error>)
        ensures
            if !(old(self).input@.len() > 0 && old(self).input@[0] == 45) && marked_number(
                old(self).input@,
                0,
                42,
            ) is Done {
                let (v, n) = (
                    marked_number(old(self).input@, 0, 42)->Done_0,
                    marked_number(old(self).input@, 0, 42)->Done_1,
                );
                final(self).input@ == old(self).input@.subrange(n, old(self).input@.len() as int)
                    && (v == exp ==> (r matches Ok(x) && x == v)) && (v != exp ==> (r matches Err(
                    Error::Message(_),
                )))
            } else {
                read_outcome(
                    r,
                    old(self).input@,
                    final(self).input@,
                    marked_number(old(self).input@, 0, 42),
                    |x: i64, v: i64| x == v,
                )
            },
    {
        let len = self.parse_array()?;
        if len >= 0 && len as u64 == exp as u64 {
            Ok(len)
        } else {
            Err(Error::Message("invalid length".to_owned()))
        }
    }

    /// Reads one whole frame.
    pub fn parse_data(&mut self) -> (r: Result<Data, Error>)
        ensures
            data_outcome(r, old(self).input@, final(self).input@),
    {
        proof {
            lemma_frame_within(self.input@, 0, MAX_DEPTH as nat);
        }
        match parse_frame(self.input, 0, MAX_DEPTH) {
            Frame::Done(d, n) => {
                self.input = rest(self.input, n);
                Ok(d)
            },
            Frame::Server(t, n) => {
                self.input = rest(self.input, n);
                Err(Error::Redis(t))
            },
            Frame::Failed(ParseError::Invalid(q)) => {
                self.input = rest(self.input, q);
                Err(Error::Parse(ParseError::Invalid(q)))
            },
            Frame::Failed(e) => Err(Error::Parse(e)),
        }
    }
}

/// Read one frame from the front of `input` and map it to `T`: the value and the bytes
/// after the frame, or the error and the bytes left to read.
pub fn from_bytes<T: FromData>(input: &[u8]) -> (r: Result<(T, &[u8]), ReadError>)
    ensures
        match frame(input@, 0, MAX_DEPTH as nat) {
            Parsed::Done(d, n) => if T::accepts(d) {
                r matches Ok((v, rem)) && T::decodes(d, v) && rem@ == input@.subrange(
                    n,
                    input@.len() as int,
                )
            } else {
                r matches Err(e) && e.data is Message && e.remaining@ == input@.subrange(
                    n,
                    input@.len() as int,
                )
            },
            _ => r matches Err(e) && data_outcome(Err(e.data), input@, e.remaining@),
        },
{
    let mut de = Deserializer { input };
    match de.parse_data() {
        Ok(d) => match T::from_data(d) {
            Ok(v) => Ok((v, de.input)),
            Err(e) => Err(ReadError { data: e, remaining: slice_to_vec(de.input) }),
        },
        Err(e) => Err(ReadError { data: e, remaining: slice_to_vec(de.input) }),
    }
}

} // verus!
