use vstd::prelude::*;
use vstd::utf8::encode_utf8;

use crate::data::{lemma_view_all, view_all, Data, DataView};

verus! {

broadcast use vstd::seq::group_seq_axioms;

/// How a null value is written.
#[derive(Debug, Clone, Copy, PartialEq, Eq, Structural)]
pub enum NullType {
    /// As the null bulk string, `$-1\r\n`.
    BulkString,
    /// As the null array, `*-1\r\n`.
    Array,
}

impl Default for NullType {
    fn default() -> (r: NullType)
        ensures
            r == NullType::BulkString,
    {
        NullType::BulkString
    }
}

/// Options of the serializer.
#[derive(Debug, Clone, Copy, PartialEq, Eq, Structural)]
pub struct Options {
    /// The encoding used for null values.
    pub null_type: NullType,
}

impl Default for Options {
    fn default() -> (r: Options)
        ensures
            r.null_type == NullType::BulkString,
    {
        Options { null_type: NullType::BulkString }
    }
}

/// The ASCII digits of `n` in decimal, most significant first.
pub open spec fn nat_digits(n: nat) -> Seq<u8>
    decreases n,
{
    if n < 10 {
        seq![(48 + n) as u8]
    } else {
        nat_digits(n / 10).push((48 + n % 10) as u8)
    }
}

/// `v` written in decimal, with a leading minus sign when negative.
pub open spec fn decimal(v: int) -> Seq<u8> {
    if v < 0 {
        seq![45u8] + nat_digits((-v) as nat)
    } else {
        nat_digits(v as nat)
    }
}

pub open spec fn crlf() -> Seq<u8> {
    seq![13u8, 10u8]
}

/// The bytes of a null value.
pub open spec fn null_bytes(null: NullType) -> Seq<u8> {
    match null {
        NullType::Array => seq![42u8, 45u8, 49u8, 13u8, 10u8],
        NullType::BulkString => seq![36u8, 45u8, 49u8, 13u8, 10u8],
    }
}

/// The RESP encoding of a value.
pub open spec fn encode(d: DataView, null: NullType) -> Seq<u8>
    decreases d,
{
    match d {
        DataView::Simple(s) => seq![43u8] + encode_utf8(s) + crlf(),
        DataView::Int(v) => seq![58u8] + decimal(v as int) + crlf(),
        DataView::Bulk(b) => seq![36u8] + decimal(b.len() as int) + crlf() + b + crlf(),
        DataView::Arr(xs) => seq![42u8] + decimal(xs.len() as int) + crlf() + encode_all(xs, null),
        DataView::Null => null_bytes(null),
    }
}

/// The encodings of a sequence of values, one after the other.
pub open spec fn encode_all(xs: Seq<DataView>, null: NullType) -> Seq<u8>
    decreases xs,
{
    if xs.len() == 0 {
        Seq::empty()
    } else {
        encode_all(xs.drop_last(), null) + encode(xs.last(), null)
    }
}

/// RESP serializer: writes values into its output.
pub struct Serializer {
    pub output: Vec<u8>,
    pub options: Options,
}

fn push_crlf(out: &mut Vec<u8>)
    ensures
        final(out)@ == old(out)@ + crlf(),
{
    out.push(13);
    out.push(10);
    assert(final(out)@ =~= old(out)@ + crlf());
}

fn push_all(out: &mut Vec<u8>, b: &[u8])
    ensures
        final(out)@ == old(out)@ + b@,
{
    let mut i: usize = 0;
    while i < b.len()
        invariant
            i <= b@.len(),
            out@ == old(out)@ + b@.subrange(0, i as int),
        decreases b@.len() - i,
    {
        out.push(b[i]);
        i = i + 1;
        assert(out@ =~= old(out)@ + b@.subrange(0, i as int));
    }
    assert(b@.subrange(0, b@.len() as int) =~= b@);
}

pub(crate) fn write_nat(out: &mut Vec<u8>, n: u64)
    ensures
        final(out)@ == old(out)@ + nat_digits(n as nat),
    decreases n,
{
    if n >= 10 {
        write_nat(out, n / 10);
    }
    out.push((48 + n % 10) as u8);
    proof {
        if n >= 10 {
            assert(final(out)@ =~= old(out)@ + nat_digits(n as nat));
        } else {
            assert(final(out)@ =~= old(out)@ + nat_digits(n as nat));
        }
    }
}

fn write_decimal(out: &mut Vec<u8>, v: i64)
    ensures
        final(out)@ == old(out)@ + decimal(v as int),
{
    if v < 0 {
        out.push(45);
        let mag: u64 = (0i128 - v as i128) as u64;
        let ghost mid = out@;
        write_nat(out, mag);
        assert(final(out)@ =~= old(out)@ + decimal(v as int));
    } else {
        write_nat(out, v as u64);
    }
}

fn write_header(out: &mut Vec<u8>, marker: u8, v: i64)
    ensures
        final(out)@ == old(out)@ + (seq![marker] + decimal(v as int) + crlf()),
{
    out.push(marker);
    write_decimal(out, v);
    push_crlf(out);
    assert(final(out)@ =~= old(out)@ + (seq![marker] + decimal(v as int) + crlf()));
}

fn write_len_header(out: &mut Vec<u8>, marker: u8, len: usize)
    ensures
        final(out)@ == old(out)@ + (seq![marker] + decimal(len as int) + crlf()),
{
    out.push(marker);
    write_nat(out, len as u64);
    push_crlf(out);
    assert(final(out)@ =~= old(out)@ + (seq![marker] + decimal(len as int) + crlf()));
}

impl Serializer {
    /// A serializer with an empty output and the given options.
    pub fn new(options: Options) -> (r: Serializer)
        ensures
            r.output@ == Seq::<u8>::empty(),
            r.options == options,
    {
        Serializer { output: Vec::new(), options }
    }

    /// Writes an integer.
    pub fn serialize_int(&mut self, v: i64)
        ensures
            final(self).output@ == old(self).output@ + encode(DataView::Int(v), old(self).options.null_type),
            final(self).options == old(self).options,
    {
        write_header(&mut self.output, 58, v);
    }

    /// Writes a simple string.
    pub fn serialize_str(&mut self, v: &str)
        ensures
            final(self).output@ == old(self).output@ + encode(DataView::Simple(v@), old(self).options.null_type),
            final(self).options == old(self).options,
    {
        self.output.push(43);
        push_all(&mut self.output, v.as_bytes());
        push_crlf(&mut self.output);
        assert(final(self).output@ =~= old(self).output@ + encode(DataView::Simple(v@), old(self).options.null_type));
    }

    /// Writes a bulk string.
    pub fn serialize_bytes(&mut self, v: &[u8])
        ensures
            final(self).output@ == old(self).output@ + encode(DataView::Bulk(v@), old(self).options.null_type),
            final(self).options == old(self).options,
    {
        write_len_header(&mut self.output, 36, v.len());
        push_all(&mut self.output, v);
        push_crlf(&mut self.output);
        assert(final(self).output@ =~= old(self).output@ + encode(DataView::Bulk(v@), old(self).options.null_type));
    }

    /// Writes a null value, in the encoding that the options choose.
    pub fn serialize_unit(&mut self)
        ensures
            final(self).output@ == old(self).output@ + encode(DataView::Null, old(self).options.null_type),
            final(self).options == old(self).options,
    {
        match self.options.null_type {
            NullType::Array => self.output.push(42),
            NullType::BulkString => self.output.push(36),
        }
        self.output.push(45);
        self.output.push(49);
        push_crlf(&mut self.output);
        assert(final(self).output@ =~= old(self).output@ + encode(DataView::Null, old(self).options.null_type));
    }

    /// Writes the header of an array of `len` elements; the elements follow.
    pub fn serialize_seq(&mut self, len: usize)
        ensures
            final(self).output@ == old(self).output@ + (seq![42u8] + decimal(len as int) + crlf()),
            final(self).options == old(self).options,
    {
        write_len_header(&mut self.output, 42, len);
    }

    /// Writes a value.
    pub fn serialize_data(&mut self, d: &Data)
        ensures
            final(self).output@ == old(self).output@ + encode(d@, old(self).options.null_type),
            final(self).options == old(self).options,
        decreases d,
    {
        match d {
            Data::SimpleString(s) => self.serialize_str(s.as_str()),
            Data::Integer(v) => self.serialize_int(*v),
            Data::BulkString(b) => {
                self.serialize_bytes(b.as_slice())
            },
            Data::Null => self.serialize_unit(),
            Data::Array(xs) => {
                proof {
                    lemma_view_all(xs@);
                }
                self.serialize_seq(xs.len());
                self.serialize_all(xs);
                assert(final(self).output@ =~= old(self).output@ + encode(d@, old(self).options.null_type));
            },
        }
    }

    fn serialize_all(&mut self, xs: &Vec<Data>)
        ensures
            final(self).output@ == old(self).output@ + encode_all(view_all(xs@), old(self).options.null_type),
            final(self).options == old(self).options,
        decreases xs,
    {
        proof {
            lemma_view_all(xs@);
        }
        let ghost vs = view_all(xs@);
        let ghost null = self.options.null_type;
        let mut i: usize = 0;
        proof {
            assert(vs.take(0) =~= Seq::<DataView>::empty());
        }
        while i < xs.len()
            invariant
                i <= xs@.len(),
                vs == view_all(xs@),
                vs.len() == xs@.len(),
                forall|j: int| 0 <= j < xs@.len() ==> #[trigger] vs[j] == xs@[j]@,
                self.options == old(self).options,
                null == old(self).options.null_type,
                self.output@ == old(self).output@ + encode_all(vs.take(i as int), null),
            decreases xs@.len() - i,
        {
            proof {
                assert(decreases_to!(xs => xs[i as int]));
                assert(vs.take(i as int + 1).drop_last() =~= vs.take(i as int));
            }
            self.serialize_data(&xs[i]);
            i = i + 1;
            assert(self.output@ =~= old(self).output@ + encode_all(vs.take(i as int), null));
        }
        assert(vs.take(xs@.len() as int) =~= vs);
    }
}

/// Serialize a value into `output`, with nulls as null bulk strings.
pub fn to_bytes(value: &Data, output: &mut Vec<u8>)
    ensures
        final(output)@ == old(output)@ + encode(value@, NullType::BulkString),
{
    let mut ser = Serializer { output: Vec::new(), options: Options::default() };
    std::mem::swap(&mut ser.output, output);
    ser.serialize_data(value);
    std::mem::swap(&mut ser.output, output);
}

} // verus!
