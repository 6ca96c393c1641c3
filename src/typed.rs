use vstd::prelude::*;
use vstd::slice::slice_to_vec;
use vstd::utf8::{decode_utf8, encode_utf8, valid_utf8};

use crate::data::{data_clone, lemma_view_all, lemma_view_all_push, view_all, Data, DataView};
use crate::error::Error;
use crate::parser::{decimal_text, parse_decimal, utf8_str};

verus! {

/// The text that a value stands for: a simple string, or a bulk string of UTF-8.
pub open spec fn text_of(d: DataView) -> Option<Seq<char>> {
    match d {
        DataView::Simple(t) => Some(t),
        DataView::Bulk(b) => if valid_utf8(b) {
            Some(decode_utf8(b))
        } else {
            None
        },
        _ => None,
    }
}

/// The bytes that a value stands for: a bulk string, or the UTF-8 of a simple string.
pub open spec fn bytes_of(d: DataView) -> Option<Seq<u8>> {
    match d {
        DataView::Bulk(b) => Some(b),
        DataView::Simple(t) => Some(encode_utf8(t)),
        _ => None,
    }
}

/// The bytes of a bulk string; nothing for any other value.
pub open spec fn bulk_of(d: DataView) -> Option<Seq<u8>> {
    match d {
        DataView::Bulk(b) => Some(b),
        _ => None,
    }
}

/// The integer that a value stands for: an integer, or text holding a decimal.
pub open spec fn int_of(d: DataView) -> Option<i64> {
    match d {
        DataView::Int(n) => Some(n),
        DataView::Simple(t) => decimal_text(encode_utf8(t)),
        DataView::Bulk(b) => decimal_text(b),
        _ => None,
    }
}

/// The text of a value, where it stands for one.
pub fn text_from(d: &Data) -> (r: Option<String>)
    ensures
        r matches Some(s) ==> text_of(d@) == Some(s@),
        r is None ==> text_of(d@) is None,
{
    match d {
        Data::SimpleString(s) => Some(s.clone()),
        Data::BulkString(b) => match utf8_str(b.as_slice()) {
            Some(t) => Some(t.to_owned()),
            None => None,
        },
        _ => None,
    }
}

/// The bytes of a value, where it stands for some.
pub fn bytes_from(d: &Data) -> (r: Option<Vec<u8>>)
    ensures
        r matches Some(v) ==> bytes_of(d@) == Some(v@),
        r is None ==> bytes_of(d@) is None,
{
    match d {
        Data::SimpleString(s) => Some(slice_to_vec(s.as_str().as_bytes())),
        Data::BulkString(b) => Some(slice_to_vec(b.as_slice())),
        _ => None,
    }
}

/// The bytes of a value, where it is a bulk string.
pub fn bulk_from(d: &Data) -> (r: Option<Vec<u8>>)
    ensures
        r matches Some(v) ==> bulk_of(d@) == Some(v@),
        r is None ==> bulk_of(d@) is None,
{
    match d {
        Data::BulkString(b) => Some(slice_to_vec(b.as_slice())),
        _ => None,
    }
}

/// The integer of a value, where it stands for one.
pub fn int_from(d: &Data) -> (r: Option<i64>)
    ensures
        r == int_of(d@),
{
    match d {
        Data::Integer(n) => Some(*n),
        Data::SimpleString(s) => parse_decimal(s.as_str().as_bytes()),
        Data::BulkString(b) => parse_decimal(b.as_slice()),
        _ => None,
    }
}

/// Types that a received value can be mapped to.
pub trait FromData: Sized {
    /// Whether `d` maps to a value of this type.
    spec fn accepts(d: DataView) -> bool;

    /// Whether `v` is what `d` maps to.
    spec fn decodes(d: DataView, v: Self) -> bool;

    /// Maps `d` to this type; a mapping error where it does not fit.
    fn from_data(d: Data) -> (r: Result<Self, Error>)
        ensures
            r is Ok <==> Self::accepts(d@),
            r matches Ok(v) ==> Self::decodes(d@, v),
            r matches Err(e) ==> e is Message,
    ;
}

fn mapping_error(what: &str) -> (r: Error)
    ensures
        r is Message,
{
    Error::Message(what.to_owned())
}

impl FromData for Data {
    open spec fn accepts(d: DataView) -> bool {
        true
    }

    open spec fn decodes(d: DataView, v: Data) -> bool {
        v@ == d
    }

    fn from_data(d: Data) -> (r: Result<Data, Error>) {
        Ok(d)
    }
}

impl FromData for i64 {
    open spec fn accepts(d: DataView) -> bool {
        int_of(d) is Some
    }

    open spec fn decodes(d: DataView, v: i64) -> bool {
        int_of(d) == Some(v)
    }

    fn from_data(d: Data) -> (r: Result<i64, Error>) {
        match int_from(&d) {
            Some(n) => Ok(n),
            None => Err(mapping_error("expected an integer")),
        }
    }
}

impl FromData for u8 {
    open spec fn accepts(d: DataView) -> bool {
        int_of(d) matches Some(n) && 0 <= n <= u8::MAX
    }

    open spec fn decodes(d: DataView, v: u8) -> bool {
        int_of(d) == Some(v as i64)
    }

    fn from_data(d: Data) -> (r: Result<u8, Error>) {
        match int_from(&d) {
            Some(n) => if 0 <= n && n <= 255 {
                Ok(n as u8)
            } else {
                Err(mapping_error("integer out of range"))
            },
            None => Err(mapping_error("expected an integer")),
        }
    }
}

impl FromData for i8 {
    open spec fn accepts(d: DataView) -> bool {
        int_of(d) matches Some(n) && i8::MIN <= n <= i8::MAX
    }

    open spec fn decodes(d: DataView, v: i8) -> bool {
        int_of(d) == Some(v as i64)
    }

    fn from_data(d: Data) -> (r: Result<i8, Error>) {
        match int_from(&d) {
            Some(n) => if i8::MIN as i64 <= n && n <= i8::MAX as i64 {
                Ok(n as i8)
            } else {
                Err(mapping_error("integer out of range"))
            },
            None => Err(mapping_error("expected an integer")),
        }
    }
}

impl FromData for i16 {
    open spec fn accepts(d: DataView) -> bool {
        int_of(d) matches Some(n) && i16::MIN <= n <= i16::MAX
    }

    open spec fn decodes(d: DataView, v: i16) -> bool {
        int_of(d) == Some(v as i64)
    }

    fn from_data(d: Data) -> (r: Result<i16, Error>) {
        match int_from(&d) {
            Some(n) => if i16::MIN as i64 <= n && n <= i16::MAX as i64 {
                Ok(n as i16)
            } else {
                Err(mapping_error("integer out of range"))
            },
            None => Err(mapping_error("expected an integer")),
        }
    }
}

impl FromData for i32 {
    open spec fn accepts(d: DataView) -> bool {
        int_of(d) matches Some(n) && i32::MIN <= n <= i32::MAX
    }

    open spec fn decodes(d: DataView, v: i32) -> bool {
        int_of(d) == Some(v as i64)
    }

    fn from_data(d: Data) -> (r: Result<i32, Error>) {
        match int_from(&d) {
            Some(n) => if i32::MIN as i64 <= n && n <= i32::MAX as i64 {
                Ok(n as i32)
            } else {
                Err(mapping_error("integer out of range"))
            },
            None => Err(mapping_error("expected an integer")),
        }
    }
}

impl FromData for u16 {
    open spec fn accepts(d: DataView) -> bool {
        int_of(d) matches Some(n) && 0 <= n <= u16::MAX
    }

    open spec fn decodes(d: DataView, v: u16) -> bool {
        int_of(d) == Some(v as i64)
    }

    fn from_data(d: Data) -> (r: Result<u16, Error>) {
        match int_from(&d) {
            Some(n) => if 0 as i64 <= n && n <= u16::MAX as i64 {
                Ok(n as u16)
            } else {
                Err(mapping_error("integer out of range"))
            },
            None => Err(mapping_error("expected an integer")),
        }
    }
}

impl FromData for u32 {
    open spec fn accepts(d: DataView) -> bool {
        int_of(d) matches Some(n) && 0 <= n <= u32::MAX
    }

    open spec fn decodes(d: DataView, v: u32) -> bool {
        int_of(d) == Some(v as i64)
    }

    fn from_data(d: Data) -> (r: Result<u32, Error>) {
        match int_from(&d) {
            Some(n) => if 0 as i64 <= n && n <= u32::MAX as i64 {
                Ok(n as u32)
            } else {
                Err(mapping_error("integer out of range"))
            },
            None => Err(mapping_error("expected an integer")),
        }
    }
}

impl FromData for u64 {
    open spec fn accepts(d: DataView) -> bool {
        int_of(d) matches Some(n) && 0 <= n
    }

    open spec fn decodes(d: DataView, v: u64) -> bool {
        int_of(d) matches Some(n) && n as int == v as int
    }

    fn from_data(d: Data) -> (r: Result<u64, Error>) {
        match int_from(&d) {
            Some(n) => if 0 <= n {
                Ok(n as u64)
            } else {
                Err(mapping_error("integer out of range"))
            },
            None => Err(mapping_error("expected an integer")),
        }
    }
}

impl FromData for usize {
    open spec fn accepts(d: DataView) -> bool {
        int_of(d) matches Some(n) && 0 <= n <= usize::MAX
    }

    open spec fn decodes(d: DataView, v: usize) -> bool {
        int_of(d) matches Some(n) && n as int == v as int
    }

    fn from_data(d: Data) -> (r: Result<usize, Error>) {
        match int_from(&d) {
            Some(n) => if 0 <= n && n as u64 <= usize::MAX as u64 {
                Ok(n as usize)
            } else {
                Err(mapping_error("integer out of range"))
            },
            None => Err(mapping_error("expected an integer")),
        }
    }
}

impl FromData for isize {
    open spec fn accepts(d: DataView) -> bool {
        int_of(d) matches Some(n) && isize::MIN <= n <= isize::MAX
    }

    open spec fn decodes(d: DataView, v: isize) -> bool {
        int_of(d) matches Some(n) && n as int == v as int
    }

    fn from_data(d: Data) -> (r: Result<isize, Error>) {
        match int_from(&d) {
            Some(n) => if isize::MIN as i64 <= n && n <= isize::MAX as i64 {
                Ok(n as isize)
            } else {
                Err(mapping_error("integer out of range"))
            },
            None => Err(mapping_error("expected an integer")),
        }
    }
}

impl FromData for String {
    open spec fn accepts(d: DataView) -> bool {
        text_of(d) is Some
    }

    open spec fn decodes(d: DataView, v: String) -> bool {
        text_of(d) == Some(v@)
    }

    fn from_data(d: Data) -> (r: Result<String, Error>) {
        match text_from(&d) {
            Some(s) => Ok(s),
            None => Err(mapping_error("expected a string")),
        }
    }
}

/// A byte string: a bulk string, or the UTF-8 of a simple string.
#[derive(Debug, Clone, PartialEq, Eq)]
pub struct Bytes(pub Vec<u8>);

impl FromData for Bytes {
    open spec fn accepts(d: DataView) -> bool {
        bytes_of(d) is Some
    }

    open spec fn decodes(d: DataView, v: Bytes) -> bool {
        bytes_of(d) == Some(v.0@)
    }

    fn from_data(d: Data) -> (r: Result<Bytes, Error>) {
        match bytes_from(&d) {
            Some(b) => Ok(Bytes(b)),
            None => Err(mapping_error("expected bytes")),
        }
    }
}

impl<T: FromData> FromData for Option<T> {
    open spec fn accepts(d: DataView) -> bool {
        d is Null || T::accepts(d)
    }

    open spec fn decodes(d: DataView, v: Option<T>) -> bool {
        if d is Null {
            v is None
        } else {
            v matches Some(x) && T::decodes(d, x)
        }
    }

    fn from_data(d: Data) -> (r: Result<Option<T>, Error>) {
        match d {
            Data::Null => Ok(None),
            _ => match T::from_data(d) {
                Ok(x) => Ok(Some(x)),
                Err(e) => Err(e),
            },
        }
    }
}

/// Whether every value of `xs` maps to `T`.
pub open spec fn all_accepted<T: FromData>(xs: Seq<DataView>) -> bool {
    forall|i: int| 0 <= i < xs.len() ==> T::accepts(#[trigger] xs[i])
}

impl<T: FromData> FromData for Vec<T> {
    open spec fn accepts(d: DataView) -> bool {
        d is Arr && all_accepted::<T>(d->Arr_0)
    }

    open spec fn decodes(d: DataView, v: Vec<T>) -> bool {
        match d {
            DataView::Arr(xs) => v@.len() == xs.len() && forall|i: int|
                0 <= i < xs.len() ==> T::decodes(#[trigger] xs[i], v@[i]),
            _ => false,
        }
    }

    fn from_data(d: Data) -> (r: Result<Vec<T>, Error>) {
        let ghost dv = d@;
        match d {
            Data::Array(xs) => {
                let r = decode_all(&xs);
                assert(dv == DataView::Arr(view_all(xs@)));
                r
            },
            _ => Err(mapping_error("expected an array")),
        }
    }
}

fn decode_all<T: FromData>(xs: &Vec<Data>) -> (r: Result<Vec<T>, Error>)
    ensures
        r is Ok <==> <Vec<T> as FromData>::accepts(DataView::Arr(view_all(xs@))),
        r matches Ok(v) ==> <Vec<T> as FromData>::decodes(DataView::Arr(view_all(xs@)), v),
        r matches Err(e) ==> e is Message,
{
    proof {
        lemma_view_all(xs@);
    }
    let ghost vs = view_all(xs@);
    let mut out: Vec<T> = Vec::new();
    let mut i: usize = 0;
    while i < xs.len()
        invariant
            i <= xs@.len(),
            vs == view_all(xs@),
            vs.len() == xs@.len(),
            forall|j: int| 0 <= j < xs@.len() ==> #[trigger] vs[j] == xs@[j]@,
            out@.len() == i,
            forall|j: int| 0 <= j < i ==> T::accepts(#[trigger] vs[j]),
            forall|j: int| 0 <= j < i ==> T::decodes(#[trigger] vs[j], out@[j]),
        decreases xs@.len() - i,
    {
        let x = data_clone(&xs[i]);
        match T::from_data(x) {
            Ok(v) => {
                out.push(v);
            },
            Err(e) => {
                assert(!T::accepts(vs[i as int]));
                assert(!all_accepted::<T>(vs));
                assert(!<Vec<T> as FromData>::accepts(DataView::Arr(vs)));
                return Err(e);
            },
        }
        i = i + 1;
    }
    Ok(out)
}

impl<A: FromData, B: FromData> FromData for (A, B) {
    open spec fn accepts(d: DataView) -> bool {
        d matches DataView::Arr(xs) && xs.len() == 2 && A::accepts(xs[0]) && B::accepts(xs[1])
    }

    open spec fn decodes(d: DataView, v: (A, B)) -> bool {
        d matches DataView::Arr(xs) && xs.len() == 2 && A::decodes(xs[0], v.0) && B::decodes(
            xs[1],
            v.1,
        )
    }

    fn from_data(d: Data) -> (r: Result<(A, B), Error>) {
        match d {
            Data::Array(xs) => {
                proof {
                    lemma_view_all(xs@);
                }
                if xs.len() != 2 {
                    return Err(mapping_error("expected an array of two"));
                }
                let a = A::from_data(data_clone(&xs[0]))?;
                let b = B::from_data(data_clone(&xs[1]))?;
                Ok((a, b))
            },
            _ => Err(mapping_error("expected an array")),
        }
    }
}

impl<A: FromData, B: FromData, C: FromData> FromData for (A, B, C) {
    open spec fn accepts(d: DataView) -> bool {
        d matches DataView::Arr(xs) && xs.len() == 3 && A::accepts(xs[0]) && B::accepts(xs[1])
            && C::accepts(xs[2])
    }

    open spec fn decodes(d: DataView, v: (A, B, C)) -> bool {
        d matches DataView::Arr(xs) && xs.len() == 3 && A::decodes(xs[0], v.0) && B::decodes(
            xs[1],
            v.1,
        ) && C::decodes(xs[2], v.2)
    }

    fn from_data(d: Data) -> (r: Result<(A, B, C), Error>) {
        match d {
            Data::Array(xs) => {
                proof {
                    lemma_view_all(xs@);
                }
                if xs.len() != 3 {
                    return Err(mapping_error("expected an array of three"));
                }
                let a = A::from_data(data_clone(&xs[0]))?;
                let b = B::from_data(data_clone(&xs[1]))?;
                let c = C::from_data(data_clone(&xs[2]))?;
                Ok((a, b, c))
            },
            _ => Err(mapping_error("expected an array")),
        }
    }
}

/// Map a received value to `T`.
pub fn from_data<T: FromData>(d: Data) -> (r: Result<T, Error>)
    ensures
        r is Ok <==> T::accepts(d@),
        r matches Ok(v) ==> T::decodes(d@, v),
        r matches Err(e) ==> e is Message,
{
    T::from_data(d)
}

/// Types whose values can be written as RESP data.
pub trait ToData {
    /// The value that `self` is written as, or `None` where it cannot be written.
    spec fn encodes(&self) -> Option<DataView>;

    /// Writes `self` as a value; a mapping error where it cannot be written.
    fn to_data(&self) -> (r: Result<Data, Error>)
        ensures
            r is Ok <==> self.encodes() is Some,
            r matches Ok(d) ==> self.encodes() == Some(d@),
            r matches Err(e) ==> e is Message,
    ;
}

impl ToData for Data {
    open spec fn encodes(&self) -> Option<DataView> {
        Some(self@)
    }

    fn to_data(&self) -> (r: Result<Data, Error>) {
        Ok(data_clone(self))
    }
}

impl ToData for i64 {
    open spec fn encodes(&self) -> Option<DataView> {
        Some(DataView::Int(*self))
    }

    fn to_data(&self) -> (r: Result<Data, Error>) {
        Ok(Data::Integer(*self))
    }
}

impl ToData for u64 {
    open spec fn encodes(&self) -> Option<DataView> {
        if *self <= i64::MAX {
            Some(DataView::Int(*self as i64))
        } else {
            None
        }
    }

    fn to_data(&self) -> (r: Result<Data, Error>) {
        if *self <= i64::MAX as u64 {
            Ok(Data::Integer(*self as i64))
        } else {
            Err(mapping_error("integer out of range"))
        }
    }
}

impl ToData for String {
    open spec fn encodes(&self) -> Option<DataView> {
        Some(DataView::Simple(self@))
    }

    fn to_data(&self) -> (r: Result<Data, Error>) {
        Ok(Data::SimpleString(self.clone()))
    }
}

impl ToData for Bytes {
    open spec fn encodes(&self) -> Option<DataView> {
        Some(DataView::Bulk(self.0@))
    }

    fn to_data(&self) -> (r: Result<Data, Error>) {
        Ok(Data::bulk_string(self.0.as_slice()))
    }
}

impl<T: ToData> ToData for Option<T> {
    open spec fn encodes(&self) -> Option<DataView> {
        match self {
            Some(x) => x.encodes(),
            None => Some(DataView::Null),
        }
    }

    fn to_data(&self) -> (r: Result<Data, Error>) {
        match self {
            Some(x) => x.to_data(),
            None => Ok(Data::Null),
        }
    }
}

/// The values that the items of `xs` are written as, where each can be written.
pub open spec fn all_encoded<T: ToData>(xs: Seq<T>) -> Option<Seq<DataView>> {
    if forall|i: int| 0 <= i < xs.len() ==> (#[trigger] xs[i]).encodes() is Some {
        Some(Seq::new(xs.len(), |i: int| xs[i].encodes().unwrap()))
    } else {
        None
    }
}

impl<T: ToData> ToData for Vec<T> {
    open spec fn encodes(&self) -> Option<DataView> {
        match all_encoded(self@) {
            Some(vs) => Some(DataView::Arr(vs)),
            None => None,
        }
    }

    fn to_data(&self) -> (r: Result<Data, Error>) {
        let mut out: Vec<Data> = Vec::new();
        let mut i: usize = 0;
        while i < self.len()
            invariant
                i <= self@.len(),
                forall|j: int| 0 <= j < i ==> (#[trigger] self@[j]).encodes() is Some,
                view_all(out@) == Seq::new(i as nat, |j: int| self@[j].encodes().unwrap()),
            decreases self@.len() - i,
        {
            match self[i].to_data() {
                Ok(d) => {
                    proof {
                        lemma_view_all_push(out@, d);
                    }
                    out.push(d);
                },
                Err(e) => {
                    assert(all_encoded(self@) is None);
                    return Err(e);
                },
            }
            i = i + 1;
            assert(view_all(out@) =~= Seq::new(i as nat, |j: int| self@[j].encodes().unwrap()));
        }
        assert(all_encoded(self@) is Some);
        Ok(Data::Array(out))
    }
}

impl<A: ToData, B: ToData> ToData for (A, B) {
    open spec fn encodes(&self) -> Option<DataView> {
        match (self.0.encodes(), self.1.encodes()) {
            (Some(a), Some(b)) => Some(DataView::Arr(seq![a, b])),
            _ => None,
        }
    }

    fn to_data(&self) -> (r: Result<Data, Error>) {
        let a = self.0.to_data()?;
        let b = self.1.to_data()?;
        let mut out: Vec<Data> = Vec::new();
        proof {
            lemma_view_all_push(out@, a);
        }
        out.push(a);
        proof {
            lemma_view_all_push(out@, b);
        }
        out.push(b);
        assert(view_all(out@) =~= seq![a@, b@]);
        Ok(Data::Array(out))
    }
}

/// Write a value as RESP data.
pub fn to_data<T: ToData>(value: &T) -> (r: Result<Data, Error>)
    ensures
        r is Ok <==> value.encodes() is Some,
        r matches Ok(d) ==> value.encodes() == Some(d@),
{
    value.to_data()
}

/// Key/value pairs, read from an array of even length: key, value, key, value, and so on.
#[derive(Debug, Clone, PartialEq, Eq)]
pub struct Pairs<K, V>(pub Vec<(K, V)>);

/// Whether the array `xs` reads as pairs of `K` and `V`.
pub open spec fn pairs_accepted<K: FromData, V: FromData>(xs: Seq<DataView>) -> bool {
    xs.len() % 2 == 0 && forall|k: int|
        0 <= k < xs.len() / 2 ==> K::accepts(#[trigger] xs[2 * k]) && V::accepts(xs[2 * k + 1])
}

/// Whether `v` is what the array `xs` reads as.
pub open spec fn pairs_decoded<K: FromData, V: FromData>(xs: Seq<DataView>, v: Seq<(K, V)>) -> bool {
    v.len() * 2 == xs.len() && forall|k: int|
        0 <= k < v.len() ==> K::decodes(#[trigger] xs[2 * k], v[k].0) && V::decodes(xs[2 * k + 1], v[k].1)
}

impl<K: FromData, V: FromData> FromData for Pairs<K, V> {
    open spec fn accepts(d: DataView) -> bool {
        d is Arr && pairs_accepted::<K, V>(d->Arr_0)
    }

    open spec fn decodes(d: DataView, v: Pairs<K, V>) -> bool {
        d is Arr && pairs_decoded::<K, V>(d->Arr_0, v.0@)
    }

    fn from_data(d: Data) -> (r: Result<Pairs<K, V>, Error>) {
        match d {
            Data::Array(xs) => decode_pairs(&xs),
            _ => Err(mapping_error("expected an array")),
        }
    }
}

fn decode_pairs<K: FromData, V: FromData>(xs: &Vec<Data>) -> (r: Result<Pairs<K, V>, Error>)
    ensures
        r is Ok <==> pairs_accepted::<K, V>(view_all(xs@)),
        r matches Ok(v) ==> pairs_decoded::<K, V>(view_all(xs@), v.0@),
        r matches Err(e) ==> e is Message,
{
    proof {
        lemma_view_all(xs@);
    }
    let ghost vs = view_all(xs@);
    if xs.len() % 2 != 0 {
        return Err(mapping_error("expected an even number of elements"));
    }
    let mut out: Vec<(K, V)> = Vec::new();
    let mut i: usize = 0;
    while i < xs.len()
        invariant
            i <= xs@.len(),
            xs@.len() % 2 == 0,
            i % 2 == 0,
            vs == view_all(xs@),
            vs.len() == xs@.len(),
            forall|j: int| 0 <= j < xs@.len() ==> #[trigger] vs[j] == xs@[j]@,
            out@.len() * 2 == i,
            forall|k: int|
                0 <= k < out@.len() ==> K::accepts(#[trigger] vs[2 * k]) && V::accepts(vs[2 * k + 1]),
            forall|k: int|
                0 <= k < out@.len() ==> K::decodes(#[trigger] vs[2 * k], out@[k].0) && V::decodes(
                    vs[2 * k + 1],
                    out@[k].1,
                ),
        decreases xs@.len() - i,
    {
        let k = match K::from_data(data_clone(&xs[i])) {
            Ok(k) => k,
            Err(e) => {
                assert(!K::accepts(vs[2 * (out@.len() as int)]));
                return Err(e);
            },
        };
        let v = match V::from_data(data_clone(&xs[i + 1])) {
            Ok(v) => v,
            Err(e) => {
                assert(!V::accepts(vs[2 * (out@.len() as int) + 1]));
                return Err(e);
            },
        };
        out.push((k, v));
        i = i + 2;
    }
    Ok(Pairs(out))
}

impl ToData for bool {
    open spec fn encodes(&self) -> Option<DataView> {
        Some(
            DataView::Simple(
                if *self {
                    seq!['t', 'r', 'u', 'e']
                } else {
                    seq!['f', 'a', 'l', 's', 'e']
                },
            ),
        )
    }

    fn to_data(&self) -> (r: Result<Data, Error>) {
        proof {
            reveal_strlit("true");
            reveal_strlit("false");
            assert("true"@ =~= seq!['t', 'r', 'u', 'e']);
            assert("false"@ =~= seq!['f', 'a', 'l', 's', 'e']);
        }
        if *self {
            Ok(Data::simple_string("true"))
        } else {
            Ok(Data::simple_string("false"))
        }
    }
}

/// The flat array that key/value pairs are written as: key, value, key, value, and so on.
pub open spec fn pairs_encoded<K: ToData, V: ToData>(ps: Seq<(K, V)>) -> Option<Seq<DataView>> {
    if forall|k: int|
        0 <= k < ps.len() ==> (#[trigger] ps[k]).0.encodes() is Some && ps[k].1.encodes() is Some {
        Some(
            Seq::new(
                2 * ps.len(),
                |i: int|
                    if i % 2 == 0 {
                        ps[i / 2].0.encodes().unwrap()
                    } else {
                        ps[i / 2].1.encodes().unwrap()
                    },
            ),
        )
    } else {
        None
    }
}

impl<K: ToData, V: ToData> ToData for Pairs<K, V> {
    open spec fn encodes(&self) -> Option<DataView> {
        match pairs_encoded(self.0@) {
            Some(vs) => Some(DataView::Arr(vs)),
            None => None,
        }
    }

    fn to_data(&self) -> (r: Result<Data, Error>) {
        let ghost ps = self.0@;
        let mut out: Vec<Data> = Vec::new();
        let mut i: usize = 0;
        while i < self.0.len()
            invariant
                i <= ps.len(),
                ps == self.0@,
                forall|k: int| 0 <= k < i ==> (#[trigger] ps[k]).0.encodes() is Some && ps[k].1.encodes() is Some,
                view_all(out@).len() == 2 * i,
                forall|j: int|
                    0 <= j < 2 * i ==> #[trigger] view_all(out@)[j] == if j % 2 == 0 {
                        ps[j / 2].0.encodes().unwrap()
                    } else {
                        ps[j / 2].1.encodes().unwrap()
                    },
            decreases ps.len() - i,
        {
            let k = match self.0[i].0.to_data() {
                Ok(k) => k,
                Err(e) => {
                    assert(pairs_encoded(ps) is None);
                    return Err(e);
                },
            };
            let v = match self.0[i].1.to_data() {
                Ok(v) => v,
                Err(e) => {
                    assert(pairs_encoded(ps) is None);
                    return Err(e);
                },
            };
            proof {
                lemma_view_all_push(out@, k);
            }
            out.push(k);
            proof {
                lemma_view_all_push(out@, v);
            }
            out.push(v);
            i = i + 1;
        }
        assert(view_all(out@) =~= pairs_encoded(ps).unwrap());
        Ok(Data::Array(out))
    }
}

/// A tagged variant: written as the array of its name, as a simple string, and its payload.
#[derive(Debug, Clone, PartialEq, Eq)]
pub struct Variant<T> {
    pub name: String,
    pub payload: T,
}

impl<T: ToData> ToData for Variant<T> {
    open spec fn encodes(&self) -> Option<DataView> {
        match self.payload.encodes() {
            Some(p) => Some(DataView::Arr(seq![DataView::Simple(self.name@), p])),
            None => None,
        }
    }

    fn to_data(&self) -> (r: Result<Data, Error>) {
        let p = self.payload.to_data()?;
        let n = Data::SimpleString(self.name.clone());
        let mut out: Vec<Data> = Vec::new();
        proof {
            lemma_view_all_push(out@, n);
        }
        out.push(n);
        proof {
            lemma_view_all_push(out@, p);
        }
        out.push(p);
        assert(view_all(out@) =~= seq![n@, p@]);
        Ok(Data::Array(out))
    }
}

} // verus!
