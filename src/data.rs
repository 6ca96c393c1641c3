use vstd::prelude::*;
use vstd::slice::slice_to_vec;

verus! {

broadcast use vstd::std_specs::vec::group_vec_axioms, vstd::seq::group_seq_axioms;

/// The mathematical value of a RESP frame.
pub enum DataView {
    Simple(Seq<char>),
    Int(i64),
    Bulk(Seq<u8>),
    Arr(Seq<DataView>),
    Null,
}

/// RESP data. Read the Redis documentation for which shape to expect as a response.
///
/// Both bulk strings and arrays can be null on the wire; here they are `Null` instead.
/// Errors reported by the server are never values: they travel on the error channel,
/// which keeps the conversion from text into `Data` unambiguous.
#[derive(Debug)]
pub enum Data {
    SimpleString(String),
    Integer(i64),
    BulkString(Vec<u8>),
    Array(Vec<Data>),
    Null,
}

impl Data {
    pub open spec fn view(&self) -> DataView
        decreases self,
    {
        match self {
            Data::SimpleString(s) => DataView::Simple(s@),
            Data::Integer(i) => DataView::Int(*i),
            Data::BulkString(b) => DataView::Bulk(b@),
            Data::Array(xs) => DataView::Arr(view_all(xs@)),
            Data::Null => DataView::Null,
        }
    }

    /// Make a simple string holding `s`.
    pub fn simple_string(s: &str) -> (r: Data)
        ensures
            r@ == DataView::Simple(s@),
    {
        Data::SimpleString(s.to_owned())
    }

    /// Make a bulk string holding `bytes`.
    pub fn bulk_string(bytes: &[u8]) -> (r: Data)
        ensures
            r@ == DataView::Bulk(bytes@),
    {
        Data::BulkString(slice_to_vec(bytes))
    }

    /// Make a bulk string holding `bytes`.
    pub fn from_bytes(bytes: &[u8]) -> (r: Data)
        ensures
            r@ == DataView::Bulk(bytes@),
    {
        Data::bulk_string(bytes)
    }

    /// Make an array of bulk strings, one for each argument, in order: the shape of a
    /// command sent to the server.
    pub fn from_bytes_iter(args: &[&[u8]]) -> (r: Data)
        ensures
            r@ == DataView::Arr(Seq::new(args@.len(), |i: int| DataView::Bulk(args@[i]@))),
    {
        let mut out: Vec<Data> = Vec::new();
        let mut i: usize = 0;
        while i < args.len()
            invariant
                i <= args@.len(),
                view_all(out@) =~= Seq::new(i as nat, |j: int| DataView::Bulk(args@[j]@)),
            decreases args@.len() - i,
        {
            let d = Data::from_bytes(args[i]);
            proof {
                lemma_view_all_push(out@, d);
            }
            out.push(d);
            i = i + 1;
        }
        Data::Array(out)
    }

    /// This value with every part owned. Values here never borrow, so the result is
    /// the value itself.
    pub fn into_owned(self) -> (r: Data)
        ensures
            r@ == self@,
    {
        self
    }
}

/// The values of a sequence of frames, in order.
pub open spec fn view_all(xs: Seq<Data>) -> Seq<DataView>
    decreases xs,
{
    if xs.len() == 0 {
        Seq::empty()
    } else {
        view_all(xs.drop_last()).push(xs.last().view())
    }
}

pub proof fn lemma_view_all(xs: Seq<Data>)
    ensures
        view_all(xs).len() == xs.len(),
        forall|i: int| 0 <= i < xs.len() ==> #[trigger] view_all(xs)[i] == xs[i].view(),
    decreases xs.len(),
{
    if xs.len() > 0 {
        lemma_view_all(xs.drop_last());
    }
}

pub proof fn lemma_view_all_push(xs: Seq<Data>, d: Data)
    ensures
        view_all(xs.push(d)) == view_all(xs).push(d.view()),
{
    assert(xs.push(d).drop_last() =~= xs);
}

pub(crate) fn bytes_eq(a: &[u8], b: &[u8]) -> (r: bool)
    ensures
        r == (a@ == b@),
{
    if a.len() != b.len() {
        return false;
    }
    let mut i: usize = 0;
    while i < a.len()
        invariant
            a@.len() == b@.len(),
            i <= a@.len(),
            forall|j: int| 0 <= j < i ==> a@[j] == b@[j],
        decreases a@.len() - i,
    {
        if a[i] != b[i] {
            return false;
        }
        i = i + 1;
    }
    assert(a@ =~= b@);
    true
}

/// Structural equality of two values.
pub fn data_eq(a: &Data, b: &Data) -> (r: bool)
    ensures
        r == (a@ == b@),
    decreases a,
{
    match a {
        Data::SimpleString(x) => match b {
            Data::SimpleString(y) => *x == *y,
            _ => false,
        },
        Data::Integer(x) => match b {
            Data::Integer(y) => *x == *y,
            _ => false,
        },
        Data::BulkString(x) => match b {
            Data::BulkString(y) => bytes_eq(x.as_slice(), y.as_slice()),
            _ => false,
        },
        Data::Null => match b {
            Data::Null => true,
            _ => false,
        },
        Data::Array(xs) => match b {
            Data::Array(ys) => {
                proof {
                    lemma_view_all(xs@);
                    lemma_view_all(ys@);
                }
                if xs.len() != ys.len() {
                    return false;
                }
                let mut i: usize = 0;
                while i < xs.len()
                    invariant
                        *a == Data::Array(*xs),
                        *b == Data::Array(*ys),
                        xs@.len() == ys@.len(),
                        i <= xs@.len(),
                        view_all(xs@).len() == xs@.len(),
                        view_all(ys@).len() == ys@.len(),
                        forall|j: int| 0 <= j < xs@.len() ==> #[trigger] view_all(xs@)[j] == xs@[j]@,
                        forall|j: int| 0 <= j < ys@.len() ==> #[trigger] view_all(ys@)[j] == ys@[j]@,
                        forall|j: int| 0 <= j < i ==> view_all(xs@)[j] == view_all(ys@)[j],
                    decreases xs@.len() - i,
                {
                    proof {
                        assert(decreases_to!(xs => xs[i as int]));
                    }
                    if !data_eq(&xs[i], &ys[i]) {
                        assert(view_all(xs@)[i as int] != view_all(ys@)[i as int]);
                        assert(a@ == DataView::Arr(view_all(xs@)));
                        assert(b@ == DataView::Arr(view_all(ys@)));
                        return false;
                    }
                    i = i + 1;
                }
                assert(view_all(xs@) =~= view_all(ys@));
                true
            },
            _ => false,
        },
    }
}

/// A copy of `d` with the same value.
pub fn data_clone(d: &Data) -> (r: Data)
    ensures
        r@ == d@,
    decreases d,
{
    match d {
        Data::SimpleString(s) => Data::SimpleString(s.clone()),
        Data::Integer(n) => Data::Integer(*n),
        Data::BulkString(b) => Data::BulkString(slice_to_vec(b.as_slice())),
        Data::Null => Data::Null,
        Data::Array(xs) => Data::Array(clone_all(xs)),
    }
}

fn clone_all(xs: &Vec<Data>) -> (r: Vec<Data>)
    ensures
        view_all(r@) == view_all(xs@),
    decreases xs,
{
    proof {
        lemma_view_all(xs@);
    }
    let mut out: Vec<Data> = Vec::new();
    let mut i: usize = 0;
    while i < xs.len()
        invariant
            i <= xs@.len(),
            out@.len() == i,
            forall|j: int| 0 <= j < i ==> #[trigger] out@[j]@ == xs@[j]@,
        decreases xs@.len() - i,
    {
        proof {
            assert(decreases_to!(xs => xs[i as int]));
        }
        let c = data_clone(&xs[i]);
        out.push(c);
        i = i + 1;
    }
    proof {
        lemma_view_all(out@);
        assert(view_all(out@) =~= view_all(xs@));
    }
    out
}

impl Clone for Data {
    fn clone(&self) -> (r: Data)
        ensures
            r@ == self@,
    {
        data_clone(self)
    }
}

impl PartialEq for Data {
    fn eq(&self, other: &Data) -> (r: bool) {
        data_eq(self, other)
    }
}

impl vstd::std_specs::cmp::PartialEqSpecImpl for Data {
    open spec fn obeys_eq_spec() -> bool {
        true
    }

    open spec fn eq_spec(&self, other: &Data) -> bool {
        self@ == other@
    }
}

impl From<i64> for Data {
    fn from(i: i64) -> (r: Data) {
        Data::Integer(i)
    }
}

impl vstd::std_specs::convert::FromSpecImpl<i64> for Data {
    open spec fn obeys_from_spec() -> bool {
        true
    }

    open spec fn from_spec(i: i64) -> Data {
        Data::Integer(i)
    }
}

impl From<String> for Data {
    fn from(s: String) -> (r: Data) {
        Data::SimpleString(s)
    }
}

impl vstd::std_specs::convert::FromSpecImpl<String> for Data {
    open spec fn obeys_from_spec() -> bool {
        true
    }

    open spec fn from_spec(s: String) -> Data {
        Data::SimpleString(s)
    }
}

impl From<Vec<u8>> for Data {
    fn from(bytes: Vec<u8>) -> (r: Data) {
        Data::BulkString(bytes)
    }
}

impl vstd::std_specs::convert::FromSpecImpl<Vec<u8>> for Data {
    open spec fn obeys_from_spec() -> bool {
        true
    }

    open spec fn from_spec(bytes: Vec<u8>) -> Data {
        Data::BulkString(bytes)
    }
}

impl From<Vec<Data>> for Data {
    fn from(items: Vec<Data>) -> (r: Data) {
        Data::Array(items)
    }
}

impl vstd::std_specs::convert::FromSpecImpl<Vec<Data>> for Data {
    open spec fn obeys_from_spec() -> bool {
        true
    }

    open spec fn from_spec(items: Vec<Data>) -> Data {
        Data::Array(items)
    }
}

impl<'a> From<&'a str> for Data {
    fn from(s: &'a str) -> (r: Data)
        ensures
            r@ == DataView::Simple(s@),
    {
        Data::SimpleString(s.to_owned())
    }
}

/// A `String` cannot be built in spec code, so `from` states its result itself.
impl<'a> vstd::std_specs::convert::FromSpecImpl<&'a str> for Data {
    open spec fn obeys_from_spec() -> bool {
        false
    }

    open spec fn from_spec(s: &'a str) -> Data {
        Data::Null
    }
}

impl<'a> From<&'a [u8]> for Data {
    fn from(bytes: &'a [u8]) -> (r: Data)
        ensures
            r@ == DataView::Bulk(bytes@),
    {
        Data::bulk_string(bytes)
    }
}

/// A `Vec` cannot be built in spec code, so `from` states its result itself.
impl<'a> vstd::std_specs::convert::FromSpecImpl<&'a [u8]> for Data {
    open spec fn obeys_from_spec() -> bool {
        false
    }

    open spec fn from_spec(bytes: &'a [u8]) -> Data {
        Data::Null
    }
}

impl From<()> for Data {
    fn from(u: ()) -> (r: Data) {
        Data::Null
    }
}

impl vstd::std_specs::convert::FromSpecImpl<()> for Data {
    open spec fn obeys_from_spec() -> bool {
        true
    }

    open spec fn from_spec(u: ()) -> Data {
        Data::Null
    }
}

} // verus!
