use vstd::prelude::*;
use vstd::utf8::encode_utf8;

use crate::data::{bytes_eq, data_clone, lemma_view_all, view_all, Data, DataView};
use crate::error::Error;
use crate::parser::{digits_end, digits_value, is_digit, lemma_digits_end};
use crate::ser::{nat_digits, write_nat};
use crate::typed::{bulk_from, bulk_of, bytes_from, bytes_of, FromData, ToData};

verus! {

/// The value of a run of digits that fits in a `u64`.
pub open spec fn u64_text(t: Seq<u8>) -> Option<u64> {
    if t.len() > 0 && digits_end(t, 0) == t.len() && digits_value(t) <= u64::MAX {
        Some(digits_value(t) as u64)
    } else {
        None
    }
}

/// The position of the first `-` at or after `i`.
pub open spec fn dash_at(t: Seq<u8>, i: int) -> Option<int>
    decreases t.len() - i,
{
    if i < 0 || i >= t.len() {
        None
    } else if t[i] == 45 {
        Some(i)
    } else {
        dash_at(t, i + 1)
    }
}

/// The stream ID written as `<ms>-<seq>`, both parts decimal digits.
pub open spec fn id_text(t: Seq<u8>) -> Option<(u64, u64)> {
    match dash_at(t, 0) {
        Some(j) => match (u64_text(t.subrange(0, j)), u64_text(t.subrange(j + 1, t.len() as int))) {
            (Some(a), Some(b)) => Some((a, b)),
            _ => None,
        },
        None => None,
    }
}

/// The stream ID that a value stands for: a string or bulk string holding one.
pub open spec fn id_of(d: DataView) -> Option<(u64, u64)> {
    match bytes_of(d) {
        Some(b) => id_text(b),
        None => None,
    }
}

/// The text of a stream ID: both parts in decimal, joined by `-`.
pub open spec fn id_bytes(ms: u64, seq: u64) -> Seq<u8> {
    nat_digits(ms as nat) + seq![45u8] + nat_digits(seq as nat)
}

/// A stream ID: a timestamp in milliseconds and a sequence number.
#[derive(Debug, Clone, Copy, PartialEq, Eq, Hash, Structural)]
pub struct Id(pub u64, pub u64);

fn parse_u64(t: &[u8]) -> (r: Option<u64>)
    ensures
        r == u64_text(t@),
{
    let len = t.len();
    if len == 0 {
        return None;
    }
    let mut acc: u64 = 0;
    let mut i: usize = 0;
    proof {
        assert(t@.subrange(0, 0) =~= Seq::<u8>::empty());
    }
    while i < len
        invariant
            i <= len,
            len == t@.len(),
            len > 0,
            acc as int == digits_value(t@.subrange(0, i as int)),
            digits_end(t@, 0) == digits_end(t@, i as int),
            forall|j: int| 0 <= j < i ==> is_digit(#[trigger] t@[j]),
        decreases len - i,
    {
        if !(48 <= t[i] && t[i] <= 57) {
            proof {
                lemma_not_all_digits(t@, i as int);
            }
            return None;
        }
        let d = (t[i] - 48) as u128;
        proof {
            assert(t@.subrange(0, i as int + 1).drop_last() =~= t@.subrange(0, i as int));
        }
        let next: u128 = (acc as u128) * 10 + d;
        if next > u64::MAX as u128 {
            proof {
                lemma_digits_monotone(t@, i as int + 1);
            }
            return None;
        }
        acc = next as u64;
        i = i + 1;
    }
    proof {
        assert(t@.subrange(0, len as int) =~= t@);
    }
    Some(acc)
}

proof fn lemma_not_all_digits(t: Seq<u8>, i: int)
    requires
        0 <= i < t.len(),
        !is_digit(t[i]),
        digits_end(t, 0) == digits_end(t, i),
    ensures
        digits_end(t, 0) != t.len(),
{
}

proof fn lemma_digits_monotone(t: Seq<u8>, i: int)
    requires
        0 <= i <= t.len(),
    ensures
        digits_end(t, 0) == t.len() ==> digits_value(t.subrange(0, i)) <= digits_value(t),
    decreases t.len() - i,
{
    lemma_digits_end(t, 0);
    if digits_end(t, 0) == t.len() && i < t.len() {
        lemma_digits_monotone(t, i + 1);
        assert(t.subrange(0, i + 1).drop_last() =~= t.subrange(0, i));
        lemma_digits_nonneg_prefix(t, i);
        assert(t.subrange(0, t.len() as int) =~= t);
    } else if i == t.len() {
        assert(t.subrange(0, i) =~= t);
    }
}

proof fn lemma_digits_nonneg_prefix(t: Seq<u8>, i: int)
    requires
        0 <= i <= t.len(),
        forall|j: int| 0 <= j < t.len() ==> is_digit(#[trigger] t[j]),
    ensures
        digits_value(t.subrange(0, i)) >= 0,
    decreases i,
{
    if i > 0 {
        assert(t.subrange(0, i).drop_last() =~= t.subrange(0, i - 1));
        lemma_digits_nonneg_prefix(t, i - 1);
    }
}

impl Id {
    /// Reads a stream ID from its bytes, `<ms>-<seq>`.
    pub fn parse_bytes(input: &[u8]) -> (r: Option<Id>)
        ensures
            match id_text(input@) {
                Some((a, b)) => r == Some(Id(a, b)),
                None => r is None,
            },
    {
        let len = input.len();
        let mut j: usize = 0;
        while j < len && input[j] != 45
            invariant
                j <= len,
                len == input@.len(),
                dash_at(input@, 0) == dash_at(input@, j as int),
            decreases len - j,
        {
            j = j + 1;
        }
        if j >= len {
            return None;
        }
        let (a, rest) = input.split_at(j);
        let (_, b) = rest.split_at(1);
        assert(b@ =~= input@.subrange(j + 1, len as int));
        match (parse_u64(a), parse_u64(b)) {
            (Some(x), Some(y)) => Some(Id(x, y)),
            _ => None,
        }
    }

    /// Reads a stream ID from its text, `<ms>-<seq>`.
    pub fn parse(input: &str) -> (r: Option<Id>)
        ensures
            match id_text(encode_utf8(input@)) {
                Some((a, b)) => r == Some(Id(a, b)),
                None => r is None,
            },
    {
        Id::parse_bytes(input.as_bytes())
    }

    /// The text of this ID, `<ms>-<seq>`, as bytes.
    pub fn to_bytes(&self) -> (r: Vec<u8>)
        ensures
            r@ == id_bytes(self.0, self.1),
    {
        let mut out: Vec<u8> = Vec::new();
        write_nat(&mut out, self.0);
        out.push(45);
        write_nat(&mut out, self.1);
        assert(out@ =~= id_bytes(self.0, self.1));
        out
    }

    /// The stream ID that `data` holds, if it is a string or bulk string holding one.
    pub fn try_from_data(data: Data) -> (r: Option<Id>)
        ensures
            match id_of(data@) {
                Some((a, b)) => r == Some(Id(a, b)),
                None => r is None,
            },
    {
        match bytes_from(&data) {
            Some(b) => Id::parse_bytes(b.as_slice()),
            None => None,
        }
    }
}

impl ToData for Id {
    open spec fn encodes(&self) -> Option<DataView> {
        Some(DataView::Bulk(id_bytes(self.0, self.1)))
    }

    fn to_data(&self) -> (r: Result<Data, Error>) {
        Ok(Data::BulkString(self.to_bytes()))
    }
}

impl FromData for Id {
    open spec fn accepts(d: DataView) -> bool {
        id_of(d) is Some
    }

    open spec fn decodes(d: DataView, v: Id) -> bool {
        id_of(d) == Some((v.0, v.1))
    }

    fn from_data(d: Data) -> (r: Result<Id, Error>) {
        match Id::try_from_data(d) {
            Some(id) => Ok(id),
            None => Err(Error::Message("expected a stream ID".to_owned())),
        }
    }
}

/// A stream key in the Redis keyspace.
#[derive(Debug, Clone, PartialEq, Eq, Hash, Default)]
pub struct Key(pub Vec<u8>);

/// A field of a stream entry, associated to a [Value].
#[derive(Debug, Clone, PartialEq, Eq, Hash, Default)]
pub struct Field(pub Vec<u8>);

/// A value of a stream entry, keyed by a [Field].
#[derive(Debug, Clone, PartialEq, Eq, Hash, Default)]
pub struct Value(pub Vec<u8>);

/// The fields of a stream entry with their values, in the order the server sent them.
#[derive(Debug, Clone, PartialEq, Eq, Default)]
pub struct Entry(pub Vec<(Field, Value)>);

/// The entries of a stream by ID, in the order the server sent them.
#[derive(Debug, Clone, PartialEq, Eq, Default)]
pub struct Entries(pub Vec<(Id, Entry)>);

/// Reply to `XREAD` and `XREADGROUP`: the entries read, by stream key.
#[derive(Debug, Clone, PartialEq, Eq, Default)]
pub struct ReadResponse(pub Vec<(Key, Entries)>);

/// Reply to `XAUTOCLAIM`.
#[derive(Debug, Clone, PartialEq, Eq)]
pub struct AutoclaimResponse(
    /// The ID to use in the next `XAUTOCLAIM` call.
    pub Id,
    /// The entries which were claimed in this call.
    pub Entries,
    /// The IDs of entries removed from the pending list (Redis 7 and later; empty before).
    pub Vec<Id>,
);

pub type FieldsView = Seq<(Seq<u8>, Seq<u8>)>;

pub type EntriesView = Seq<((u64, u64), FieldsView)>;

/// The position of the first occurrence of field `f` at or after `i`.
pub open spec fn first_field(s: FieldsView, f: Seq<u8>, i: int) -> Option<int>
    decreases s.len() - i,
{
    if i < 0 || i >= s.len() {
        None
    } else if s[i].0 == f {
        Some(i)
    } else {
        first_field(s, f, i + 1)
    }
}

/// `s` with field `f` set to `v`: in place of its first occurrence, else at the end.
pub open spec fn with_field(s: FieldsView, f: Seq<u8>, v: Seq<u8>) -> FieldsView {
    match first_field(s, f, 0) {
        Some(i) => s.update(i, (f, v)),
        None => s.push((f, v)),
    }
}

impl Entry {
    pub open spec fn view(&self) -> FieldsView {
        Seq::new(self.0@.len(), |i: int| (self.0@[i].0.0@, self.0@[i].1.0@))
    }

    /// An entry with no fields.
    pub fn new() -> (r: Entry)
        ensures
            r@.len() == 0,
    {
        Entry(Vec::new())
    }

    /// Sets `field` to `value`: in place of its first occurrence, else at the end.
    pub fn insert(&mut self, field: Field, value: Value)
        ensures
            final(self)@ == with_field(old(self)@, field.0@, value.0@),
    {
        let ghost fv = (field.0@, value.0@);
        let ghost f = field.0@;
        let mut i: usize = 0;
        while i < self.0.len()
            invariant
                i <= self.0@.len(),
                *self == *old(self),
                fv == (field.0@, value.0@),
                f == field.0@,
                first_field(old(self)@, f, 0) == first_field(old(self)@, f, i as int),
            decreases self.0@.len() - i,
        {
            if bytes_eq(self.0[i].0.0.as_slice(), field.0.as_slice()) {
                let pair = (field, value);
                assert(pair.0.0@ == fv.0 && pair.1.0@ == fv.1);
                self.0.set(i, pair);
                assert(self@ =~= old(self)@.update(i as int, fv));
                return;
            }
            assert(old(self)@[i as int].0 == self.0@[i as int].0.0@);
            i = i + 1;
        }
        self.0.push((field, value));
        assert(self@ =~= old(self)@.push(fv));
    }

    /// The value of the last occurrence of `field`.
    pub fn get(&self, field: &[u8]) -> (r: Option<&Value>)
        ensures
            r matches Some(v) ==> exists|i: int|
                0 <= i < self@.len() && #[trigger] self@[i] == (field@, v.0@) && forall|j: int|
                    i < j < self@.len() ==> (#[trigger] self@[j]).0 != field@,
            r is None ==> forall|i: int| 0 <= i < self@.len() ==> (#[trigger] self@[i]).0 != field@,
    {
        let mut i: usize = self.0.len();
        while i > 0
            invariant
                i <= self.0@.len(),
                forall|j: int| i <= j < self@.len() ==> (#[trigger] self@[j]).0 != field@,
            decreases i,
        {
            i = i - 1;
            if bytes_eq(self.0[i].0.0.as_slice(), field) {
                assert(self@[i as int] == (field@, self.0@[i as int].1.0@));
                return Some(&self.0[i].1);
            }
        }
        None
    }
}

impl Entries {
    pub open spec fn view(&self) -> EntriesView {
        Seq::new(self.0@.len(), |i: int| ((self.0@[i].0.0, self.0@[i].0.1), self.0@[i].1@))
    }

    /// The entry with the ID `id`, the last one where several have it.
    pub fn get(&self, id: &Id) -> (r: Option<&Entry>)
        ensures
            r matches Some(e) ==> exists|i: int|
                0 <= i < self@.len() && #[trigger] self@[i] == ((id.0, id.1), e@) && forall|j: int|
                    i < j < self@.len() ==> (#[trigger] self@[j]).0 != (id.0, id.1),
            r is None ==> forall|i: int| 0 <= i < self@.len() ==> (#[trigger] self@[i]).0 != (id.0, id.1),
    {
        let mut i: usize = self.0.len();
        while i > 0
            invariant
                i <= self.0@.len(),
                forall|j: int| i <= j < self@.len() ==> (#[trigger] self@[j]).0 != (id.0, id.1),
            decreases i,
        {
            i = i - 1;
            let e = &self.0[i];
            if e.0.0 == id.0 && e.0.1 == id.1 {
                assert(self@[i as int] == ((id.0, id.1), e.1@));
                return Some(&e.1);
            }
        }
        None
    }

    /// Adds the entry `entry` under `id` at the end.
    pub fn insert(&mut self, id: Id, entry: Entry)
        ensures
            final(self)@ == old(self)@.push(((id.0, id.1), entry@)),
    {
        let ghost ev = ((id.0, id.1), entry@);
        self.0.push((id, entry));
        assert(self@ =~= old(self)@.push(ev));
    }
}

/// The fields and values of an entry, read pairwise from `xs`; each must be a bulk string.
pub open spec fn fields_of(xs: Seq<DataView>) -> Option<FieldsView> {
    if xs.len() % 2 == 0 && forall|i: int| 0 <= i < xs.len() ==> bulk_of(#[trigger] xs[i]) is Some {
        Some(
            Seq::new(
                xs.len() / 2,
                |k: int| (bulk_of(xs[2 * k]).unwrap(), bulk_of(xs[2 * k + 1]).unwrap()),
            ),
        )
    } else {
        None
    }
}

/// An entry of a stream, `[id, [field, value, ...]]`.
pub open spec fn entry_of(d: DataView) -> Option<((u64, u64), FieldsView)> {
    match d {
        DataView::Arr(xs) => if xs.len() == 2 && id_of(xs[0]) is Some && xs[1] is Arr && fields_of(
            xs[1]->Arr_0,
        ) is Some {
            Some((id_of(xs[0]).unwrap(), fields_of(xs[1]->Arr_0).unwrap()))
        } else {
            None
        },
        _ => None,
    }
}

/// The entries of a stream, an array of entries.
pub open spec fn entries_of(d: DataView) -> Option<EntriesView> {
    match d {
        DataView::Arr(xs) => if forall|i: int| 0 <= i < xs.len() ==> entry_of(#[trigger] xs[i]) is Some {
            Some(Seq::new(xs.len(), |i: int| entry_of(xs[i]).unwrap()))
        } else {
            None
        },
        _ => None,
    }
}

fn fields_from(xs: &Vec<Data>) -> (r: Option<Entry>)
    ensures
        match fields_of(view_all(xs@)) {
            Some(f) => r matches Some(e) && e@ == f,
            None => r is None,
        },
{
    proof {
        lemma_view_all(xs@);
    }
    let ghost vs = view_all(xs@);
    if xs.len() % 2 != 0 {
        return None;
    }
    let mut out: Vec<(Field, Value)> = Vec::new();
    let mut i: usize = 0;
    while i < xs.len()
        invariant
            i <= xs@.len(),
            xs@.len() % 2 == 0,
            i % 2 == 0,
            vs == view_all(xs@),
            vs.len() == xs@.len(),
            forall|j: int| 0 <= j < xs@.len() ==> #[trigger] vs[j] == xs@[j]@,
            forall|j: int| 0 <= j < i ==> bulk_of(#[trigger] vs[j]) is Some,
            out@.len() * 2 == i,
            forall|k: int|
                0 <= k < out@.len() ==> (#[trigger] out@[k]).0.0@ == bulk_of(vs[2 * k]).unwrap()
                    && out@[k].1.0@ == bulk_of(vs[2 * k + 1]).unwrap(),
        decreases xs@.len() - i,
    {
        let f = bulk_from(&xs[i]);
        let v = bulk_from(&xs[i + 1]);
        match (f, v) {
            (Some(f), Some(v)) => {
                out.push((Field(f), Value(v)));
            },
            _ => {
                assert(bulk_of(vs[i as int]) is None || bulk_of(vs[i + 1]) is None);
                return None;
            },
        }
        i = i + 2;
    }
    let e = Entry(out);
    assert(e@ =~= fields_of(vs).unwrap());
    Some(e)
}

fn entry_from(d: &Data) -> (r: Option<(Id, Entry)>)
    ensures
        match entry_of(d@) {
            Some((id, f)) => r matches Some((x, e)) && (x.0, x.1) == id && e@ == f,
            None => r is None,
        },
{
    match d {
        Data::Array(xs) => {
            proof {
                lemma_view_all(xs@);
            }
            if xs.len() != 2 {
                return None;
            }
            let id = match Id::try_from_data(data_clone(&xs[0])) {
                Some(id) => id,
                None => {
                    return None;
                },
            };
            match &xs[1] {
                Data::Array(fs) => match fields_from(fs) {
                    Some(e) => Some((id, e)),
                    None => None,
                },
                _ => None,
            }
        },
        _ => None,
    }
}

impl Entries {
    /// The entries that `data` holds, if it is an array of `[id, [field, value, ...]]`.
    pub fn try_from_data(data: &Data) -> (r: Option<Entries>)
        ensures
            match entries_of(data@) {
                Some(es) => r matches Some(e) && e@ == es,
                None => r is None,
            },
    {
        match data {
            Data::Array(xs) => {
                proof {
                    lemma_view_all(xs@);
                }
                let ghost vs = view_all(xs@);
                let mut out: Vec<(Id, Entry)> = Vec::new();
                let mut i: usize = 0;
                while i < xs.len()
                    invariant
                        i <= xs@.len(),
                        *data == Data::Array(*xs),
                        vs == view_all(xs@),
                        vs.len() == xs@.len(),
                        forall|j: int| 0 <= j < xs@.len() ==> #[trigger] vs[j] == xs@[j]@,
                        forall|j: int| 0 <= j < i ==> entry_of(#[trigger] vs[j]) is Some,
                        out@.len() == i,
                        forall|k: int|
                            0 <= k < i ==> ((#[trigger] out@[k]).0.0, out@[k].0.1) == entry_of(
                                vs[k],
                            ).unwrap().0 && out@[k].1@ == entry_of(vs[k]).unwrap().1,
                    decreases xs@.len() - i,
                {
                    match entry_from(&xs[i]) {
                        Some(e) => {
                            out.push(e);
                        },
                        None => {
                            assert(entry_of(vs[i as int]) is None);
                            return None;
                        },
                    }
                    i = i + 1;
                }
                let es = Entries(out);
                assert(es@ =~= entries_of(data@).unwrap());
                Some(es)
            },
            _ => None,
        }
    }
}

pub type ReadView = Seq<(Seq<u8>, EntriesView)>;

/// One stream of a read reply, `[key, entries]`.
pub open spec fn stream_of(d: DataView) -> Option<(Seq<u8>, EntriesView)> {
    match d {
        DataView::Arr(xs) => if xs.len() == 2 && bulk_of(xs[0]) is Some && entries_of(xs[1]) is Some {
            Some((bulk_of(xs[0]).unwrap(), entries_of(xs[1]).unwrap()))
        } else {
            None
        },
        _ => None,
    }
}

/// A read reply: an array of streams.
pub open spec fn read_of(d: DataView) -> Option<ReadView> {
    match d {
        DataView::Arr(xs) => if forall|i: int| 0 <= i < xs.len() ==> stream_of(#[trigger] xs[i]) is Some {
            Some(Seq::new(xs.len(), |i: int| stream_of(xs[i]).unwrap()))
        } else {
            None
        },
        _ => None,
    }
}

fn stream_from(d: &Data) -> (r: Option<(Key, Entries)>)
    ensures
        match stream_of(d@) {
            Some((k, es)) => r matches Some((x, e)) && x.0@ == k && e@ == es,
            None => r is None,
        },
{
    match d {
        Data::Array(xs) => {
            proof {
                lemma_view_all(xs@);
            }
            if xs.len() != 2 {
                return None;
            }
            match (bulk_from(&xs[0]), Entries::try_from_data(&xs[1])) {
                (Some(k), Some(e)) => Some((Key(k), e)),
                _ => None,
            }
        },
        _ => None,
    }
}

impl ReadResponse {
    pub open spec fn view(&self) -> ReadView {
        Seq::new(self.0@.len(), |i: int| (self.0@[i].0.0@, self.0@[i].1@))
    }

    /// The read reply that `data` holds, if it has the shape
    /// `[[key, [[id, [field, value, ...]], ...]], ...]`.
    pub fn try_from_data(data: Data) -> (r: Option<ReadResponse>)
        ensures
            match read_of(data@) {
                Some(v) => r matches Some(x) && x@ == v,
                None => r is None,
            },
    {
        match &data {
            Data::Array(xs) => {
                proof {
                    lemma_view_all(xs@);
                }
                let ghost vs = view_all(xs@);
                let mut out: Vec<(Key, Entries)> = Vec::new();
                let mut i: usize = 0;
                while i < xs.len()
                    invariant
                        i <= xs@.len(),
                        data == Data::Array(*xs),
                        vs == view_all(xs@),
                        vs.len() == xs@.len(),
                        forall|j: int| 0 <= j < xs@.len() ==> #[trigger] vs[j] == xs@[j]@,
                        forall|j: int| 0 <= j < i ==> stream_of(#[trigger] vs[j]) is Some,
                        out@.len() == i,
                        forall|k: int|
                            0 <= k < i ==> (#[trigger] out@[k]).0.0@ == stream_of(vs[k]).unwrap().0
                                && out@[k].1@ == stream_of(vs[k]).unwrap().1,
                    decreases xs@.len() - i,
                {
                    match stream_from(&xs[i]) {
                        Some(e) => {
                            out.push(e);
                        },
                        None => {
                            assert(stream_of(vs[i as int]) is None);
                            return None;
                        },
                    }
                    i = i + 1;
                }
                let res = ReadResponse(out);
                assert(res@ =~= read_of(data@).unwrap());
                Some(res)
            },
            _ => None,
        }
    }

    /// The entries read from the stream `key`, the last ones where it comes twice.
    pub fn get(&self, key: &[u8]) -> (r: Option<&Entries>)
        ensures
            r matches Some(e) ==> exists|i: int|
                0 <= i < self@.len() && #[trigger] self@[i] == (key@, e@) && forall|j: int|
                    i < j < self@.len() ==> (#[trigger] self@[j]).0 != key@,
            r is None ==> forall|i: int| 0 <= i < self@.len() ==> (#[trigger] self@[i]).0 != key@,
    {
        let mut i: usize = self.0.len();
        while i > 0
            invariant
                i <= self.0@.len(),
                forall|j: int| i <= j < self@.len() ==> (#[trigger] self@[j]).0 != key@,
            decreases i,
        {
            i = i - 1;
            if bytes_eq(self.0[i].0.0.as_slice(), key) {
                assert(self@[i as int] == (key@, self.0@[i as int].1@));
                return Some(&self.0[i].1);
            }
        }
        None
    }
}

impl FromData for ReadResponse {
    open spec fn accepts(d: DataView) -> bool {
        read_of(d) is Some
    }

    open spec fn decodes(d: DataView, v: ReadResponse) -> bool {
        read_of(d) == Some(v@)
    }

    fn from_data(d: Data) -> (r: Result<ReadResponse, Error>) {
        match ReadResponse::try_from_data(d) {
            Some(v) => Ok(v),
            None => Err(Error::Message("expected a stream read reply".to_owned())),
        }
    }
}

/// An array of stream IDs.
pub open spec fn ids_of(d: DataView) -> Option<Seq<(u64, u64)>> {
    match d {
        DataView::Arr(xs) => if forall|i: int| 0 <= i < xs.len() ==> id_of(#[trigger] xs[i]) is Some {
            Some(Seq::new(xs.len(), |i: int| id_of(xs[i]).unwrap()))
        } else {
            None
        },
        _ => None,
    }
}

pub type AutoclaimView = ((u64, u64), EntriesView, Seq<(u64, u64)>);

/// An autoclaim reply: `[next-id, entries]`, or `[next-id, entries, deleted-ids]`.
pub open spec fn autoclaim_of(d: DataView) -> Option<AutoclaimView> {
    match d {
        DataView::Arr(xs) => if (xs.len() == 2 || xs.len() == 3) && id_of(xs[0]) is Some
            && entries_of(xs[1]) is Some && (xs.len() == 3 ==> ids_of(xs[2]) is Some) {
            Some(
                (
                    id_of(xs[0]).unwrap(),
                    entries_of(xs[1]).unwrap(),
                    if xs.len() == 3 {
                        ids_of(xs[2]).unwrap()
                    } else {
                        Seq::empty()
                    },
                ),
            )
        } else {
            None
        },
        _ => None,
    }
}

fn ids_from(d: &Data) -> (r: Option<Vec<Id>>)
    ensures
        match ids_of(d@) {
            Some(ids) => r matches Some(v) && v@.len() == ids.len() && forall|i: int|
                0 <= i < ids.len() ==> (#[trigger] v@[i].0, v@[i].1) == ids[i],
            None => r is None,
        },
{
    match d {
        Data::Array(xs) => {
            proof {
                lemma_view_all(xs@);
            }
            let ghost vs = view_all(xs@);
            let mut out: Vec<Id> = Vec::new();
            let mut i: usize = 0;
            while i < xs.len()
                invariant
                    i <= xs@.len(),
                    *d == Data::Array(*xs),
                    vs == view_all(xs@),
                    vs.len() == xs@.len(),
                    forall|j: int| 0 <= j < xs@.len() ==> #[trigger] vs[j] == xs@[j]@,
                    forall|j: int| 0 <= j < i ==> id_of(#[trigger] vs[j]) is Some,
                    out@.len() == i,
                    forall|k: int| 0 <= k < i ==> (#[trigger] out@[k].0, out@[k].1) == id_of(vs[k]).unwrap(),
                decreases xs@.len() - i,
            {
                match Id::try_from_data(data_clone(&xs[i])) {
                    Some(id) => {
                        out.push(id);
                    },
                    None => {
                        assert(id_of(vs[i as int]) is None);
                        return None;
                    },
                }
                i = i + 1;
            }
            Some(out)
        },
        _ => None,
    }
}

impl AutoclaimResponse {
    pub open spec fn view(&self) -> AutoclaimView {
        (
            (self.0.0, self.0.1),
            self.1@,
            Seq::new(self.2@.len(), |i: int| (self.2@[i].0, self.2@[i].1)),
        )
    }

    /// The autoclaim reply that `data` holds, if it has that shape.
    pub fn try_from_data(data: Data) -> (r: Option<AutoclaimResponse>)
        ensures
            match autoclaim_of(data@) {
                Some(v) => r matches Some(x) && x@ == v,
                None => r is None,
            },
    {
        match &data {
            Data::Array(xs) => {
                proof {
                    lemma_view_all(xs@);
                }
                if xs.len() != 2 && xs.len() != 3 {
                    return None;
                }
                let next = match Id::try_from_data(data_clone(&xs[0])) {
                    Some(id) => id,
                    None => {
                        return None;
                    },
                };
                let entries = match Entries::try_from_data(&xs[1]) {
                    Some(e) => e,
                    None => {
                        return None;
                    },
                };
                let deleted = if xs.len() == 3 {
                    match ids_from(&xs[2]) {
                        Some(v) => v,
                        None => {
                            return None;
                        },
                    }
                } else {
                    Vec::new()
                };
                let res = AutoclaimResponse(next, entries, deleted);
                assert(res@.2 =~= autoclaim_of(data@).unwrap().2);
                Some(res)
            },
            _ => None,
        }
    }
}

impl FromData for AutoclaimResponse {
    open spec fn accepts(d: DataView) -> bool {
        autoclaim_of(d) is Some
    }

    open spec fn decodes(d: DataView, v: AutoclaimResponse) -> bool {
        autoclaim_of(d) == Some(v@)
    }

    fn from_data(d: Data) -> (r: Result<AutoclaimResponse, Error>) {
        match AutoclaimResponse::try_from_data(d) {
            Some(v) => Ok(v),
            None => Err(Error::Message("expected an autoclaim reply".to_owned())),
        }
    }
}

} // verus!
