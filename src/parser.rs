use vstd::prelude::*;
use vstd::utf8::{decode_utf8, encode_utf8, valid_utf8};

use crate::data::{lemma_view_all_push, view_all, Data, DataView};

verus! {

/// What reading one item at a position of a byte sequence gives.
pub enum Parsed<T> {
    /// The item, and the position just after it.
    Done(T, int),
    /// A `-` line sent by the server: its text, and the position just after it.
    Server(Seq<char>, int),
    /// The bytes end before the item does; the number of missing bytes where it is known.
    Incomplete(Option<nat>),
    /// The bytes cannot start such an item; the position where the item began.
    Invalid(int),
}

/// Why the bytes did not give an item.
#[derive(Debug, PartialEq, Eq, Structural)]
pub enum ParseError {
    /// More bytes are needed; how many, where it is known.
    Incomplete(Option<u64>),
    /// The bytes are malformed; the offset where the malformed item began.
    Invalid(usize),
}

pub open spec fn is_line_break(b: u8) -> bool {
    b == 13 || b == 10
}

/// The position of the first CR or LF at or after `i`.
pub open spec fn line_end(s: Seq<u8>, i: int) -> Option<int>
    decreases s.len() - i,
{
    if i < 0 || i >= s.len() {
        None
    } else if is_line_break(s[i]) {
        Some(i)
    } else {
        line_end(s, i + 1)
    }
}

/// The line that starts just after the marker at `p`: the bytes up to the first CR or
/// LF, which must be a CR followed by LF.
pub open spec fn line(s: Seq<u8>, p: int) -> Parsed<Seq<u8>> {
    match line_end(s, p + 1) {
        None => Parsed::Incomplete(None),
        Some(j) => if s[j] == 10 {
            Parsed::Invalid(p)
        } else if j + 1 >= s.len() {
            Parsed::Incomplete(None)
        } else if s[j + 1] == 10 {
            Parsed::Done(s.subrange(p + 1, j), j + 2)
        } else {
            Parsed::Invalid(p)
        },
    }
}

/// The text of the line after the marker at `p`, which must be valid UTF-8.
pub open spec fn text_line(s: Seq<u8>, p: int) -> Parsed<Seq<char>> {
    match line(s, p) {
        Parsed::Done(b, n) => if valid_utf8(b) {
            Parsed::Done(decode_utf8(b), n)
        } else {
            Parsed::Invalid(p)
        },
        Parsed::Incomplete(h) => Parsed::Incomplete(h),
        _ => Parsed::Invalid(p),
    }
}

/// A marked line at `p`: the marker byte, then text up to CR LF.
pub open spec fn marked_text(s: Seq<u8>, p: int, marker: u8) -> Parsed<Seq<char>> {
    if p >= s.len() {
        Parsed::Incomplete(None)
    } else if s[p] != marker {
        Parsed::Invalid(p)
    } else {
        text_line(s, p)
    }
}

proof fn lemma_line_end(s: Seq<u8>, i: int)
    requires
        0 <= i,
    ensures
        match line_end(s, i) {
            Some(j) => i <= j < s.len() && is_line_break(s[j]) && forall|k: int|
                i <= k < j ==> !is_line_break(#[trigger] s[k]),
            None => forall|k: int| i <= k < s.len() ==> !is_line_break(#[trigger] s[k]),
        },
    decreases s.len() - i,
{
    if i < s.len() && !is_line_break(s[i]) {
        lemma_line_end(s, i + 1);
    }
}

fn find_line_end(s: &[u8], i: usize) -> (r: Option<usize>)
    ensures
        r matches Some(j) ==> line_end(s@, i as int) == Some(j as int),
        r is None ==> line_end(s@, i as int) is None,
{
    let mut j: usize = i;
    while j < s.len()
        invariant
            i <= j,
            line_end(s@, i as int) == line_end(s@, j as int),
        decreases s@.len() - j,
    {
        if s[j] == 13 || s[j] == 10 {
            return Some(j);
        }
        j = j + 1;
    }
    None
}

/// Relies on std::str::from_utf8: it accepts exactly the valid UTF-8 sequences, and the
/// text it gives back is the one those bytes encode.
#[verifier::external_body]
pub(crate) fn utf8_str<'a>(b: &'a [u8]) -> (r: Option<&'a str>)
    ensures
        r.is_some() == valid_utf8(b@),
        r.is_some() ==> r.unwrap()@ == decode_utf8(b@),
{
    std::str::from_utf8(b).ok()
}

/// Reads the text of a marked line at `p`; gives the text and the position after it.
fn read_marked_text<'a>(s: &'a [u8], p: usize, marker: u8) -> (r: Result<
    (&'a str, usize),
    ParseError,
>)
    ensures
        match marked_text(s@, p as int, marker) {
            Parsed::Done(t, n) => r matches Ok((x, m)) && x@ == t && m == n,
            Parsed::Incomplete(h) => r matches Err(ParseError::Incomplete(g)) && h is None
                && g is None,
            Parsed::Invalid(q) => r matches Err(ParseError::Invalid(e)) && e == q,
            Parsed::Server(_, _) => false,
        },
{
    if p >= s.len() {
        return Err(ParseError::Incomplete(None));
    }
    if s[p] != marker {
        return Err(ParseError::Invalid(p));
    }
    let found = find_line_end(s, p + 1);
    proof {
        lemma_line_end(s@, p + 1);
    }
    match found {
        None => Err(ParseError::Incomplete(None)),
        Some(j) => {
            if s[j] == 10 {
                Err(ParseError::Invalid(p))
            } else if j + 1 >= s.len() {
                Err(ParseError::Incomplete(None))
            } else if s[j + 1] == 10 {
                let content = &s[p + 1..j];
                match utf8_str(content) {
                    Some(t) => Ok((t, j + 2)),
                    None => Err(ParseError::Invalid(p)),
                }
            } else {
                Err(ParseError::Invalid(p))
            }
        },
    }
}

pub open spec fn is_digit(b: u8) -> bool {
    48 <= b <= 57
}

/// The position of the first byte at or after `k` that is not an ASCII digit.
pub open spec fn digits_end(s: Seq<u8>, k: int) -> int
    decreases s.len() - k,
{
    if k < 0 || k >= s.len() || !is_digit(s[k]) {
        k
    } else {
        digits_end(s, k + 1)
    }
}

/// The number that a run of ASCII digits writes in decimal.
pub open spec fn digits_value(d: Seq<u8>) -> int
    decreases d.len(),
{
    if d.len() == 0 {
        0
    } else {
        digits_value(d.drop_last()) * 10 + (d.last() - 48)
    }
}

/// A signed decimal after the marker at `p`, then CR LF. It is a minus sign or none,
/// then one or more digits, and must fit in an `i64`.
pub open spec fn number(s: Seq<u8>, p: int) -> Parsed<i64> {
    let k0 = p + 1;
    if k0 >= s.len() {
        Parsed::Incomplete(None)
    } else {
        let neg = s[k0] == 45;
        let k = if neg { k0 + 1 } else { k0 };
        let e = digits_end(s, k);
        if e >= s.len() {
            Parsed::Incomplete(None)
        } else if e == k {
            Parsed::Invalid(p)
        } else {
            let m = digits_value(s.subrange(k, e));
            let v = if neg { -m } else { m };
            if !(i64::MIN <= v <= i64::MAX) {
                Parsed::Invalid(p)
            } else if s[e] != 13 {
                Parsed::Invalid(p)
            } else if e + 1 >= s.len() {
                Parsed::Incomplete(None)
            } else if s[e + 1] != 10 {
                Parsed::Invalid(p)
            } else {
                Parsed::Done(v as i64, e + 2)
            }
        }
    }
}

/// A marked number at `p`: the marker byte, then a signed decimal, then CR LF.
pub open spec fn marked_number(s: Seq<u8>, p: int, marker: u8) -> Parsed<i64> {
    if p >= s.len() {
        Parsed::Incomplete(None)
    } else if s[p] != marker {
        Parsed::Invalid(p)
    } else {
        number(s, p)
    }
}

pub proof fn lemma_digits_end(s: Seq<u8>, k: int)
    requires
        0 <= k <= s.len(),
    ensures
        k <= digits_end(s, k) <= s.len(),
        forall|j: int| k <= j < digits_end(s, k) ==> is_digit(#[trigger] s[j]),
        digits_end(s, k) < s.len() ==> !is_digit(s[digits_end(s, k)]),
    decreases s.len() - k,
{
    if k < s.len() && is_digit(s[k]) {
        lemma_digits_end(s, k + 1);
    }
}

proof fn lemma_digits_step(s: Seq<u8>, k: int, j: int)
    requires
        0 <= k <= j < s.len(),
    ensures
        digits_value(s.subrange(k, j + 1)) == digits_value(s.subrange(k, j)) * 10 + (s[j] - 48),
{
    assert(s.subrange(k, j + 1).drop_last() =~= s.subrange(k, j));
}

proof fn lemma_digits_grow(s: Seq<u8>, k: int, j: int, m: int)
    requires
        0 <= k <= j <= m <= s.len(),
        forall|i: int| k <= i < m ==> is_digit(#[trigger] s[i]),
    ensures
        digits_value(s.subrange(k, j)) <= digits_value(s.subrange(k, m)),
        digits_value(s.subrange(k, j)) >= 0,
    decreases m - j,
{
    if j < m {
        lemma_digits_step(s, k, m - 1);
        lemma_digits_grow(s, k, j, m - 1);
    } else {
        lemma_digits_nonneg(s.subrange(k, j));
    }
}

proof fn lemma_digits_nonneg(d: Seq<u8>)
    requires
        forall|i: int| 0 <= i < d.len() ==> is_digit(#[trigger] d[i]),
    ensures
        digits_value(d) >= 0,
    decreases d.len(),
{
    if d.len() > 0 {
        lemma_digits_nonneg(d.drop_last());
    }
}

/// Reads a signed decimal and its CR LF after the marker at `p`.
fn read_number(s: &[u8], p: usize) -> (r: Result<(i64, usize), ParseError>)
    requires
        p < s@.len(),
    ensures
        match number(s@, p as int) {
            Parsed::Done(v, n) => r matches Ok((x, m)) && x == v && m == n,
            Parsed::Incomplete(h) => r matches Err(ParseError::Incomplete(g)) && h is None
                && g is None,
            Parsed::Invalid(q) => r matches Err(ParseError::Invalid(e)) && e == q,
            Parsed::Server(_, _) => false,
        },
{
    let len = s.len();
    let k0 = p + 1;
    if k0 >= len {
        return Err(ParseError::Incomplete(None));
    }
    let neg = s[k0] == 45;
    let k = if neg { k0 + 1 } else { k0 };
    let mut e: usize = k;
    while e < s.len() && 48 <= s[e] && s[e] <= 57
        invariant
            k <= e <= s@.len(),
            digits_end(s@, k as int) == digits_end(s@, e as int),
        decreases s@.len() - e,
    {
        e = e + 1;
    }
    proof {
        lemma_digits_end(s@, k as int);
        assert(digits_end(s@, e as int) == e);
    }
    if e >= s.len() {
        return Err(ParseError::Incomplete(None));
    }
    if e == k {
        return Err(ParseError::Invalid(p));
    }
    let ghost m = digits_value(s@.subrange(k as int, e as int));
    let bound: u64 = 0x8000_0000_0000_0000;
    let mut acc: u64 = 0;
    let mut i: usize = k;
    proof {
        assert(s@.subrange(k as int, k as int) =~= Seq::<u8>::empty());
    }
    while i < e
        invariant
            k <= i <= e < s@.len(),
            forall|j: int| k <= j < e ==> is_digit(#[trigger] s@[j]),
            acc as int == digits_value(s@.subrange(k as int, i as int)),
            acc <= bound,
            bound == 0x8000_0000_0000_0000,
            e == digits_end(s@, k as int),
            neg == (s@[k0 as int] == 45),
            k == (if neg { k0 + 1 } else { k0 as int }),
            k0 == p + 1,
            m == digits_value(s@.subrange(k as int, e as int)),
        decreases e - i,
    {
        assert(is_digit(s@[i as int]));
        let d = (s[i] - 48) as u128;
        proof {
            lemma_digits_step(s@, k as int, i as int);
        }
        let next: u128 = (acc as u128) * 10 + d;
        if next > bound as u128 {
            proof {
                lemma_digits_grow(s@, k as int, i as int + 1, e as int);
                assert(m >= next);
                assert(m > 0x8000_0000_0000_0000);
                assert(e == digits_end(s@, k as int));
            }
            return Err(ParseError::Invalid(p));
        }
        acc = next as u64;
        i = i + 1;
    }
    let v: i64;
    if neg {
        if acc == bound {
            v = i64::MIN;
        } else {
            v = -(acc as i64);
        }
    } else {
        if acc >= bound {
            return Err(ParseError::Invalid(p));
        }
        v = acc as i64;
    }
    if s[e] != 13 {
        return Err(ParseError::Invalid(p));
    }
    if e + 1 >= s.len() {
        return Err(ParseError::Incomplete(None));
    }
    if s[e + 1] != 10 {
        return Err(ParseError::Invalid(p));
    }
    Ok((v, e + 2))
}

/// The deepest nesting of arrays that a frame may have.
pub const MAX_DEPTH: usize = 128;

/// A bulk string at `p`: `$`, its length, CR LF, the bytes, CR LF. Length -1 is the null
/// bulk string (`None`).
pub open spec fn bulk(s: Seq<u8>, p: int) -> Parsed<Option<Seq<u8>>> {
    match marked_number(s, p, 36) {
        Parsed::Done(n, q) => if n == -1 {
            Parsed::Done(None, q)
        } else if n < -1 {
            Parsed::Invalid(p)
        } else if q + n + 2 > s.len() {
            Parsed::Incomplete(Some((q + n + 2 - s.len()) as nat))
        } else if s[q + n] == 13 && s[q + n + 1] == 10 {
            Parsed::Done(Some(s.subrange(q, q + n)), q + n + 2)
        } else {
            Parsed::Invalid(p)
        },
        Parsed::Incomplete(h) => Parsed::Incomplete(h),
        _ => Parsed::Invalid(p),
    }
}

/// One frame at `p`, with arrays nested at most `depth` deep.
pub open spec fn frame(s: Seq<u8>, p: int, depth: nat) -> Parsed<DataView>
    decreases depth + 1, 0nat,
{
    if p < 0 || p >= s.len() {
        Parsed::Incomplete(None)
    } else if s[p] == 43 {
        match marked_text(s, p, 43) {
            Parsed::Done(t, n) => Parsed::Done(DataView::Simple(t), n),
            Parsed::Incomplete(h) => Parsed::Incomplete(h),
            _ => Parsed::Invalid(p),
        }
    } else if s[p] == 45 {
        match marked_text(s, p, 45) {
            Parsed::Done(t, n) => Parsed::Server(t, n),
            Parsed::Incomplete(h) => Parsed::Incomplete(h),
            _ => Parsed::Invalid(p),
        }
    } else if s[p] == 58 {
        match marked_number(s, p, 58) {
            Parsed::Done(v, n) => Parsed::Done(DataView::Int(v), n),
            Parsed::Incomplete(h) => Parsed::Incomplete(h),
            _ => Parsed::Invalid(p),
        }
    } else if s[p] == 36 {
        match bulk(s, p) {
            Parsed::Done(Some(b), n) => Parsed::Done(DataView::Bulk(b), n),
            Parsed::Done(None, n) => Parsed::Done(DataView::Null, n),
            Parsed::Incomplete(h) => Parsed::Incomplete(h),
            _ => Parsed::Invalid(p),
        }
    } else if s[p] == 42 {
        match marked_number(s, p, 42) {
            Parsed::Done(n, q) => if n == -1 {
                Parsed::Done(DataView::Null, q)
            } else if n < -1 || depth == 0 {
                Parsed::Invalid(p)
            } else {
                match children(s, q, n as nat, (depth - 1) as nat) {
                    Parsed::Done(xs, r) => Parsed::Done(DataView::Arr(xs), r),
                    Parsed::Server(t, r) => Parsed::Server(t, r),
                    Parsed::Incomplete(h) => Parsed::Incomplete(h),
                    Parsed::Invalid(e) => Parsed::Invalid(e),
                }
            },
            Parsed::Incomplete(h) => Parsed::Incomplete(h),
            _ => Parsed::Invalid(p),
        }
    } else {
        Parsed::Invalid(p)
    }
}

/// `n` frames one after the other from `p`.
pub open spec fn children(s: Seq<u8>, p: int, n: nat, depth: nat) -> Parsed<Seq<DataView>>
    decreases depth + 1, n + 1,
{
    if n == 0 {
        Parsed::Done(Seq::empty(), p)
    } else {
        match frame(s, p, depth) {
            Parsed::Done(x, q) => match children(s, q, (n - 1) as nat, depth) {
                Parsed::Done(xs, r) => Parsed::Done(seq![x] + xs, r),
                Parsed::Server(t, r) => Parsed::Server(t, r),
                Parsed::Incomplete(h) => Parsed::Incomplete(h),
                Parsed::Invalid(e) => Parsed::Invalid(e),
            },
            Parsed::Server(t, q) => Parsed::Server(t, q),
            Parsed::Incomplete(h) => Parsed::Incomplete(h),
            Parsed::Invalid(e) => Parsed::Invalid(e),
        }
    }
}

pub open spec fn prepend(xs: Seq<DataView>, r: Parsed<Seq<DataView>>) -> Parsed<Seq<DataView>> {
    match r {
        Parsed::Done(ys, n) => Parsed::Done(xs + ys, n),
        Parsed::Server(t, n) => Parsed::Server(t, n),
        Parsed::Incomplete(h) => Parsed::Incomplete(h),
        Parsed::Invalid(e) => Parsed::Invalid(e),
    }
}

/// One frame read from bytes, or why there is none.
#[derive(Debug)]
pub enum Frame {
    /// A frame, and the offset just after it.
    Done(Data, usize),
    /// A `-` line from the server: its text, and the offset just after it.
    Server(String, usize),
    /// The frame is cut short or malformed.
    Failed(ParseError),
}

pub open spec fn hint_matches(h: Option<nat>, g: Option<u64>) -> bool {
    match h {
        None => g is None,
        Some(a) => g matches Some(b) && b as nat == a,
    }
}

pub open spec fn frame_matches(r: Frame, f: Parsed<DataView>) -> bool {
    match f {
        Parsed::Done(d, n) => r matches Frame::Done(x, m) && x@ == d && m == n,
        Parsed::Server(t, n) => r matches Frame::Server(x, m) && x@ == t && m == n,
        Parsed::Incomplete(h) => r matches Frame::Failed(ParseError::Incomplete(g)) && hint_matches(
            h,
            g,
        ),
        Parsed::Invalid(e) => r matches Frame::Failed(ParseError::Invalid(x)) && x == e,
    }
}

proof fn lemma_children_step(s: Seq<u8>, xs: Seq<DataView>, x: DataView, q: int, q2: int, m: nat, depth: nat)
    requires
        m > 0,
        frame(s, q, depth) == Parsed::Done(x, q2),
    ensures
        prepend(xs, children(s, q, m, depth)) == prepend(xs.push(x), children(s, q2, (m - 1) as nat, depth)),
{
    match children(s, q2, (m - 1) as nat, depth) {
        Parsed::Done(ys, r) => {
            assert(xs + (seq![x] + ys) =~= xs.push(x) + ys);
        },
        _ => {},
    }
}

/// Reads the bulk string at `p`, whose marker has been checked.
fn read_bulk<'a>(s: &'a [u8], p: usize) -> (r: Result<(Option<&'a [u8]>, usize), ParseError>)
    requires
        p < s@.len(),
        s@[p as int] == 36,
    ensures
        match bulk(s@, p as int) {
            Parsed::Done(b, n) => r matches Ok((x, m)) && m == n && match b {
                Some(v) => x matches Some(y) && y@ == v,
                None => x is None,
            },
            Parsed::Incomplete(h) => r matches Err(ParseError::Incomplete(g)) && hint_matches(h, g),
            Parsed::Invalid(q) => r matches Err(ParseError::Invalid(e)) && e == q,
            Parsed::Server(_, _) => false,
        },
{
    match read_number(s, p) {
        Err(e) => Err(e),
        Ok((n, q)) => {
            if n == -1 {
                return Ok((None, q));
            }
            if n < -1 {
                return Err(ParseError::Invalid(p));
            }
            let avail = s.len() - q;
            let un = n as u64;
            if un > avail as u64 || (avail as u64) - un < 2 {
                return Err(ParseError::Incomplete(Some(un + 2 - avail as u64)));
            }
            let end = q + un as usize;
            if s[end] == 13 && s[end + 1] == 10 {
                Ok((Some(&s[q..end]), end + 2))
            } else {
                Err(ParseError::Invalid(p))
            }
        },
    }
}

/// Reads one frame at offset `p`, with arrays nested at most `depth` deep.
pub fn parse_frame(s: &[u8], p: usize, depth: usize) -> (r: Frame)
    ensures
        frame_matches(r, frame(s@, p as int, depth as nat)),
    decreases depth,
{
    if p >= s.len() {
        return Frame::Failed(ParseError::Incomplete(None));
    }
    let m = s[p];
    if m == 43 {
        match read_marked_text(s, p, 43) {
            Ok((t, n)) => Frame::Done(Data::SimpleString(t.to_owned()), n),
            Err(e) => Frame::Failed(e),
        }
    } else if m == 45 {
        match read_marked_text(s, p, 45) {
            Ok((t, n)) => Frame::Server(t.to_owned(), n),
            Err(e) => Frame::Failed(e),
        }
    } else if m == 58 {
        match read_number(s, p) {
            Ok((v, n)) => Frame::Done(Data::Integer(v), n),
            Err(e) => Frame::Failed(e),
        }
    } else if m == 36 {
        match read_bulk(s, p) {
            Ok((Some(b), n)) => Frame::Done(Data::bulk_string(b), n),
            Ok((None, n)) => Frame::Done(Data::Null, n),
            Err(e) => Frame::Failed(e),
        }
    } else if m == 42 {
        match read_number(s, p) {
            Err(e) => Frame::Failed(e),
            Ok((n, q)) => {
                if n == -1 {
                    return Frame::Done(Data::Null, q);
                }
                if n < -1 || depth == 0 {
                    return Frame::Failed(ParseError::Invalid(p));
                }
                let total = n as u64;
                let ghost d = (depth - 1) as nat;
                let ghost q0 = q as int;
                let mut xs: Vec<Data> = Vec::new();
                let mut at: usize = q;
                let mut k: u64 = 0;
                proof {
                    assert(prepend(view_all(xs@), children(s@, q0, total as nat, d)) =~= children(
                        s@,
                        q0,
                        total as nat,
                        d,
                    )) by {
                        match children(s@, q0, total as nat, d) {
                            Parsed::Done(ys, r) => {
                                assert(Seq::<DataView>::empty() + ys =~= ys);
                            },
                            _ => {},
                        }
                    }
                }
                while k < total
                    invariant
                        k <= total,
                        total as int == n as int,
                        n >= 0,
                        p < s@.len(),
                        s@[p as int] == 42,
                        marked_number(s@, p as int, 42) == Parsed::<i64>::Done(n, q0),
                        d == depth - 1,
                        depth > 0,
                        children(s@, q0, total as nat, d) == prepend(
                            view_all(xs@),
                            children(s@, at as int, (total - k) as nat, d),
                        ),
                    decreases total - k,
                {
                    match parse_frame(s, at, depth - 1) {
                        Frame::Done(x, next) => {
                            proof {
                                lemma_children_step(
                                    s@,
                                    view_all(xs@),
                                    x@,
                                    at as int,
                                    next as int,
                                    (total - k) as nat,
                                    d,
                                );
                                lemma_view_all_push(xs@, x);
                            }
                            xs.push(x);
                            at = next;
                            k = k + 1;
                        },
                        Frame::Server(t, next) => {
                            return Frame::Server(t, next);
                        },
                        Frame::Failed(e) => {
                            return Frame::Failed(e);
                        },
                    }
                }
                proof {
                    assert(view_all(xs@) + Seq::<DataView>::empty() =~= view_all(xs@));
                }
                Frame::Done(Data::Array(xs), at)
            },
        }
    } else {
        Frame::Failed(ParseError::Invalid(p))
    }
}

/// A textual value at `p`: a simple string, or a bulk string (null reads as empty)
/// whose bytes are valid UTF-8.
pub open spec fn loose_text(s: Seq<u8>, p: int) -> Parsed<Seq<char>> {
    if p >= s.len() {
        Parsed::Incomplete(None)
    } else if s[p] == 43 {
        text_line(s, p)
    } else if s[p] == 36 {
        match bulk(s, p) {
            Parsed::Done(b, n) => {
                let v = match b {
                    Some(v) => v,
                    None => Seq::empty(),
                };
                if valid_utf8(v) {
                    Parsed::Done(decode_utf8(v), n)
                } else {
                    Parsed::Invalid(p)
                }
            },
            Parsed::Incomplete(h) => Parsed::Incomplete(h),
            _ => Parsed::Invalid(p),
        }
    } else {
        Parsed::Invalid(p)
    }
}

/// The parse of a text as a signed decimal: an optional sign, then one or more digits,
/// fitting in an `i64`.
pub open spec fn decimal_text(t: Seq<u8>) -> Option<i64> {
    let neg = t.len() > 0 && t[0] == 45;
    let k: int = if t.len() > 0 && (t[0] == 45 || t[0] == 43) { 1 } else { 0 };
    let m = digits_value(t.subrange(k, t.len() as int));
    let v = if neg { -m } else { m };
    if k < t.len() && digits_end(t, k) == t.len() && i64::MIN <= v <= i64::MAX {
        Some(v as i64)
    } else {
        None
    }
}

/// An integer at `p`: an integer frame, or a textual value that reads as one.
pub open spec fn loose_int(s: Seq<u8>, p: int) -> Parsed<i64> {
    if p < s.len() && s[p] == 58 {
        number(s, p)
    } else {
        match loose_text(s, p) {
            Parsed::Done(t, n) => match decimal_text(encode_utf8(t)) {
                Some(v) => Parsed::Done(v, n),
                None => Parsed::Invalid(p),
            },
            Parsed::Incomplete(h) => Parsed::Incomplete(h),
            _ => Parsed::Invalid(p),
        }
    }
}

/// What a primitive parser gives, read against the item it parses.
pub open spec fn outcome_matches<A, B>(
    r: Result<(&[u8], A), ParseError>,
    input: Seq<u8>,
    f: Parsed<B>,
    same: spec_fn(A, B) -> bool,
) -> bool {
    match f {
        Parsed::Done(v, n) => r matches Ok((rem, x)) && rem@ == input.subrange(n, input.len() as int)
            && same(x, v),
        Parsed::Incomplete(h) => r matches Err(ParseError::Incomplete(g)) && hint_matches(h, g),
        Parsed::Invalid(q) => r matches Err(ParseError::Invalid(e)) && e == q,
        Parsed::Server(_, _) => false,
    }
}

/// Splits off the unread part of `s` from offset `n`.
pub(crate) fn rest(s: &[u8], n: usize) -> (r: &[u8])
    requires
        n <= s@.len(),
    ensures
        r@ == s@.subrange(n as int, s@.len() as int),
{
    let (_, b) = s.split_at(n);
    b
}

proof fn lemma_line_within(s: Seq<u8>, p: int)
    requires
        0 <= p,
    ensures
        line(s, p) matches Parsed::Done(_, n) ==> p < n <= s.len(),
{
    lemma_line_end(s, p + 1);
}

proof fn lemma_number_within(s: Seq<u8>, p: int)
    requires
        0 <= p,
    ensures
        number(s, p) matches Parsed::Done(_, n) ==> p < n <= s.len(),
{
    if p + 1 < s.len() {
        let k = if s[p + 1] == 45 { p + 2 } else { p + 1 };
        lemma_digits_end(s, k);
    }
}

/// Parse a RESP simple string.
pub fn parse_str(data: &[u8]) -> (r: Result<(&[u8], &str), ParseError>)
    ensures
        outcome_matches(r, data@, marked_text(data@, 0, 43), |x: &str, t: Seq<char>| x@ == t),
{
    proof {
        lemma_line_within(data@, 0);
    }
    match read_marked_text(data, 0, 43) {
        Ok((t, n)) => Ok((rest(data, n), t)),
        Err(e) => Err(e),
    }
}

/// Parse a RESP error line.
pub fn parse_err(data: &[u8]) -> (r: Result<(&[u8], &str), ParseError>)
    ensures
        outcome_matches(r, data@, marked_text(data@, 0, 45), |x: &str, t: Seq<char>| x@ == t),
{
    proof {
        lemma_line_within(data@, 0);
    }
    match read_marked_text(data, 0, 45) {
        Ok((t, n)) => Ok((rest(data, n), t)),
        Err(e) => Err(e),
    }
}

/// Parse a RESP integer.
pub fn parse_int(data: &[u8]) -> (r: Result<(&[u8], i64), ParseError>)
    ensures
        outcome_matches(r, data@, marked_number(data@, 0, 58), |x: i64, v: i64| x == v),
{
    proof {
        lemma_number_within(data@, 0);
    }
    if data.len() == 0 {
        return Err(ParseError::Incomplete(None));
    }
    if data[0] != 58 {
        return Err(ParseError::Invalid(0));
    }
    match read_number(data, 0) {
        Ok((v, n)) => Ok((rest(data, n), v)),
        Err(e) => Err(e),
    }
}

/// Parse a RESP bulk string; the null bulk string gives `None`.
pub fn parse_bytes(data: &[u8]) -> (r: Result<(&[u8], Option<&[u8]>), ParseError>)
    ensures
        outcome_matches(
            r,
            data@,
            bulk(data@, 0),
            |x: Option<&[u8]>, b: Option<Seq<u8>>|
                match b {
                    Some(v) => x matches Some(y) && y@ == v,
                    None => x is None,
                },
        ),
{
    proof {
        lemma_number_within(data@, 0);
    }
    if data.len() == 0 {
        return Err(ParseError::Incomplete(None));
    }
    if data[0] != 36 {
        return Err(ParseError::Invalid(0));
    }
    match read_bulk(data, 0) {
        Ok((b, n)) => Ok((rest(data, n), b)),
        Err(e) => Err(e),
    }
}

/// Parse the header of a RESP array: its length, -1 for the null array. The elements
/// are read by the other parsers.
pub fn parse_array(data: &[u8]) -> (r: Result<(&[u8], i64), ParseError>)
    ensures
        outcome_matches(r, data@, marked_number(data@, 0, 42), |x: i64, v: i64| x == v),
{
    proof {
        lemma_number_within(data@, 0);
    }
    if data.len() == 0 {
        return Err(ParseError::Incomplete(None));
    }
    if data[0] != 42 {
        return Err(ParseError::Invalid(0));
    }
    match read_number(data, 0) {
        Ok((v, n)) => Ok((rest(data, n), v)),
        Err(e) => Err(e),
    }
}

/// Reads a whole text as a signed decimal.
pub fn parse_decimal(t: &[u8]) -> (r: Option<i64>)
    ensures
        r == decimal_text(t@),
{
    let len = t.len();
    let neg = len > 0 && t[0] == 45;
    let k: usize = if len > 0 && (t[0] == 45 || t[0] == 43) { 1 } else { 0 };
    if k >= len {
        return None;
    }
    let mut e: usize = k;
    while e < len && 48 <= t[e] && t[e] <= 57
        invariant
            k <= e <= t@.len(),
            len == t@.len(),
            digits_end(t@, k as int) == digits_end(t@, e as int),
        decreases t@.len() - e,
    {
        e = e + 1;
    }
    proof {
        lemma_digits_end(t@, k as int);
        assert(digits_end(t@, e as int) == e);
    }
    if e != len {
        return None;
    }
    let ghost m = digits_value(t@.subrange(k as int, len as int));
    let bound: u64 = 0x8000_0000_0000_0000;
    let mut acc: u64 = 0;
    let mut i: usize = k;
    proof {
        assert(t@.subrange(k as int, k as int) =~= Seq::<u8>::empty());
    }
    while i < len
        invariant
            k <= i <= len,
            len == t@.len(),
            forall|j: int| k <= j < len ==> is_digit(#[trigger] t@[j]),
            acc as int == digits_value(t@.subrange(k as int, i as int)),
            acc <= bound,
            bound == 0x8000_0000_0000_0000,
            m == digits_value(t@.subrange(k as int, len as int)),
            len == digits_end(t@, k as int),
            neg == (len > 0 && t@[0] == 45),
            k == (if len > 0 && (t@[0] == 45 || t@[0] == 43) { 1int } else { 0int }),
        decreases len - i,
    {
        assert(is_digit(t@[i as int]));
        let d = (t[i] - 48) as u128;
        proof {
            lemma_digits_step(t@, k as int, i as int);
        }
        let next: u128 = (acc as u128) * 10 + d;
        if next > bound as u128 {
            proof {
                lemma_digits_grow(t@, k as int, i as int + 1, len as int);
                assert(m >= next);
            }
            return None;
        }
        acc = next as u64;
        i = i + 1;
    }
    if neg {
        if acc == bound {
            Some(i64::MIN)
        } else {
            Some(-(acc as i64))
        }
    } else {
        if acc >= bound {
            return None;
        }
        Some(acc as i64)
    }
}

/// Parse a RESP string, or a bulk string whose bytes are valid UTF-8.
pub fn parse_str_loose(data: &[u8]) -> (r: Result<(&[u8], &str), ParseError>)
    ensures
        outcome_matches(r, data@, loose_text(data@, 0), |x: &str, t: Seq<char>| x@ == t),
{
    if data.len() == 0 {
        return Err(ParseError::Incomplete(None));
    }
    if data[0] == 43 {
        return parse_str(data);
    }
    if data[0] != 36 {
        return Err(ParseError::Invalid(0));
    }
    match parse_bytes(data) {
        Ok((rem, b)) => {
            let v: &[u8] = match b {
                Some(v) => v,
                None => &[],
            };
            proof {
                if b is None {
                    assert(v@ =~= Seq::<u8>::empty());
                }
            }
            match utf8_str(v) {
                Some(t) => Ok((rem, t)),
                None => Err(ParseError::Invalid(0)),
            }
        },
        Err(e) => Err(e),
    }
}

/// Parse a RESP integer, or a string or bulk string that holds a decimal integer.
pub fn parse_int_loose(data: &[u8]) -> (r: Result<(&[u8], i64), ParseError>)
    ensures
        outcome_matches(r, data@, loose_int(data@, 0), |x: i64, v: i64| x == v),
{
    if data.len() > 0 && data[0] == 58 {
        return parse_int(data);
    }
    match parse_str_loose(data) {
        Ok((rem, t)) => match parse_decimal(t.as_bytes()) {
            Some(v) => Ok((rem, v)),
            None => Err(ParseError::Invalid(0)),
        },
        Err(e) => Err(e),
    }
}

/// Where a frame read from `p` ends, or where it failed, lies within the bytes.
pub proof fn lemma_frame_within(s: Seq<u8>, p: int, depth: nat)
    requires
        0 <= p,
    ensures
        match frame(s, p, depth) {
            Parsed::Done(_, n) => p < n <= s.len(),
            Parsed::Server(_, n) => p < n <= s.len(),
            Parsed::Invalid(q) => p <= q < s.len(),
            Parsed::Incomplete(_) => true,
        },
    decreases depth + 1, 0nat,
{
    lemma_line_within(s, p);
    lemma_number_within(s, p);
    if p < s.len() && s[p] == 42 {
        match marked_number(s, p, 42) {
            Parsed::Done(n, q) => {
                if n >= 0 && depth > 0 {
                    lemma_children_within(s, q, n as nat, (depth - 1) as nat);
                }
            },
            _ => {},
        }
    }
}

proof fn lemma_children_within(s: Seq<u8>, p: int, n: nat, depth: nat)
    requires
        0 <= p <= s.len(),
    ensures
        match children(s, p, n, depth) {
            Parsed::Done(_, r) => p <= r <= s.len(),
            Parsed::Server(_, r) => p < r <= s.len(),
            Parsed::Invalid(q) => p <= q < s.len(),
            Parsed::Incomplete(_) => true,
        },
    decreases depth + 1, n + 1,
{
    if n > 0 {
        lemma_frame_within(s, p, depth);
        match frame(s, p, depth) {
            Parsed::Done(_, q) => {
                lemma_children_within(s, q, (n - 1) as nat, depth);
            },
            _ => {},
        }
    }
}

} // verus!
