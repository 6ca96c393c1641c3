use vstd::prelude::*;
use vstd::utf8::{encode_utf8, encode_utf8_decode_utf8, encode_utf8_valid_utf8};

use crate::codec::decode_outcome;
use crate::data::{Data, DataView};
use crate::error::Error;
use crate::model::stream::{dash_at, id_bytes, id_text, u64_text};
use crate::parser::{
    bulk, children, digits_end, digits_value, frame, is_digit, is_line_break, line, line_end,
    lemma_frame_within, marked_number, marked_text, number, Parsed, MAX_DEPTH,
};
use crate::ser::{crlf, decimal, encode, encode_all, nat_digits, null_bytes, NullType};

verus! {

broadcast use vstd::seq::group_seq_axioms;

/// Whether `e` stands in `s` from position `p` on.
pub open spec fn at(s: Seq<u8>, p: int, e: Seq<u8>) -> bool {
    0 <= p && p + e.len() <= s.len() && forall|i: int| 0 <= i < e.len() ==> s[p + i] == #[trigger] e[i]
}

/// Whether a value survives being written and read back: the text of its simple strings
/// holds no CR or LF, its lengths fit in an `i64`, and its arrays nest at most `depth`
/// deep.
pub open spec fn well_formed(d: DataView, depth: nat) -> bool
    decreases d,
{
    match d {
        DataView::Simple(t) => forall|i: int|
            0 <= i < encode_utf8(t).len() ==> !is_line_break(#[trigger] encode_utf8(t)[i]),
        DataView::Bulk(b) => b.len() <= i64::MAX,
        DataView::Arr(xs) => xs.len() <= i64::MAX && depth > 0 && forall|i: int|
            0 <= i < xs.len() ==> well_formed(#[trigger] xs[i], (depth - 1) as nat),
        _ => true,
    }
}

proof fn lemma_at_split(s: Seq<u8>, p: int, a: Seq<u8>, b: Seq<u8>)
    requires
        at(s, p, a + b),
    ensures
        at(s, p, a),
        at(s, p + a.len(), b),
{
    assert forall|i: int| 0 <= i < a.len() implies s[p + i] == #[trigger] a[i] by {
        assert((a + b)[i] == a[i]);
    }
    assert forall|i: int| 0 <= i < b.len() implies s[p + a.len() + i] == #[trigger] b[i] by {
        assert((a + b)[a.len() + i] == b[i]);
    }
}

proof fn lemma_at_subrange(s: Seq<u8>, p: int, e: Seq<u8>)
    requires
        at(s, p, e),
    ensures
        s.subrange(p, p + e.len()) == e,
{
    assert(s.subrange(p, p + e.len()) =~= e);
}

proof fn lemma_line_end_at(s: Seq<u8>, i: int, j: int)
    requires
        0 <= i <= j < s.len(),
        is_line_break(s[j]),
        forall|k: int| i <= k < j ==> !is_line_break(#[trigger] s[k]),
    ensures
        line_end(s, i) == Some(j),
    decreases j - i,
{
    if i < j {
        lemma_line_end_at(s, i + 1, j);
    }
}

/// A line whose body holds no CR or LF reads back as that body.
proof fn lemma_line_at(s: Seq<u8>, p: int, body: Seq<u8>)
    requires
        0 <= p < s.len(),
        at(s, p + 1, body + crlf()),
        forall|i: int| 0 <= i < body.len() ==> !is_line_break(#[trigger] body[i]),
    ensures
        line(s, p) == Parsed::Done(body, p + 1 + body.len() + 2),
{
    lemma_at_split(s, p + 1, body, crlf());
    let j = p + 1 + body.len();
    assert(s[j] == crlf()[0]);
    assert(s[j + 1] == crlf()[1]);
    assert forall|k: int| p + 1 <= k < j implies !is_line_break(#[trigger] s[k]) by {
        assert(s[p + 1 + (k - p - 1)] == body[k - p - 1]);
    }
    lemma_line_end_at(s, p + 1, j);
    lemma_at_subrange(s, p + 1, body);
}

proof fn lemma_text_at(s: Seq<u8>, p: int, marker: u8, t: Seq<char>)
    requires
        at(s, p, seq![marker] + encode_utf8(t) + crlf()),
        forall|i: int| 0 <= i < encode_utf8(t).len() ==> !is_line_break(#[trigger] encode_utf8(t)[i]),
    ensures
        marked_text(s, p, marker) == Parsed::Done(t, p + 1 + encode_utf8(t).len() + 2),
{
    assert(seq![marker] + encode_utf8(t) + crlf() =~= seq![marker] + (encode_utf8(t) + crlf()));
    lemma_at_split(s, p, seq![marker], encode_utf8(t) + crlf());
    assert(s[p] == seq![marker][0]);
    lemma_line_at(s, p, encode_utf8(t));
    encode_utf8_valid_utf8(t);
    encode_utf8_decode_utf8(t);
}

proof fn lemma_nat_digits(n: nat)
    ensures
        nat_digits(n).len() >= 1,
        forall|i: int| 0 <= i < nat_digits(n).len() ==> is_digit(#[trigger] nat_digits(n)[i]),
        digits_value(nat_digits(n)) == n,
    decreases n,
{
    if n >= 10 {
        lemma_nat_digits(n / 10);
        let d = nat_digits(n);
        assert(d.drop_last() =~= nat_digits(n / 10));
        assert(n == (n / 10) * 10 + n % 10) by (nonlinear_arith);
        assert(d.last() as int == 48 + n % 10);
        assert(digits_value(d) == digits_value(d.drop_last()) * 10 + (d.last() - 48));
    } else {
        let d = nat_digits(n);
        assert(d.drop_last() =~= Seq::<u8>::empty());
        assert(d.last() as int == 48 + n);
        assert(digits_value(d) == digits_value(d.drop_last()) * 10 + (d.last() - 48));
    }
}

proof fn lemma_digits_at(s: Seq<u8>, k: int, ds: Seq<u8>)
    requires
        at(s, k, ds),
        forall|i: int| 0 <= i < ds.len() ==> is_digit(#[trigger] ds[i]),
        k + ds.len() < s.len(),
        !is_digit(s[k + ds.len()]),
    ensures
        digits_end(s, k) == k + ds.len(),
        s.subrange(k, k + ds.len()) == ds,
    decreases ds.len(),
{
    lemma_at_subrange(s, k, ds);
    if ds.len() > 0 {
        assert(s[k + 0] == ds[0]);
        let tail = ds.subrange(1, ds.len() as int);
        assert forall|i: int| 0 <= i < tail.len() implies s[k + 1 + i] == #[trigger] tail[i] by {
            assert(s[k + (1 + i)] == ds[1 + i]);
        }
        lemma_digits_at(s, k + 1, tail);
    }
}

/// A decimal that fits in an `i64`, then CR LF, reads back as that number.
proof fn lemma_number_at(s: Seq<u8>, p: int, marker: u8, v: int)
    requires
        i64::MIN <= v <= i64::MAX,
        at(s, p, seq![marker] + decimal(v) + crlf()),
    ensures
        marked_number(s, p, marker) == Parsed::Done(v as i64, p + 1 + decimal(v).len() + 2),
{
    let dec = decimal(v);
    assert(seq![marker] + dec + crlf() =~= seq![marker] + (dec + crlf()));
    lemma_at_split(s, p, seq![marker], dec + crlf());
    lemma_at_split(s, p + 1, dec, crlf());
    assert(s[p] == seq![marker][0]);
    let e = p + 1 + dec.len();
    assert(s[e] == crlf()[0]);
    assert(s[e + 1] == crlf()[1]);
    if v < 0 {
        let ds = nat_digits((-v) as nat);
        lemma_nat_digits((-v) as nat);
        lemma_at_split(s, p + 1, seq![45u8], ds);
        assert(s[p + 1] == seq![45u8][0]);
        lemma_digits_at(s, p + 2, ds);
    } else {
        let ds = nat_digits(v as nat);
        lemma_nat_digits(v as nat);
        assert(s[p + 1] == ds[0]);
        lemma_digits_at(s, p + 1, ds);
    }
}

proof fn lemma_encode_all_first(xs: Seq<DataView>, null: NullType)
    requires
        xs.len() > 0,
    ensures
        encode_all(xs, null) == encode(xs[0], null) + encode_all(xs.drop_first(), null),
    decreases xs.len(),
{
    if xs.len() > 1 {
        lemma_encode_all_first(xs.drop_last(), null);
        assert(xs.drop_last().drop_first() =~= xs.drop_first().drop_last());
        assert(xs.drop_first().last() == xs.last());
    } else {
        assert(xs.drop_last() =~= Seq::<DataView>::empty());
        assert(xs.drop_first() =~= Seq::<DataView>::empty());
    }
}

/// The encoding of a value, found at `p`, reads back as that value.
pub proof fn lemma_frame_at(s: Seq<u8>, p: int, d: DataView, depth: nat, null: NullType)
    requires
        at(s, p, encode(d, null)),
        well_formed(d, depth),
    ensures
        frame(s, p, depth) == Parsed::Done(d, p + encode(d, null).len()),
    decreases d,
{
    let e = encode(d, null);
    match d {
        DataView::Simple(t) => {
            lemma_text_at(s, p, 43, t);
            assert(s[p] == e[0]);
        },
        DataView::Int(v) => {
            lemma_number_at(s, p, 58, v as int);
            assert(s[p] == e[0]);
        },
        DataView::Null => {
            assert(s[p] == e[0]);
            let h = seq![s[p]] + decimal(-1) + crlf();
            assert(decimal(-1) =~= seq![45u8, 49u8]);
            assert(h =~= e);
            lemma_number_at(s, p, s[p], -1);
        },
        DataView::Bulk(b) => {
            let h = seq![36u8] + decimal(b.len() as int) + crlf();
            assert(e =~= h + (b + crlf()));
            lemma_at_split(s, p, h, b + crlf());
            lemma_at_split(s, p + h.len(), b, crlf());
            lemma_number_at(s, p, 36, b.len() as int);
            assert(s[p] == e[0]);
            let q = p + h.len();
            assert(s[q + b.len()] == crlf()[0]);
            assert(s[q + b.len() + 1] == crlf()[1]);
            lemma_at_subrange(s, q, b);
        },
        DataView::Arr(xs) => {
            let h = seq![42u8] + decimal(xs.len() as int) + crlf();
            assert(e =~= h + encode_all(xs, null));
            lemma_at_split(s, p, h, encode_all(xs, null));
            lemma_number_at(s, p, 42, xs.len() as int);
            assert(s[p] == e[0]);
            lemma_children_at(s, p + h.len(), xs, (depth - 1) as nat, null);
        },
    }
}

proof fn lemma_children_at(s: Seq<u8>, p: int, xs: Seq<DataView>, depth: nat, null: NullType)
    requires
        at(s, p, encode_all(xs, null)),
        forall|i: int| 0 <= i < xs.len() ==> well_formed(#[trigger] xs[i], depth),
    ensures
        children(s, p, xs.len(), depth) == Parsed::Done(xs, p + encode_all(xs, null).len()),
    decreases xs,
{
    if xs.len() == 0 {
        assert(xs =~= Seq::<DataView>::empty());
    } else {
        lemma_encode_all_first(xs, null);
        let first = encode(xs[0], null);
        let tail = xs.drop_first();
        lemma_at_split(s, p, first, encode_all(tail, null));
        assert(decreases_to!(xs => xs[0]));
        lemma_frame_at(s, p, xs[0], depth, null);
        assert forall|i: int| 0 <= i < tail.len() implies well_formed(#[trigger] tail[i], depth) by {
            assert(tail[i] == xs[i + 1]);
        }
        lemma_children_at(s, p + first.len(), tail, depth, null);
        assert(seq![xs[0]] + tail =~= xs);
    }
}

/// Writing a value and reading it back gives the value and consumes exactly what was
/// written, whichever encoding of null is chosen.
pub proof fn lemma_round_trip(d: DataView, null: NullType)
    requires
        well_formed(d, MAX_DEPTH as nat),
    ensures
        frame(encode(d, null), 0, MAX_DEPTH as nat) == Parsed::Done(d, encode(d, null).len() as int),
{
    let s = encode(d, null);
    assert(at(s, 0, s));
    lemma_frame_at(s, 0, d, MAX_DEPTH as nat, null);
}

/// A null reads back as null from either of its encodings, `$-1\r\n` and `*-1\r\n`; written
/// with the default options, null is always the null bulk string.
pub proof fn lemma_null_encodings(s: Seq<u8>, p: int, null: NullType)
    requires
        at(s, p, null_bytes(null)),
    ensures
        frame(s, p, MAX_DEPTH as nat) == Parsed::Done(DataView::Null, p + 5),
        encode(DataView::Null, NullType::BulkString) == seq![36u8, 45u8, 49u8, 13u8, 10u8],
{
    lemma_frame_at(s, p, DataView::Null, MAX_DEPTH as nat, null);
}

/// An error line from the server, `-` text CR LF, is read as that server error and consumed
/// whole, so that reading goes on after it.
pub proof fn lemma_server_error_line(s: Seq<u8>, p: int, t: Seq<char>)
    requires
        at(s, p, seq![45u8] + encode_utf8(t) + crlf()),
        forall|i: int| 0 <= i < encode_utf8(t).len() ==> !is_line_break(#[trigger] encode_utf8(t)[i]),
    ensures
        frame(s, p, MAX_DEPTH as nat) == Parsed::<DataView>::Server(t, p + 1 + encode_utf8(t).len() + 2),
{
    lemma_text_at(s, p, 45, t);
    assert(s[p] == (seq![45u8] + encode_utf8(t) + crlf())[0]);
}

/// A simple string or error line whose CR is not followed by LF is malformed: reading
/// fails at the start of the line.
pub proof fn lemma_broken_line(s: Seq<u8>, p: int, marker: u8, body: Seq<u8>, b: u8, depth: nat)
    requires
        marker == 43 || marker == 45,
        b != 10,
        at(s, p, seq![marker] + body + seq![13u8, b]),
        forall|i: int| 0 <= i < body.len() ==> !is_line_break(#[trigger] body[i]),
    ensures
        frame(s, p, depth) == Parsed::<DataView>::Invalid(p),
{
    let e = seq![marker] + body + seq![13u8, b];
    assert(e =~= seq![marker] + (body + seq![13u8, b]));
    lemma_at_split(s, p, seq![marker], body + seq![13u8, b]);
    lemma_at_split(s, p + 1, body, seq![13u8, b]);
    assert(s[p] == seq![marker][0]);
    let j = p + 1 + body.len();
    assert(s[j] == seq![13u8, b][0]);
    assert(s[j + 1] == seq![13u8, b][1]);
    assert forall|k: int| p + 1 <= k < j implies !is_line_break(#[trigger] s[k]) by {
        assert(s[p + 1 + (k - p - 1)] == body[k - p - 1]);
    }
    lemma_line_end_at(s, p + 1, j);
}

/// Whether `s`, from `p` to its end, is a beginning of `e` that stops before `e` does.
pub open spec fn cut_of(s: Seq<u8>, p: int, e: Seq<u8>) -> bool {
    0 <= p <= s.len() && s.len() - p < e.len() && forall|i: int|
        0 <= i < s.len() - p ==> s[p + i] == #[trigger] e[i]
}

proof fn lemma_cut_split(s: Seq<u8>, p: int, a: Seq<u8>, b: Seq<u8>)
    requires
        cut_of(s, p, a + b),
    ensures
        s.len() - p < a.len() ==> cut_of(s, p, a),
        s.len() - p >= a.len() ==> at(s, p, a) && cut_of(s, p + a.len(), b),
{
    if s.len() - p < a.len() {
        assert forall|i: int| 0 <= i < s.len() - p implies s[p + i] == #[trigger] a[i] by {
            assert((a + b)[i] == a[i]);
        }
    } else {
        assert forall|i: int| 0 <= i < a.len() implies s[p + i] == #[trigger] a[i] by {
            assert((a + b)[i] == a[i]);
        }
        assert forall|i: int| 0 <= i < s.len() - (p + a.len()) implies s[p + a.len() + i]
            == #[trigger] b[i] by {
            assert((a + b)[a.len() + i] == b[i]);
        }
    }
}

proof fn lemma_line_end_none(s: Seq<u8>, i: int)
    requires
        0 <= i,
        forall|k: int| i <= k < s.len() ==> !is_line_break(#[trigger] s[k]),
    ensures
        line_end(s, i) is None,
    decreases s.len() - i,
{
    if i < s.len() {
        lemma_line_end_none(s, i + 1);
    }
}

proof fn lemma_digits_to_end(s: Seq<u8>, k: int)
    requires
        0 <= k <= s.len(),
        forall|j: int| k <= j < s.len() ==> is_digit(#[trigger] s[j]),
    ensures
        digits_end(s, k) == s.len(),
    decreases s.len() - k,
{
    if k < s.len() {
        lemma_digits_to_end(s, k + 1);
    }
}

/// A line cut short before its LF is incomplete.
proof fn lemma_text_cut(s: Seq<u8>, p: int, marker: u8, body: Seq<u8>)
    requires
        p < s.len(),
        cut_of(s, p, seq![marker] + body + crlf()),
        forall|i: int| 0 <= i < body.len() ==> !is_line_break(#[trigger] body[i]),
    ensures
        s[p] == marker,
        marked_text(s, p, marker) is Incomplete,
{
    let e = seq![marker] + body + crlf();
    assert(s[p + 0] == e[0]);
    let c = s.len() - p;
    if c <= body.len() + 1 {
        assert forall|k: int| p + 1 <= k < s.len() implies !is_line_break(#[trigger] s[k]) by {
            assert(s[p + (k - p)] == e[k - p]);
            assert(e[k - p] == body[k - p - 1]);
        }
        lemma_line_end_none(s, p + 1);
    } else {
        let j = p + 1 + body.len();
        assert forall|k: int| p + 1 <= k < j implies !is_line_break(#[trigger] s[k]) by {
            assert(s[p + (k - p)] == e[k - p]);
            assert(e[k - p] == body[k - p - 1]);
        }
        assert(s[p + (j - p)] == e[j - p]);
        lemma_line_end_at(s, p + 1, j);
    }
}

/// A number line cut short before its LF is incomplete.
proof fn lemma_number_cut(s: Seq<u8>, p: int, marker: u8, v: int)
    requires
        p < s.len(),
        i64::MIN <= v <= i64::MAX,
        cut_of(s, p, seq![marker] + decimal(v) + crlf()),
    ensures
        s[p] == marker,
        marked_number(s, p, marker) is Incomplete,
{
    let dec = decimal(v);
    let e = seq![marker] + dec + crlf();
    assert(s[p + 0] == e[0]);
    let c = s.len() - p;
    if c > 1 {
        let neg = v < 0;
        let ds = if neg { nat_digits((-v) as nat) } else { nat_digits(v as nat) };
        lemma_nat_digits(if neg { (-v) as nat } else { v as nat });
        let k = if neg { p + 2 } else { p + 1 };
        assert(s[p + 1] == e[1]);
        if neg {
            assert(e[1] == 45);
        } else {
            assert(e[1] == ds[0]);
        }
        assert(dec.len() == ds.len() + (k - p - 1));
        assert forall|i: int| 0 <= i < ds.len() implies dec[(k - p - 1) + i] == #[trigger] ds[i] by {
            if neg {
                assert(dec == seq![45u8] + ds);
            }
        }
        if c <= dec.len() + 1 {
            assert forall|j: int| k <= j < s.len() implies is_digit(#[trigger] s[j]) by {
                assert(s[p + (j - p)] == e[j - p]);
                assert(e[j - p] == dec[j - p - 1]);
                assert(dec[(k - p - 1) + (j - k)] == ds[j - k]);
            }
            lemma_digits_to_end(s, k);
        } else {
            assert forall|i: int| 0 <= i < ds.len() implies s[k + i] == #[trigger] ds[i] by {
                assert(s[p + (k - p + i)] == e[k - p + i]);
                assert(e[k - p + i] == dec[k - p - 1 + i]);
            }
            let end = k + ds.len();
            assert(s[p + (end - p)] == e[end - p]);
            assert(e[end - p] == crlf()[0]);
            lemma_digits_at(s, k, ds);
        }
    }
}

/// A beginning of the encoding of a value that stops before its end reads as incomplete.
pub proof fn lemma_frame_cut(s: Seq<u8>, p: int, d: DataView, depth: nat, null: NullType)
    requires
        cut_of(s, p, encode(d, null)),
        well_formed(d, depth),
    ensures
        frame(s, p, depth) is Incomplete,
    decreases d,
{
    if p < s.len() {
        match d {
            DataView::Simple(t) => {
                lemma_text_cut(s, p, 43, encode_utf8(t));
            },
            DataView::Int(v) => {
                lemma_number_cut(s, p, 58, v as int);
            },
            DataView::Null => {
                let m = null_bytes(null)[0];
                assert(decimal(-1) =~= seq![45u8, 49u8]);
                assert(seq![m] + decimal(-1) + crlf() =~= null_bytes(null));
                lemma_number_cut(s, p, m, -1);
            },
            DataView::Bulk(b) => {
                let h = seq![36u8] + decimal(b.len() as int) + crlf();
                assert(encode(d, null) =~= h + (b + crlf()));
                lemma_cut_split(s, p, h, b + crlf());
                if s.len() - p < h.len() {
                    lemma_number_cut(s, p, 36, b.len() as int);
                } else {
                    lemma_number_at(s, p, 36, b.len() as int);
                    assert(s[p] == h[0]);
                }
            },
            DataView::Arr(xs) => {
                let h = seq![42u8] + decimal(xs.len() as int) + crlf();
                assert(encode(d, null) =~= h + encode_all(xs, null));
                lemma_cut_split(s, p, h, encode_all(xs, null));
                if s.len() - p < h.len() {
                    lemma_number_cut(s, p, 42, xs.len() as int);
                } else {
                    lemma_number_at(s, p, 42, xs.len() as int);
                    assert(s[p] == h[0]);
                    lemma_children_cut(s, p + h.len(), xs, (depth - 1) as nat, null);
                }
            },
        }
    }
}

proof fn lemma_children_cut(s: Seq<u8>, p: int, xs: Seq<DataView>, depth: nat, null: NullType)
    requires
        cut_of(s, p, encode_all(xs, null)),
        forall|i: int| 0 <= i < xs.len() ==> well_formed(#[trigger] xs[i], depth),
    ensures
        children(s, p, xs.len(), depth) is Incomplete,
    decreases xs,
{
    if xs.len() > 0 {
        lemma_encode_all_first(xs, null);
        let first = encode(xs[0], null);
        let tail = xs.drop_first();
        lemma_cut_split(s, p, first, encode_all(tail, null));
        assert(decreases_to!(xs => xs[0]));
        if s.len() - p < first.len() {
            lemma_frame_cut(s, p, xs[0], depth, null);
        } else {
            lemma_frame_at(s, p, xs[0], depth, null);
            assert forall|i: int| 0 <= i < tail.len() implies well_formed(#[trigger] tail[i], depth) by {
                assert(tail[i] == xs[i + 1]);
            }
            lemma_children_cut(s, p + first.len(), tail, depth, null);
            assert(tail.len() == xs.len() - 1);
        }
    } else {
        assert(encode_all(xs, null).len() == 0);
    }
}

/// What the decoder yields from a buffer when asked again and again until it has nothing to
/// give, as `Codec::decode` does: the frames in order, and the bytes it keeps.
pub open spec fn drain(buf: Seq<u8>) -> (Seq<DataView>, Seq<u8>)
    decreases buf.len(),
{
    match frame(buf, 0, MAX_DEPTH as nat) {
        Parsed::Done(d, n) => if 0 < n <= buf.len() {
            let (ds, rest) = drain(buf.subrange(n, buf.len() as int));
            (seq![d] + ds, rest)
        } else {
            (Seq::empty(), buf)
        },
        _ => (Seq::empty(), buf),
    }
}

/// The bytes of a sequence of chunks, one after the other.
pub open spec fn concat(chunks: Seq<Seq<u8>>) -> Seq<u8>
    decreases chunks.len(),
{
    if chunks.len() == 0 {
        Seq::empty()
    } else {
        concat(chunks.drop_last()) + chunks.last()
    }
}

/// What the decoder yields when the chunks arrive one after the other, each appended to the
/// bytes it kept and then drained: the frames in order, and the bytes it keeps at the end.
pub open spec fn feed(chunks: Seq<Seq<u8>>) -> (Seq<DataView>, Seq<u8>)
    decreases chunks.len(),
{
    if chunks.len() == 0 {
        (Seq::empty(), Seq::empty())
    } else {
        let (ds, kept) = feed(chunks.drop_last());
        let (more, rest) = drain(kept + chunks.last());
        (ds + more, rest)
    }
}

/// The length of the encodings of the first `m` values.
pub open spec fn prefix_len(ds: Seq<DataView>, m: int, null: NullType) -> int {
    encode_all(ds.take(m), null).len() as int
}

/// The number of values, counted on from `m`, whose encodings fit in the first `c` bytes.
pub open spec fn fitted(ds: Seq<DataView>, m: int, c: int, null: NullType) -> int
    decreases ds.len() - m,
{
    if 0 <= m < ds.len() && prefix_len(ds, m + 1, null) <= c {
        fitted(ds, m + 1, c, null)
    } else {
        m
    }
}

proof fn lemma_encode_all_append(a: Seq<DataView>, b: Seq<DataView>, null: NullType)
    ensures
        encode_all(a + b, null) == encode_all(a, null) + encode_all(b, null),
    decreases b.len(),
{
    if b.len() == 0 {
        assert(a + b =~= a);
        assert(encode_all(a, null) + encode_all(b, null) =~= encode_all(a, null));
    } else {
        lemma_encode_all_append(a, b.drop_last(), null);
        assert((a + b).drop_last() =~= a + b.drop_last());
        assert((a + b).last() == b.last());
        assert(encode_all(a + b, null) =~= encode_all(a, null) + encode_all(b, null));
    }
}

proof fn lemma_prefix_step(ds: Seq<DataView>, m: int, null: NullType)
    requires
        0 <= m < ds.len(),
    ensures
        encode_all(ds.take(m + 1), null) == encode_all(ds.take(m), null) + encode(ds[m], null),
        prefix_len(ds, m + 1, null) == prefix_len(ds, m, null) + encode(ds[m], null).len(),
        prefix_len(ds, m + 1, null) <= encode_all(ds, null).len(),
        encode_all(ds, null).subrange(prefix_len(ds, m, null), prefix_len(ds, m + 1, null))
            == encode(ds[m], null),
{
    assert(ds.take(m + 1).drop_last() =~= ds.take(m));
    lemma_encode_all_append(ds.take(m + 1), ds.subrange(m + 1, ds.len() as int), null);
    assert(ds.take(m + 1) + ds.subrange(m + 1, ds.len() as int) =~= ds);
    let e = encode_all(ds, null);
    let a = encode_all(ds.take(m), null);
    let x = encode(ds[m], null);
    assert(e =~= a + x + encode_all(ds.subrange(m + 1, ds.len() as int), null));
    assert(e.subrange(a.len() as int, (a.len() + x.len()) as int) =~= x);
}

proof fn lemma_prefix_bounds(ds: Seq<DataView>, m: int, null: NullType)
    requires
        0 <= m <= ds.len(),
    ensures
        0 <= prefix_len(ds, m, null) <= encode_all(ds, null).len(),
        m == ds.len() ==> prefix_len(ds, m, null) == encode_all(ds, null).len(),
{
    lemma_encode_all_append(ds.take(m), ds.subrange(m, ds.len() as int), null);
    assert(ds.take(m) + ds.subrange(m, ds.len() as int) =~= ds);
    if m == ds.len() {
        assert(ds.take(m) =~= ds);
    }
}

proof fn lemma_fitted_bounds(ds: Seq<DataView>, m: int, c: int, null: NullType)
    requires
        0 <= m <= ds.len(),
        prefix_len(ds, m, null) <= c,
    ensures
        m <= fitted(ds, m, c, null) <= ds.len(),
        prefix_len(ds, fitted(ds, m, c, null), null) <= c,
        fitted(ds, m, c, null) < ds.len() ==> c < prefix_len(ds, fitted(ds, m, c, null) + 1, null),
    decreases ds.len() - m,
{
    if m < ds.len() && prefix_len(ds, m + 1, null) <= c {
        lemma_fitted_bounds(ds, m + 1, c, null);
    }
}

proof fn lemma_fitted_later(ds: Seq<DataView>, m: int, c: int, c2: int, null: NullType)
    requires
        0 <= m <= ds.len(),
        prefix_len(ds, m, null) <= c <= c2,
    ensures
        fitted(ds, m, c2, null) == fitted(ds, fitted(ds, m, c, null), c2, null),
    decreases ds.len() - m,
{
    if m < ds.len() && prefix_len(ds, m + 1, null) <= c {
        lemma_fitted_later(ds, m + 1, c, c2, null);
    }
}

/// The buffer that holds the encodings from the `m`-th value on, cut after `c` bytes of the
/// whole, starts with the encoding of the `m`-th value where that fits, and with a beginning
/// of it otherwise.
proof fn lemma_drain_head(ds: Seq<DataView>, m: int, c: int, null: NullType)
    requires
        0 <= m < ds.len(),
        prefix_len(ds, m, null) <= c <= encode_all(ds, null).len(),
    ensures
        prefix_len(ds, m + 1, null) <= c ==> at(
            encode_all(ds, null).subrange(prefix_len(ds, m, null), c),
            0,
            encode(ds[m], null),
        ),
        c < prefix_len(ds, m + 1, null) ==> cut_of(
            encode_all(ds, null).subrange(prefix_len(ds, m, null), c),
            0,
            encode(ds[m], null),
        ),
{
    let e = encode_all(ds, null);
    let pm = prefix_len(ds, m, null);
    let buf = e.subrange(pm, c);
    let x = encode(ds[m], null);
    lemma_prefix_step(ds, m, null);
    if prefix_len(ds, m + 1, null) <= c {
        assert forall|i: int| 0 <= i < x.len() implies buf[0 + i] == #[trigger] x[i] by {
            assert(e.subrange(pm, pm + x.len())[i] == x[i]);
        }
    } else {
        assert forall|i: int| 0 <= i < buf.len() implies buf[0 + i] == #[trigger] x[i] by {
            assert(e.subrange(pm, pm + x.len())[i] == x[i]);
        }
    }
}

/// Draining a buffer that holds the encodings from the `m`-th value on, cut after `c`
/// bytes of the whole, yields the values that fit whole and keeps the rest.
#[verifier::rlimit(40)]
proof fn lemma_drain(ds: Seq<DataView>, m: int, c: int, null: NullType)
    requires
        0 <= m <= ds.len(),
        forall|i: int| 0 <= i < ds.len() ==> well_formed(#[trigger] ds[i], MAX_DEPTH as nat),
        prefix_len(ds, m, null) <= c <= encode_all(ds, null).len(),
    ensures
        drain(encode_all(ds, null).subrange(prefix_len(ds, m, null), c)) == (
            ds.subrange(m, fitted(ds, m, c, null)),
            encode_all(ds, null).subrange(prefix_len(ds, fitted(ds, m, c, null), null), c),
        ),
    decreases ds.len() - m,
{
    let e = encode_all(ds, null);
    let buf = e.subrange(prefix_len(ds, m, null), c);
    if m < ds.len() {
        lemma_prefix_step(ds, m, null);
        lemma_drain_head(ds, m, c, null);
        let x = encode(ds[m], null);
        if prefix_len(ds, m + 1, null) <= c {
            lemma_frame_at(buf, 0, ds[m], MAX_DEPTH as nat, null);
            lemma_drain(ds, m + 1, c, null);
            assert(buf.subrange(x.len() as int, buf.len() as int) =~= e.subrange(
                prefix_len(ds, m + 1, null),
                c,
            ));
            lemma_fitted_bounds(ds, m + 1, c, null);
            assert(seq![ds[m]] + ds.subrange(m + 1, fitted(ds, m + 1, c, null)) =~= ds.subrange(
                m,
                fitted(ds, m, c, null),
            ));
        } else {
            lemma_frame_cut(buf, 0, ds[m], MAX_DEPTH as nat, null);
            assert(ds.subrange(m, m) =~= Seq::<DataView>::empty());
        }
    } else {
        lemma_prefix_bounds(ds, m, null);
        assert(buf.len() == 0);
        assert(ds.subrange(m, m) =~= Seq::<DataView>::empty());
    }
}

proof fn lemma_encode_nonempty(d: DataView, null: NullType)
    ensures
        encode(d, null).len() > 0,
{
    match d {
        DataView::Null => {},
        _ => {},
    }
}

proof fn lemma_concat_take(chunks: Seq<Seq<u8>>, k: int)
    requires
        0 <= k < chunks.len(),
    ensures
        concat(chunks.take(k + 1)) == concat(chunks.take(k)) + chunks[k],
{
    assert(chunks.take(k + 1).drop_last() =~= chunks.take(k));
}

proof fn lemma_concat_prefix(chunks: Seq<Seq<u8>>, k: int)
    requires
        0 <= k <= chunks.len(),
    ensures
        concat(chunks.take(k)).len() <= concat(chunks).len(),
        concat(chunks).subrange(0, concat(chunks.take(k)).len() as int) == concat(chunks.take(k)),
    decreases chunks.len() - k,
{
    if k == chunks.len() {
        assert(chunks.take(k) =~= chunks);
        assert(concat(chunks).subrange(0, concat(chunks).len() as int) =~= concat(chunks));
    } else {
        lemma_concat_prefix(chunks, k + 1);
        lemma_concat_take(chunks, k);
        let a = concat(chunks.take(k));
        let b = concat(chunks.take(k + 1));
        assert(concat(chunks).subrange(0, a.len() as int) =~= b.subrange(0, a.len() as int));
        assert(b.subrange(0, a.len() as int) =~= a);
    }
}

#[verifier::rlimit(40)]
proof fn lemma_feed(ds: Seq<DataView>, chunks: Seq<Seq<u8>>, k: int, null: NullType)
    requires
        0 <= k <= chunks.len(),
        forall|i: int| 0 <= i < ds.len() ==> well_formed(#[trigger] ds[i], MAX_DEPTH as nat),
        concat(chunks) == encode_all(ds, null),
    ensures
        ({
            let c = concat(chunks.take(k)).len() as int;
            let f = fitted(ds, 0, c, null);
            feed(chunks.take(k)) == (ds.take(f), encode_all(ds, null).subrange(prefix_len(ds, f, null), c))
        }),
    decreases k,
{
    let e = encode_all(ds, null);
    assert(prefix_len(ds, 0, null) == 0) by {
        assert(ds.take(0) =~= Seq::<DataView>::empty());
    }
    lemma_concat_prefix(chunks, k);
    if k == 0 {
        assert(chunks.take(0) =~= Seq::<Seq<u8>>::empty());
        assert(ds.take(0) =~= Seq::<DataView>::empty());
        assert(e.subrange(0, 0) =~= Seq::<u8>::empty());
        assert(concat(chunks.take(0)).len() == 0);
        if ds.len() > 0 {
            lemma_prefix_step(ds, 0, null);
            lemma_encode_nonempty(ds[0], null);
        }
        assert(fitted(ds, 0, 0, null) == 0);
    } else {
        lemma_feed(ds, chunks, k - 1, null);
        lemma_concat_take(chunks, k - 1);
        lemma_concat_prefix(chunks, k - 1);
        assert(chunks.take(k).drop_last() =~= chunks.take(k - 1));
        assert(chunks.take(k).last() == chunks[k - 1]);
        let c0 = concat(chunks.take(k - 1)).len() as int;
        let c1 = concat(chunks.take(k)).len() as int;
        let f0 = fitted(ds, 0, c0, null);
        lemma_fitted_bounds(ds, 0, c0, null);
        let kept = e.subrange(prefix_len(ds, f0, null), c0);
        assert(kept + chunks[k - 1] =~= e.subrange(prefix_len(ds, f0, null), c1)) by {
            assert(concat(chunks.take(k)) =~= concat(chunks.take(k - 1)) + chunks[k - 1]);
            assert(e.subrange(0, c1) == concat(chunks.take(k)));
            assert forall|i: int| 0 <= i < chunks[k - 1].len() implies e[c0 + i]
                == #[trigger] chunks[k - 1][i] by {
                assert(e.subrange(0, c1)[c0 + i] == concat(chunks.take(k))[c0 + i]);
            }
        }
        lemma_drain(ds, f0, c1, null);
        lemma_fitted_later(ds, 0, c0, c1, null);
        lemma_fitted_bounds(ds, f0, c1, null);
        assert(ds.take(f0) + ds.subrange(f0, fitted(ds, f0, c1, null)) =~= ds.take(
            fitted(ds, 0, c1, null),
        ));
    }
}

/// Chunk invariance: however the encodings of a sequence of values are split into chunks,
/// feeding the chunks to the decoder one after the other yields exactly those values, in
/// order, and keeps no bytes.
pub proof fn lemma_chunk_invariance(ds: Seq<DataView>, chunks: Seq<Seq<u8>>, null: NullType)
    requires
        forall|i: int| 0 <= i < ds.len() ==> well_formed(#[trigger] ds[i], MAX_DEPTH as nat),
        concat(chunks) == encode_all(ds, null),
    ensures
        feed(chunks) == (ds, Seq::<u8>::empty()),
{
    lemma_feed(ds, chunks, chunks.len() as int, null);
    assert(chunks.take(chunks.len() as int) =~= chunks);
    let c = encode_all(ds, null).len() as int;
    assert(prefix_len(ds, 0, null) == 0) by {
        assert(ds.take(0) =~= Seq::<DataView>::empty());
    }
    lemma_fitted_bounds(ds, 0, c, null);
    let f = fitted(ds, 0, c, null);
    if f < ds.len() {
        lemma_prefix_step(ds, f, null);
    }
    lemma_prefix_bounds(ds, f, null);
    assert(ds.take(f) =~= ds);
    assert(encode_all(ds, null).subrange(c, c) =~= Seq::<u8>::empty());
}

/// Pipelining keeps order: replies written back to back are read back one by one, in the
/// order they were written, with nothing left over.
pub proof fn lemma_pipeline_order(ds: Seq<DataView>, null: NullType)
    requires
        forall|i: int| 0 <= i < ds.len() ==> well_formed(#[trigger] ds[i], MAX_DEPTH as nat),
    ensures
        drain(encode_all(ds, null)) == (ds, Seq::<u8>::empty()),
{
    let e = encode_all(ds, null);
    let c = e.len() as int;
    assert(prefix_len(ds, 0, null) == 0) by {
        assert(ds.take(0) =~= Seq::<DataView>::empty());
    }
    lemma_drain(ds, 0, c, null);
    assert(e.subrange(0, c) =~= e);
    lemma_fitted_bounds(ds, 0, c, null);
    let f = fitted(ds, 0, c, null);
    if f < ds.len() {
        lemma_prefix_step(ds, f, null);
    }
    lemma_prefix_bounds(ds, f, null);
    assert(ds.subrange(0, f) =~= ds);
    assert(e.subrange(c, c) =~= Seq::<u8>::empty());
}

/// Whether a decoder call ends with an error that is not transient, the kind that marks a
/// connection dead.
pub open spec fn fatal_outcome(r: Result<Option<Result<Data, Error>>, Error>) -> bool {
    match r {
        Err(e) => !(e is Redis),
        Ok(Some(Err(e))) => !(e is Redis),
        _ => false,
    }
}

/// A decoder call is fatal to the connection exactly when the bytes are malformed: a server
/// error line is transient, and so are incomplete bytes.
pub proof fn lemma_fatal_iff_malformed(
    r: Result<Option<Result<Data, Error>>, Error>,
    before: Seq<u8>,
    after: Seq<u8>,
)
    requires
        decode_outcome(r, before, after),
    ensures
        fatal_outcome(r) <==> frame(before, 0, MAX_DEPTH as nat) is Invalid,
{
}

proof fn lemma_dash_at(t: Seq<u8>, i: int, j: int)
    requires
        0 <= i <= j < t.len(),
        t[j] == 45,
        forall|k: int| i <= k < j ==> t[k] != 45,
    ensures
        dash_at(t, i) == Some(j),
    decreases j - i,
{
    if i < j {
        lemma_dash_at(t, i + 1, j);
    }
}

proof fn lemma_u64_text(n: u64)
    ensures
        u64_text(nat_digits(n as nat)) == Some(n),
{
    let d = nat_digits(n as nat);
    lemma_nat_digits(n as nat);
    lemma_digits_to_end(d, 0);
}

/// A stream ID written as text reads back as the same ID.
pub proof fn lemma_id_round_trip(ms: u64, seq: u64)
    ensures
        id_text(id_bytes(ms, seq)) == Some((ms, seq)),
{
    let a = nat_digits(ms as nat);
    let b = nat_digits(seq as nat);
    let t = id_bytes(ms, seq);
    lemma_nat_digits(ms as nat);
    lemma_nat_digits(seq as nat);
    assert forall|k: int| 0 <= k < a.len() implies t[k] != 45 by {
        assert(t[k] == a[k]);
    }
    assert(t[a.len() as int] == 45);
    lemma_dash_at(t, 0, a.len() as int);
    assert(t.subrange(0, a.len() as int) =~= a);
    assert(t.subrange(a.len() as int + 1, t.len() as int) =~= b);
    lemma_u64_text(ms);
    lemma_u64_text(seq);
}

/// `drain` is what repeated calls of `Codec::decode` do: a call that yields a frame yields
/// the first frame of the drain and leaves the rest of it; a call that yields nothing
/// leaves a buffer that drains to nothing.
pub proof fn lemma_decode_drains(
    r: Result<Option<Result<Data, Error>>, Error>,
    before: Seq<u8>,
    after: Seq<u8>,
)
    requires
        decode_outcome(r, before, after),
    ensures
        r matches Ok(Some(Ok(x))) ==> drain(before) == (seq![x@] + drain(after).0, drain(after).1),
        r matches Ok(None) ==> after == before && drain(before) == (Seq::<DataView>::empty(), before),
{
    lemma_frame_within(before, 0, MAX_DEPTH as nat);
}

/// One decoder call, as `Codec::decode` states it: its result, and the buffer before and
/// after it.
pub type DecodeResult = Result<Option<Result<Data, Error>>, Error>;

proof fn lemma_calls_in_order(
    ds: Seq<DataView>,
    bufs: Seq<Seq<u8>>,
    rs: Seq<DecodeResult>,
    null: NullType,
    k: int,
)
    requires
        forall|i: int| 0 <= i < ds.len() ==> well_formed(#[trigger] ds[i], MAX_DEPTH as nat),
        bufs.len() == ds.len() + 1,
        rs.len() == ds.len(),
        bufs[0] == encode_all(ds, null),
        forall|i: int| 0 <= i < ds.len() ==> decode_outcome(#[trigger] rs[i], bufs[i], bufs[i + 1]),
        0 <= k <= ds.len(),
    ensures
        bufs[k] == encode_all(ds.subrange(k, ds.len() as int), null),
        forall|i: int| 0 <= i < k ==> (#[trigger] rs[i] matches Ok(Some(Ok(x))) && x@ == ds[i]),
    decreases k,
{
    if k == 0 {
        assert(ds.subrange(0, ds.len() as int) =~= ds);
    } else {
        lemma_calls_in_order(ds, bufs, rs, null, k - 1);
        let rest = ds.subrange(k - 1, ds.len() as int);
        lemma_encode_all_first(rest, null);
        let first = encode(ds[k - 1], null);
        let b = bufs[k - 1];
        lemma_at_split(b, 0, first, encode_all(rest.drop_first(), null));
        lemma_frame_at(b, 0, ds[k - 1], MAX_DEPTH as nat, null);
        assert(rest.drop_first() =~= ds.subrange(k, ds.len() as int));
        assert(b.subrange(first.len() as int, b.len() as int) =~= encode_all(
            rest.drop_first(),
            null,
        ));
        assert(decode_outcome(rs[k - 1], bufs[k - 1], bufs[k]));
    }
}

/// Pipelining keeps order, call by call: when the buffer holds the encodings of replies
/// written back to back, the `i`-th of as many decoder calls yields the `i`-th reply, and
/// the buffer ends empty. No reply is skipped, doubled or moved.
pub proof fn lemma_decode_calls_in_order(
    ds: Seq<DataView>,
    bufs: Seq<Seq<u8>>,
    rs: Seq<DecodeResult>,
    null: NullType,
)
    requires
        forall|i: int| 0 <= i < ds.len() ==> well_formed(#[trigger] ds[i], MAX_DEPTH as nat),
        bufs.len() == ds.len() + 1,
        rs.len() == ds.len(),
        bufs[0] == encode_all(ds, null),
        forall|i: int| 0 <= i < ds.len() ==> decode_outcome(#[trigger] rs[i], bufs[i], bufs[i + 1]),
    ensures
        forall|i: int| 0 <= i < ds.len() ==> (#[trigger] rs[i] matches Ok(Some(Ok(x))) && x@ == ds[i]),
        bufs[ds.len() as int].len() == 0,
{
    lemma_calls_in_order(ds, bufs, rs, null, ds.len() as int);
    assert(ds.subrange(ds.len() as int, ds.len() as int) =~= Seq::<DataView>::empty());
}

/// A decoder call on a buffer that starts with a simple string or error line whose CR is
/// not followed by LF fails, and not with a server error: the connection is lost.
pub proof fn lemma_decode_broken_line(
    r: DecodeResult,
    before: Seq<u8>,
    after: Seq<u8>,
    marker: u8,
    body: Seq<u8>,
    b: u8,
)
    requires
        marker == 43 || marker == 45,
        b != 10,
        at(before, 0, seq![marker] + body + seq![13u8, b]),
        forall|i: int| 0 <= i < body.len() ==> !is_line_break(#[trigger] body[i]),
        decode_outcome(r, before, after),
    ensures
        r matches Err(e) && !(e is Redis),
        fatal_outcome(r),
{
    lemma_broken_line(before, 0, marker, body, b, MAX_DEPTH as nat);
}

/// A decoder call on a buffer that starts with a bulk string whose payload is followed by
/// two bytes other than CR LF fails, and not with a server error: the connection is lost.
pub proof fn lemma_decode_broken_bulk(
    r: DecodeResult,
    before: Seq<u8>,
    after: Seq<u8>,
    payload: Seq<u8>,
    b1: u8,
    b2: u8,
)
    requires
        !(b1 == 13 && b2 == 10),
        payload.len() <= i64::MAX,
        at(before, 0, seq![36u8] + decimal(payload.len() as int) + crlf() + payload + seq![b1, b2]),
        decode_outcome(r, before, after),
    ensures
        r matches Err(e) && !(e is Redis),
        fatal_outcome(r),
{
    let h = seq![36u8] + decimal(payload.len() as int) + crlf();
    let e = h + payload + seq![b1, b2];
    assert(e =~= h + (payload + seq![b1, b2]));
    lemma_at_split(before, 0, h, payload + seq![b1, b2]);
    lemma_at_split(before, h.len() as int, payload, seq![b1, b2]);
    lemma_number_at(before, 0, 36, payload.len() as int);
    assert(before[0] == h[0]);
    let q = h.len() as int;
    assert(before[q + payload.len()] == seq![b1, b2][0]);
    assert(before[q + payload.len() + 1] == seq![b1, b2][1]);
}

/// One step of feeding a decoder: a chunk appended to its buffer, or one decoder call.
pub enum FeedStep {
    Append(Seq<u8>),
    Decode(DecodeResult),
}

/// Whether `bufs` are the buffers before and after each of `steps`, starting empty: an
/// append adds its chunk, and a decoder call does what `Codec::decode` states.
pub open spec fn is_trace(steps: Seq<FeedStep>, bufs: Seq<Seq<u8>>) -> bool {
    &&& bufs.len() == steps.len() + 1
    &&& bufs[0].len() == 0
    &&& forall|t: int|
        0 <= t < steps.len() ==> match #[trigger] steps[t] {
            FeedStep::Append(c) => bufs[t + 1] == bufs[t] + c,
            FeedStep::Decode(r) => decode_outcome(r, bufs[t], bufs[t + 1]),
        }
}

/// The bytes appended by the first `t` steps.
pub open spec fn appended(steps: Seq<FeedStep>, t: int) -> Seq<u8>
    decreases t,
{
    if t <= 0 {
        Seq::empty()
    } else {
        appended(steps, t - 1) + match steps[t - 1] {
            FeedStep::Append(c) => c,
            FeedStep::Decode(_) => Seq::empty(),
        }
    }
}

/// The frames yielded by the decoder calls among the first `t` steps, in order.
pub open spec fn yielded(steps: Seq<FeedStep>, t: int) -> Seq<DataView>
    decreases t,
{
    if t <= 0 {
        Seq::empty()
    } else {
        yielded(steps, t - 1) + match steps[t - 1] {
            FeedStep::Decode(Ok(Some(Ok(x)))) => seq![x@],
            _ => Seq::empty(),
        }
    }
}

/// Whether no decoder call among the first `t` steps failed or yielded an error.
pub open spec fn no_errors(steps: Seq<FeedStep>, t: int) -> bool {
    forall|u: int|
        0 <= u < t ==> match #[trigger] steps[u] {
            FeedStep::Decode(r) => r matches Ok(None) || r matches Ok(Some(Ok(_))),
            FeedStep::Append(_) => true,
        }
}

proof fn lemma_appended_prefix(steps: Seq<FeedStep>, t: int, total: int)
    requires
        0 <= t <= total,
    ensures
        appended(steps, t).len() <= appended(steps, total).len(),
        appended(steps, total).subrange(0, appended(steps, t).len() as int) == appended(steps, t),
    decreases total - t,
{
    if t == total {
        assert(appended(steps, t).subrange(0, appended(steps, t).len() as int) =~= appended(
            steps,
            t,
        ));
    } else {
        lemma_appended_prefix(steps, t + 1, total);
        let a = appended(steps, t);
        let b = appended(steps, t + 1);
        assert(b.subrange(0, a.len() as int) =~= a);
        assert(appended(steps, total).subrange(0, a.len() as int) =~= b.subrange(
            0,
            a.len() as int,
        ));
    }
}

#[verifier::rlimit(60)]
proof fn lemma_trace(ds: Seq<DataView>, steps: Seq<FeedStep>, bufs: Seq<Seq<u8>>, null: NullType, t: int)
    requires
        forall|i: int| 0 <= i < ds.len() ==> well_formed(#[trigger] ds[i], MAX_DEPTH as nat),
        is_trace(steps, bufs),
        appended(steps, steps.len() as int) == encode_all(ds, null),
        0 <= t <= steps.len(),
    ensures
        ({
            let c = appended(steps, t).len() as int;
            let m = yielded(steps, t).len() as int;
            &&& m <= ds.len()
            &&& yielded(steps, t) == ds.take(m)
            &&& prefix_len(ds, m, null) <= c <= encode_all(ds, null).len()
            &&& bufs[t] == encode_all(ds, null).subrange(prefix_len(ds, m, null), c)
            &&& no_errors(steps, t)
        }),
    decreases t,
{
    let e = encode_all(ds, null);
    lemma_appended_prefix(steps, t, steps.len() as int);
    if t == 0 {
        assert(ds.take(0) =~= Seq::<DataView>::empty());
        assert(prefix_len(ds, 0, null) == 0);
        assert(bufs[0] =~= e.subrange(0, 0));
    } else {
        lemma_trace(ds, steps, bufs, null, t - 1);
        lemma_appended_prefix(steps, t - 1, steps.len() as int);
        let c = appended(steps, t - 1).len() as int;
        let m = yielded(steps, t - 1).len() as int;
        let pm = prefix_len(ds, m, null);
        let b = bufs[t - 1];
        assert(match steps[t - 1] {
            FeedStep::Append(ch) => bufs[t] == bufs[t - 1] + ch,
            FeedStep::Decode(r) => decode_outcome(r, bufs[t - 1], bufs[t]),
        });
        match steps[t - 1] {
            FeedStep::Append(ch) => {
                let c2 = appended(steps, t).len() as int;
                assert(appended(steps, t) == appended(steps, t - 1) + ch);
                assert(yielded(steps, t) == yielded(steps, t - 1) + Seq::<DataView>::empty());
                assert(yielded(steps, t) =~= yielded(steps, t - 1));
                assert forall|i: int| 0 <= i < ch.len() implies e[c + i] == #[trigger] ch[i] by {
                    assert(e.subrange(0, c2)[c + i] == appended(steps, t)[c + i]);
                }
                assert(bufs[t] =~= e.subrange(pm, c2));
            },
            FeedStep::Decode(r) => {
                assert(appended(steps, t) =~= appended(steps, t - 1));
                if m < ds.len() {
                    lemma_drain_head(ds, m, c, null);
                    lemma_prefix_step(ds, m, null);
                    if prefix_len(ds, m + 1, null) <= c {
                        lemma_frame_at(b, 0, ds[m], MAX_DEPTH as nat, null);
                        assert(bufs[t] =~= e.subrange(prefix_len(ds, m + 1, null), c));
                        assert(ds.take(m) + seq![ds[m]] =~= ds.take(m + 1));
                    } else {
                        lemma_frame_cut(b, 0, ds[m], MAX_DEPTH as nat, null);
                        assert(yielded(steps, t) =~= yielded(steps, t - 1));
                    }
                } else {
                    lemma_prefix_bounds(ds, m, null);
                    assert(b.len() == 0);
                    assert(yielded(steps, t) =~= yielded(steps, t - 1));
                }
            },
        }
    }
}

/// Chunk invariance, call by call: feed the encodings of a sequence of values to the
/// decoder in chunks of any sizes, calling it between appends as often as wanted, and
/// finish with a call that yields nothing. Then the calls yield exactly those values, in
/// order; none fails or yields an error; and the buffer ends empty.
pub proof fn lemma_decode_chunk_invariance(
    ds: Seq<DataView>,
    steps: Seq<FeedStep>,
    bufs: Seq<Seq<u8>>,
    null: NullType,
)
    requires
        forall|i: int| 0 <= i < ds.len() ==> well_formed(#[trigger] ds[i], MAX_DEPTH as nat),
        is_trace(steps, bufs),
        appended(steps, steps.len() as int) == encode_all(ds, null),
        steps.len() > 0,
        steps.last() matches FeedStep::Decode(Ok(None)),
    ensures
        yielded(steps, steps.len() as int) == ds,
        no_errors(steps, steps.len() as int),
        bufs.last().len() == 0,
{
    let n = steps.len() as int;
    lemma_trace(ds, steps, bufs, null, n - 1);
    lemma_trace(ds, steps, bufs, null, n);
    let m = yielded(steps, n - 1).len() as int;
    let c = appended(steps, n - 1).len() as int;
    assert(appended(steps, n) =~= appended(steps, n - 1));
    let e = encode_all(ds, null);
    assert(match steps[n - 1] {
        FeedStep::Append(ch) => bufs[n] == bufs[n - 1] + ch,
        FeedStep::Decode(r) => decode_outcome(r, bufs[n - 1], bufs[n]),
    });
    if m < ds.len() {
        lemma_prefix_step(ds, m, null);
        lemma_drain_head(ds, m, c, null);
        lemma_frame_at(bufs[n - 1], 0, ds[m], MAX_DEPTH as nat, null);
    }
    assert(yielded(steps, n) =~= yielded(steps, n - 1));
    lemma_prefix_bounds(ds, m, null);
    assert(ds.take(m) =~= ds);
}

} // verus!
