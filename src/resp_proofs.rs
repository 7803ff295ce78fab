//! What the grammar says of serialized messages: a well-formed message reads
//! back as itself, and every strict prefix of its bytes reads as incomplete.

use vstd::prelude::*;
use vstd::utf8::*;

use crate::decimal::{all_digits, digits_value, i64_of, int_text, is_digit, lemma_int_text_round_trip, nat_text};
use crate::resp::{
    crlf_at, find_crlf, frame_at, items_at, ser, ser_items, Frame, Frames, Msg,
    MAX_ARRAY_SIZE, MAX_BULK_STRING_SIZE,
};

verus! {

broadcast use {encode_utf8_valid_utf8, encode_utf8_decode_utf8};

/// Whether `b` holds no `\r\n`.
pub open spec fn no_crlf(b: Seq<u8>) -> bool {
    forall|i: int| 0 <= i < b.len() - 1 ==> !(b[i] == 13u8 && #[trigger] b[i + 1] == 10u8)
}

/// Whether a message can be sent and read back: its texts hold no `\r\n`,
/// its integer fits in 64 bits and its sizes are within the guards.
pub open spec fn well_formed(m: Msg) -> bool
    decreases m,
{
    match m {
        Msg::Simple(t) => no_crlf(encode_utf8(t)),
        Msg::Fault(t) => no_crlf(encode_utf8(t)),
        Msg::Int(i) => i64::MIN <= i <= i64::MAX,
        Msg::Bulk(None) => true,
        Msg::Bulk(Some(d)) => d.len() <= MAX_BULK_STRING_SIZE,
        Msg::Arr(None) => true,
        Msg::Arr(Some(xs)) => xs.len() <= MAX_ARRAY_SIZE && forall|i: int|
            0 <= i < xs.len() ==> well_formed(#[trigger] xs[i]),
    }
}

proof fn lemma_find_crlf_at(s: Seq<u8>, from: int, j: int)
    requires
        0 <= from <= j,
        crlf_at(s, j),
        forall|k: int| from <= k < j ==> !crlf_at(s, k),
    ensures
        find_crlf(s, from) == Some(j),
    decreases j - from,
{
    if from < j {
        lemma_find_crlf_at(s, from + 1, j);
    }
}

proof fn lemma_find_crlf_none(s: Seq<u8>, from: int)
    requires
        0 <= from,
        forall|k: int| from <= k < s.len() - 1 ==> !crlf_at(s, k),
    ensures
        find_crlf(s, from) is None,
    decreases s.len() - from,
{
    if from + 1 < s.len() {
        lemma_find_crlf_none(s, from + 1);
    }
}

proof fn lemma_ser_items_front(xs: Seq<Msg>)
    requires
        xs.len() > 0,
    ensures
        ser_items(xs) == ser(xs[0]) + ser_items(xs.drop_first()),
    decreases xs.len(),
{
    if xs.len() == 1 {
        assert(xs.drop_last().len() == 0);
        assert(xs.drop_first().len() == 0);
        assert(ser_items(xs.drop_last()) =~= Seq::<u8>::empty());
        assert(ser_items(xs.drop_first()) =~= Seq::<u8>::empty());
        assert(ser(xs[0]) + Seq::<u8>::empty() =~= ser(xs[0]));
        assert(Seq::<u8>::empty() + ser(xs[0]) =~= ser(xs[0]));
    } else {
        let init = xs.drop_last();
        lemma_ser_items_front(init);
        assert(init.drop_first() =~= xs.drop_first().drop_last());
        assert(xs.drop_first().last() == xs.last());
        assert(ser_items(xs) =~= ser(xs[0]) + ser_items(xs.drop_first()));
    }
}

proof fn lemma_ser_nonempty(m: Msg)
    ensures
        ser(m).len() >= 1,
{
}

proof fn lemma_minus_one()
    ensures
        i64_of(seq![45u8, 49u8]) == Some(-1int),
{
    let d = seq![45u8, 49u8].drop_first();
    assert(d =~= seq![49u8]);
    assert(d.drop_last() =~= Seq::<u8>::empty());
    assert(digits_value(d.drop_last()) == 0);
    assert(d.last() == 49u8);
    assert(digits_value(d) == 1);
    assert(is_digit(d[0]));
    assert(all_digits(d));
}

/// A text line `tag text \r\n` at `p`: the first `\r\n` after the tag ends it.
proof fn lemma_line(s: Seq<u8>, p: int, t: Seq<u8>)
    requires
        0 <= p,
        p + 1 + t.len() + 2 <= s.len(),
        no_crlf(t),
        s.subrange(p + 1, p + 1 + t.len()) == t,
        s[p + 1 + t.len()] == 13u8,
        s[p + 2 + t.len()] == 10u8,
    ensures
        find_crlf(s, p + 1) == Some(p + 1 + t.len()),
{
    assert forall|k: int| p + 1 <= k < p + 1 + t.len() implies !crlf_at(s, k) by {
        let i = k - p - 1;
        assert(s.subrange(p + 1, p + 1 + t.len())[i] == s[p + 1 + i]);
        assert(s[k] == t[i]);
        if i + 1 < t.len() {
            assert(s.subrange(p + 1, p + 1 + t.len())[i + 1] == s[p + 2 + i]);
            assert(s[k + 1] == t[i + 1]);
            assert(!(t[i] == 13u8 && t[i + 1] == 10u8));
        } else {
            assert(s[k + 1] == 13u8);
        }
    }
    lemma_find_crlf_at(s, p + 1, p + 1 + t.len());
}

/// A strict prefix of a text line at `p` holds no `\r\n` after the tag.
proof fn lemma_line_prefix(s: Seq<u8>, p: int, t: Seq<u8>)
    requires
        0 <= p < s.len(),
        s.len() <= p + 2 + t.len(),
        no_crlf(t),
        forall|k: int| p + 1 <= k < s.len() && k < p + 1 + t.len() ==> s[k] == t[k - p - 1],
        p + 1 + t.len() < s.len() ==> s[p + 1 + t.len()] == 13u8,
    ensures
        find_crlf(s, p + 1) is None,
{
    assert forall|k: int| p + 1 <= k < s.len() - 1 implies !crlf_at(s, k) by {
        let i = k - p - 1;
        if k < p + 1 + t.len() {
            assert(s[k] == t[i]);
            if i + 1 < t.len() {
                assert(s[k + 1] == t[i + 1]);
                assert(!(t[i] == 13u8 && t[i + 1] == 10u8));
            } else {
                assert(s[k + 1] == 13u8);
            }
        } else {
            assert(k + 1 >= s.len());
        }
    }
    lemma_find_crlf_none(s, p + 1);
}

proof fn lemma_digits_no_crlf(i: int)
    requires
        i64::MIN <= i <= i64::MAX,
    ensures
        no_crlf(int_text(i)),
{
    lemma_int_text_round_trip(i);
    let t = int_text(i);
    assert forall|k: int| 0 <= k < t.len() - 1 implies !(t[k] == 13u8 && #[trigger] t[k + 1] == 10u8) by {
        assert(t[k] != 13u8);
    }
}

proof fn lemma_count_text(n: nat)
    requires
        n <= i64::MAX,
    ensures
        i64_of(nat_text(n)) == Some(n as int),
        no_crlf(nat_text(n)),
        int_text(n as int) == nat_text(n),
{
    lemma_int_text_round_trip(n as int);
    lemma_digits_no_crlf(n as int);
}

/// A well-formed message whose bytes stand at `p` reads as that message,
/// ending just past its bytes, whatever follows.
pub proof fn lemma_frame_of_ser(m: Msg, s: Seq<u8>, p: int)
    requires
        well_formed(m),
        0 <= p,
        p + ser(m).len() <= s.len(),
        s.subrange(p, p + ser(m).len()) == ser(m),
    ensures
        frame_at(s, p) == Frame::Done(m, p + ser(m).len()),
    decreases m,
{
    let b = ser(m);
    assert forall|k: int| 0 <= k < b.len() implies s[p + k] == #[trigger] b[k] by {
        assert(s.subrange(p, p + b.len())[k] == s[p + k]);
    }
    match m {
        Msg::Simple(t) => {
            let e = encode_utf8(t);
            assert(s[p] == b[0]);
            assert(s.subrange(p + 1, p + 1 + e.len()) =~= e) by {
                assert forall|k: int| 0 <= k < e.len() implies s.subrange(p + 1, p + 1 + e.len())[k] == e[k] by {
                    assert(b[1 + k] == e[k]);
                }
            }
            assert(s[p + 1 + e.len()] == b[1 + e.len() as int]);
            assert(s[p + 2 + e.len()] == b[2 + e.len() as int]);
            lemma_line(s, p, e);
        },
        Msg::Fault(t) => {
            let e = encode_utf8(t);
            assert(s[p] == b[0]);
            assert(s.subrange(p + 1, p + 1 + e.len()) =~= e) by {
                assert forall|k: int| 0 <= k < e.len() implies s.subrange(p + 1, p + 1 + e.len())[k] == e[k] by {
                    assert(b[1 + k] == e[k]);
                }
            }
            assert(s[p + 1 + e.len()] == b[1 + e.len() as int]);
            assert(s[p + 2 + e.len()] == b[2 + e.len() as int]);
            lemma_line(s, p, e);
        },
        Msg::Int(i) => {
            let e = int_text(i);
            lemma_int_text_round_trip(i);
            lemma_digits_no_crlf(i);
            assert(s[p] == b[0]);
            assert(s.subrange(p + 1, p + 1 + e.len()) =~= e) by {
                assert forall|k: int| 0 <= k < e.len() implies s.subrange(p + 1, p + 1 + e.len())[k] == e[k] by {
                    assert(b[1 + k] == e[k]);
                }
            }
            assert(s[p + 1 + e.len()] == b[1 + e.len() as int]);
            assert(s[p + 2 + e.len()] == b[2 + e.len() as int]);
            lemma_line(s, p, e);
        },
        Msg::Bulk(None) => {
            lemma_minus_one();
            let e = seq![45u8, 49u8];
            assert(s[p] == b[0]);
            assert(s.subrange(p + 1, p + 3) =~= e) by {
                assert(s[p + 1] == b[1]);
                assert(s[p + 2] == b[2]);
            }
            assert(s[p + 3] == b[3]);
            assert(s[p + 4] == b[4]);
            assert(no_crlf(e));
            lemma_line(s, p, e);
        },
        Msg::Arr(None) => {
            lemma_minus_one();
            let e = seq![45u8, 49u8];
            assert(s[p] == b[0]);
            assert(s.subrange(p + 1, p + 3) =~= e) by {
                assert(s[p + 1] == b[1]);
                assert(s[p + 2] == b[2]);
            }
            assert(s[p + 3] == b[3]);
            assert(s[p + 4] == b[4]);
            assert(no_crlf(e));
            lemma_line(s, p, e);
        },
        Msg::Bulk(Some(d)) => {
            let n = d.len();
            let e = nat_text(n);
            lemma_count_text(n);
            assert(s[p] == b[0]);
            assert(s.subrange(p + 1, p + 1 + e.len()) =~= e) by {
                assert forall|k: int| 0 <= k < e.len() implies s.subrange(p + 1, p + 1 + e.len())[k] == e[k] by {
                    assert(b[1 + k] == e[k]);
                }
            }
            assert(s[p + 1 + e.len()] == b[1 + e.len() as int]);
            assert(s[p + 2 + e.len()] == b[2 + e.len() as int]);
            lemma_line(s, p, e);
            let j = p + 1 + e.len();
            assert(s[j + 2 + n] == b[3 + e.len() as int + n]);
            assert(s[j + 3 + n] == b[4 + e.len() as int + n]);
            assert(s.subrange(j + 2, j + 2 + n) =~= d) by {
                assert forall|k: int| 0 <= k < n implies s.subrange(j + 2, j + 2 + n)[k] == d[k] by {
                    assert(b[3 + e.len() as int + k] == d[k]);
                }
            }
        },
        Msg::Arr(Some(xs)) => {
            let n = xs.len();
            let e = nat_text(n);
            lemma_count_text(n);
            assert(s[p] == b[0]);
            assert(s.subrange(p + 1, p + 1 + e.len()) =~= e) by {
                assert forall|k: int| 0 <= k < e.len() implies s.subrange(p + 1, p + 1 + e.len())[k] == e[k] by {
                    assert(b[1 + k] == e[k]);
                }
            }
            assert(s[p + 1 + e.len()] == b[1 + e.len() as int]);
            assert(s[p + 2 + e.len()] == b[2 + e.len() as int]);
            lemma_line(s, p, e);
            let j = p + 1 + e.len();
            let body = ser_items(xs);
            assert(s.subrange(j + 2, j + 2 + body.len()) =~= body) by {
                assert forall|k: int| 0 <= k < body.len() implies s.subrange(j + 2, j + 2 + body.len())[k] == body[k] by {
                    assert(b[3 + e.len() as int + k] == body[k]);
                }
            }
            lemma_items_of_ser(xs, s, j + 2);
        },
    }
}

/// Well-formed messages whose bytes stand one after the other at `p` read
/// back as those messages.
pub proof fn lemma_items_of_ser(xs: Seq<Msg>, s: Seq<u8>, p: int)
    requires
        forall|i: int| 0 <= i < xs.len() ==> well_formed(#[trigger] xs[i]),
        0 <= p,
        p + ser_items(xs).len() <= s.len(),
        s.subrange(p, p + ser_items(xs).len()) == ser_items(xs),
    ensures
        items_at(s, p, xs.len()) == Frames::Done(xs, p + ser_items(xs).len()),
    decreases xs,
{
    if xs.len() == 0 {
        assert(ser_items(xs) =~= Seq::<u8>::empty());
        assert(xs =~= Seq::<Msg>::empty());
    } else {
        lemma_ser_items_front(xs);
        let x = xs[0];
        let rest = xs.drop_first();
        let a = ser(x);
        let r = ser_items(rest);
        lemma_ser_nonempty(x);
        assert(s.subrange(p, p + a.len()) =~= a) by {
            assert forall|k: int| 0 <= k < a.len() implies s.subrange(p, p + a.len())[k] == a[k] by {
                assert(s.subrange(p, p + ser_items(xs).len())[k] == ser_items(xs)[k]);
            }
        }
        lemma_frame_of_ser(x, s, p);
        assert(s.subrange(p + a.len(), p + a.len() + r.len()) =~= r) by {
            assert forall|k: int| 0 <= k < r.len() implies s.subrange(p + a.len(), p + a.len() + r.len())[k] == r[k] by {
                assert(s.subrange(p, p + ser_items(xs).len())[a.len() + k] == ser_items(xs)[a.len() + k]);
            }
        }
        assert forall|i: int| 0 <= i < rest.len() implies well_formed(#[trigger] rest[i]) by {
            assert(rest[i] == xs[i + 1]);
        }
        lemma_items_of_ser(rest, s, p + a.len());
        assert(seq![x] + rest =~= xs);
    }
}

/// Round trip: the bytes of a well-formed message read back as that
/// message and are used up exactly.
pub proof fn lemma_round_trip(m: Msg)
    requires
        well_formed(m),
    ensures
        frame_at(ser(m), 0) == Frame::Done(m, ser(m).len() as int),
{
    assert(ser(m).subrange(0, ser(m).len() as int) =~= ser(m));
    lemma_frame_of_ser(m, ser(m), 0);
}


proof fn lemma_prefix_bytes(s: Seq<u8>, p: int, b: Seq<u8>)
    requires
        0 <= p <= s.len(),
        s.len() - p <= b.len(),
        s.subrange(p, s.len() as int) == b.subrange(0, s.len() - p),
    ensures
        forall|k: int| 0 <= k < s.len() - p ==> s[p + k] == #[trigger] b[k],
{
    assert forall|k: int| 0 <= k < s.len() - p implies s[p + k] == #[trigger] b[k] by {
        assert(s.subrange(p, s.len() as int)[k] == s[p + k]);
        assert(b.subrange(0, s.len() - p)[k] == b[k]);
    }
}

/// Reading a text line whose bytes are cut short: either the line ends
/// before its `\r\n` does, or it is complete and found.
proof fn lemma_cut_line(s: Seq<u8>, p: int, b: Seq<u8>, e: Seq<u8>)
    requires
        0 <= p < s.len(),
        s.len() - p <= b.len(),
        forall|k: int| 0 <= k < s.len() - p ==> s[p + k] == #[trigger] b[k],
        b.len() >= 3 + e.len(),
        forall|k: int| 0 <= k < e.len() ==> b[1 + k] == #[trigger] e[k],
        b[1 + e.len() as int] == 13u8,
        b[2 + e.len() as int] == 10u8,
        no_crlf(e),
    ensures
        s.len() <= p + 2 + e.len() ==> find_crlf(s, p + 1) is None,
        s.len() > p + 2 + e.len() ==> find_crlf(s, p + 1) == Some(p + 1 + e.len()),
        s.len() > p + 2 + e.len() ==> s.subrange(p + 1, p + 1 + e.len()) == e,
{
    if s.len() <= p + 2 + e.len() {
        assert forall|k: int| p + 1 <= k < s.len() && k < p + 1 + e.len() implies s[k] == e[k - p - 1] by {
            assert(s[p + (k - p)] == b[k - p]);
            assert(b[1 + (k - p - 1)] == e[k - p - 1]);
        }
        if p + 1 + e.len() < s.len() {
            assert(s[p + (1 + e.len())] == b[1 + e.len() as int]);
        }
        lemma_line_prefix(s, p, e);
    } else {
        assert(s.subrange(p + 1, p + 1 + e.len()) =~= e) by {
            assert forall|k: int| 0 <= k < e.len() implies s.subrange(p + 1, p + 1 + e.len())[k] == e[k] by {
                assert(s[p + (1 + k)] == b[1 + k]);
            }
        }
        assert(s[p + (1 + e.len())] == b[1 + e.len() as int]);
        assert(s[p + (2 + e.len())] == b[2 + e.len() as int]);
        lemma_line(s, p, e);
    }
}

/// A strict prefix of a well-formed message's bytes, standing at `p` and
/// running to the end of `s`, reads as incomplete.
pub proof fn lemma_prefix_incomplete(m: Msg, s: Seq<u8>, p: int)
    requires
        well_formed(m),
        0 <= p <= s.len(),
        s.len() - p < ser(m).len(),
        s.subrange(p, s.len() as int) == ser(m).subrange(0, s.len() - p),
    ensures
        frame_at(s, p) == Frame::Incomplete,
    decreases m,
{
    if p < s.len() {
        lemma_prefix_incomplete_at(m, s, p);
    }
}

proof fn lemma_prefix_incomplete_at(m: Msg, s: Seq<u8>, p: int)
    requires
        well_formed(m),
        0 <= p < s.len(),
        s.len() - p < ser(m).len(),
        s.subrange(p, s.len() as int) == ser(m).subrange(0, s.len() - p),
    ensures
        frame_at(s, p) == Frame::Incomplete,
    decreases m, 0int,
{
    let b = ser(m);
    lemma_prefix_bytes(s, p, b);
    assert(s[p + 0] == b[0]);
    match m {
        Msg::Simple(t) => {
            let e = encode_utf8(t);
            lemma_cut_line(s, p, b, e);
        },
        Msg::Fault(t) => {
            let e = encode_utf8(t);
            lemma_cut_line(s, p, b, e);
        },
        Msg::Int(i) => {
            let e = int_text(i);
            lemma_digits_no_crlf(i);
            lemma_cut_line(s, p, b, e);
        },
        Msg::Bulk(None) => {
            let e = seq![45u8, 49u8];
            assert(no_crlf(e));
            lemma_minus_one();
            lemma_cut_line(s, p, b, e);
        },
        Msg::Arr(None) => {
            let e = seq![45u8, 49u8];
            assert(no_crlf(e));
            lemma_minus_one();
            lemma_cut_line(s, p, b, e);
        },
        Msg::Bulk(Some(d)) => {
            let e = nat_text(d.len());
            lemma_count_text(d.len());
            lemma_cut_line(s, p, b, e);
        },
        Msg::Arr(Some(xs)) => {
            let e = nat_text(xs.len());
            lemma_count_text(xs.len());
            lemma_cut_line(s, p, b, e);
            if s.len() > p + 2 + e.len() {
                let j = p + 1 + e.len();
                let body = ser_items(xs);
                let q = s.len() - (j + 2);
                assert(s.subrange(j + 2, s.len() as int) =~= body.subrange(0, q)) by {
                    assert forall|k: int| 0 <= k < q implies s.subrange(j + 2, s.len() as int)[k] == body.subrange(0, q)[k] by {
                        assert(s[p + (3 + e.len() + k)] == b[3 + e.len() + k]);
                        assert(b[3 + e.len() + k] == body[k]);
                    }
                }
                lemma_items_prefix_incomplete(xs, s, j + 2);
            }
        },
    }
}

/// A strict prefix of the bytes of well-formed messages in a row, standing
/// at `p` and running to the end of `s`, reads as incomplete.
pub proof fn lemma_items_prefix_incomplete(xs: Seq<Msg>, s: Seq<u8>, p: int)
    requires
        forall|i: int| 0 <= i < xs.len() ==> well_formed(#[trigger] xs[i]),
        0 <= p <= s.len(),
        s.len() - p < ser_items(xs).len(),
        s.subrange(p, s.len() as int) == ser_items(xs).subrange(0, s.len() - p),
    ensures
        items_at(s, p, xs.len()) == Frames::Incomplete,
    decreases xs,
{
    if xs.len() == 0 {
        assert(ser_items(xs).len() == 0);
    } else {
        lemma_ser_items_front(xs);
        let x = xs[0];
        let rest = xs.drop_first();
        let a = ser(x);
        let r = ser_items(rest);
        let all = ser_items(xs);
        let q = s.len() - p;
        lemma_prefix_bytes(s, p, all);
        if q < a.len() {
            assert(s.subrange(p, s.len() as int) =~= a.subrange(0, q)) by {
                assert forall|k: int| 0 <= k < q implies s.subrange(p, s.len() as int)[k] == a.subrange(0, q)[k] by {
                    assert(s[p + k] == all[k]);
                }
            }
            lemma_prefix_incomplete(x, s, p);
        } else {
            lemma_ser_nonempty(x);
            assert(s.subrange(p, p + a.len()) =~= a) by {
                assert forall|k: int| 0 <= k < a.len() implies s.subrange(p, p + a.len())[k] == a[k] by {
                    assert(s[p + k] == all[k]);
                }
            }
            lemma_frame_of_ser(x, s, p);
            let e = p + a.len();
            assert(s.subrange(e, s.len() as int) =~= r.subrange(0, s.len() - e)) by {
                assert forall|k: int| 0 <= k < s.len() - e implies s.subrange(e, s.len() as int)[k] == r.subrange(0, s.len() - e)[k] by {
                    assert(s[p + (a.len() + k)] == all[a.len() + k]);
                }
            }
            assert forall|i: int| 0 <= i < rest.len() implies well_formed(#[trigger] rest[i]) by {
                assert(rest[i] == xs[i + 1]);
            }
            lemma_items_prefix_incomplete(rest, s, e);
        }
    }
}

/// Incrementality: every strict prefix of the bytes of a well-formed
/// message reads as not yet complete.
pub proof fn lemma_prefix_not_ready(m: Msg, j: int)
    requires
        well_formed(m),
        0 <= j < ser(m).len(),
    ensures
        frame_at(ser(m).subrange(0, j), 0) == Frame::Incomplete,
{
    let s = ser(m).subrange(0, j);
    assert(s.subrange(0, s.len() as int) =~= ser(m).subrange(0, j));
    lemma_prefix_incomplete(m, s, 0);
}

} // verus!
