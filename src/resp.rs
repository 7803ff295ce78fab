//! The wire codec: Redis-compatible framed messages (RESP2).

use vstd::prelude::*;
use vstd::slice::*;
use vstd::string::*;
use vstd::utf8::*;

use crate::decimal::{i64_of, int_text, nat_text, parse_i64, write_i64, write_u64};

verus! {

broadcast use vstd::std_specs::vec::group_vec_axioms;

/// Largest bulk string payload accepted from the wire (512 MiB).
pub const MAX_BULK_STRING_SIZE: usize = 536870912;

/// Largest element count accepted for an array (1,048,576).
pub const MAX_ARRAY_SIZE: usize = 1048576;

/// A protocol message.
#[derive(Debug, PartialEq)]
pub enum RespValue {
    /// Simple string: `+OK\r\n`.
    SimpleString(String),
    /// Error: `-Error message\r\n`.
    Error(String),
    /// Integer: `:1000\r\n`.
    Integer(i64),
    /// Bulk string: `$6\r\nfoobar\r\n`; `None` is the null bulk string `$-1\r\n`.
    BulkString(Option<Vec<u8>>),
    /// Array: `*2\r\n...`; `None` is the null array `*-1\r\n`.
    Array(Option<Vec<RespValue>>),
}

/// A message as a mathematical value.
pub enum Msg {
    Simple(Seq<char>),
    Fault(Seq<char>),
    Int(int),
    Bulk(Option<Seq<u8>>),
    Arr(Option<Seq<Msg>>),
}

/// The mathematical value of a message.
pub open spec fn msg_of(v: RespValue) -> Msg
    decreases v,
{
    match v {
        RespValue::SimpleString(s) => Msg::Simple(s@),
        RespValue::Error(s) => Msg::Fault(s@),
        RespValue::Integer(i) => Msg::Int(i as int),
        RespValue::BulkString(None) => Msg::Bulk(None),
        RespValue::BulkString(Some(d)) => Msg::Bulk(Some(d@)),
        RespValue::Array(None) => Msg::Arr(None),
        RespValue::Array(Some(a)) => Msg::Arr(Some(msgs_of(a@))),
    }
}

/// The mathematical values of a sequence of messages.
pub open spec fn msgs_of(xs: Seq<RespValue>) -> Seq<Msg>
    decreases xs,
{
    if xs.len() == 0 {
        seq![]
    } else {
        msgs_of(xs.drop_last()).push(msg_of(xs.last()))
    }
}

/// `msgs_of` keeps the length and maps each message.
pub proof fn lemma_msgs_of(xs: Seq<RespValue>)
    ensures
        msgs_of(xs).len() == xs.len(),
        forall|i: int| 0 <= i < xs.len() ==> #[trigger] msgs_of(xs)[i] == msg_of(xs[i]),
    decreases xs.len(),
{
    if xs.len() > 0 {
        lemma_msgs_of(xs.drop_last());
        assert forall|i: int| 0 <= i < xs.len() implies #[trigger] msgs_of(xs)[i] == msg_of(xs[i]) by {
            if i < xs.len() - 1 {
                assert(msgs_of(xs.drop_last())[i] == msg_of(xs.drop_last()[i]));
            }
        }
    }
}

impl View for RespValue {
    type V = Msg;

    open spec fn view(&self) -> Msg {
        msg_of(*self)
    }
}

/// `\r\n`.
pub open spec fn crlf() -> Seq<u8> {
    seq![13u8, 10u8]
}

/// The bytes of a message.
pub open spec fn ser(m: Msg) -> Seq<u8>
    decreases m,
{
    match m {
        Msg::Simple(t) => seq![43u8] + encode_utf8(t) + crlf(),
        Msg::Fault(t) => seq![45u8] + encode_utf8(t) + crlf(),
        Msg::Int(i) => seq![58u8] + int_text(i) + crlf(),
        Msg::Bulk(None) => seq![36u8, 45u8, 49u8, 13u8, 10u8],
        Msg::Bulk(Some(d)) => seq![36u8] + nat_text(d.len()) + crlf() + d + crlf(),
        Msg::Arr(None) => seq![42u8, 45u8, 49u8, 13u8, 10u8],
        Msg::Arr(Some(xs)) => seq![42u8] + nat_text(xs.len()) + crlf() + ser_items(xs),
    }
}

/// The bytes of a sequence of messages, one after the other.
pub open spec fn ser_items(xs: Seq<Msg>) -> Seq<u8>
    decreases xs,
{
    if xs.len() == 0 {
        seq![]
    } else {
        ser_items(xs.drop_last()) + ser(xs.last())
    }
}

/// Whether a `\r\n` starts at `j` in `s`.
pub open spec fn crlf_at(s: Seq<u8>, j: int) -> bool {
    0 <= j && j + 1 < s.len() && s[j] == 13u8 && s[j + 1] == 10u8
}

/// The first `\r\n` in `s` at or after `from`.
pub open spec fn find_crlf(s: Seq<u8>, from: int) -> Option<int>
    decreases s.len() - from,
{
    if from < 0 || from + 1 >= s.len() {
        None
    } else if crlf_at(s, from) {
        Some(from)
    } else {
        find_crlf(s, from + 1)
    }
}

/// What reading one message at position `p` of a buffer gives.
pub enum Frame {
    /// A message, and the position just past it.
    Done(Msg, int),
    /// The bytes end before the message does.
    Incomplete,
    /// The bytes break the framing.
    Malformed,
}

/// What reading several messages in a row gives.
pub enum Frames {
    Done(Seq<Msg>, int),
    Incomplete,
    Malformed,
}

/// Whether `b` opens one of the five message kinds.
pub open spec fn known_tag(b: u8) -> bool {
    b == 43u8 || b == 45u8 || b == 58u8 || b == 36u8 || b == 42u8
}

/// The grammar of a message starting at `p` in `s`.
pub open spec fn frame_at(s: Seq<u8>, p: int) -> Frame
    decreases s.len() - p, 0int, 0int,
{
    if p < 0 || p >= s.len() {
        Frame::Incomplete
    } else if !known_tag(s[p]) {
        Frame::Malformed
    } else {
        match find_crlf(s, p + 1) {
            None => Frame::Incomplete,
            Some(j) => if j < p + 1 || j + 2 > s.len() {
                Frame::Malformed
            } else {
                let line = s.subrange(p + 1, j);
                let tag = s[p];
                if tag == 43u8 || tag == 45u8 {
                    if valid_utf8(line) {
                        if tag == 43u8 {
                            Frame::Done(Msg::Simple(decode_utf8(line)), j + 2)
                        } else {
                            Frame::Done(Msg::Fault(decode_utf8(line)), j + 2)
                        }
                    } else {
                        Frame::Malformed
                    }
                } else if tag == 58u8 {
                    match i64_of(line) {
                        Some(v) => Frame::Done(Msg::Int(v), j + 2),
                        None => Frame::Malformed,
                    }
                } else {
                    match i64_of(line) {
                        None => Frame::Malformed,
                        Some(n) => if n == -1 {
                            if tag == 36u8 {
                                Frame::Done(Msg::Bulk(None), j + 2)
                            } else {
                                Frame::Done(Msg::Arr(None), j + 2)
                            }
                        } else if tag == 36u8 {
                            if n < 0 || n > MAX_BULK_STRING_SIZE {
                                Frame::Malformed
                            } else if s.len() < j + 2 + n + 2 {
                                Frame::Incomplete
                            } else if s[j + 2 + n] == 13u8 && s[j + 3 + n] == 10u8 {
                                Frame::Done(Msg::Bulk(Some(s.subrange(j + 2, j + 2 + n))), j + 4 + n)
                            } else {
                                Frame::Malformed
                            }
                        } else if n < 0 || n > MAX_ARRAY_SIZE {
                            Frame::Malformed
                        } else {
                            match items_at(s, j + 2, n as nat) {
                                Frames::Done(ms, e) => Frame::Done(Msg::Arr(Some(ms)), e),
                                Frames::Incomplete => Frame::Incomplete,
                                Frames::Malformed => Frame::Malformed,
                            }
                        },
                    }
                }
            },
        }
    }
}

/// The grammar of `n` messages in a row starting at `p` in `s`.
pub open spec fn items_at(s: Seq<u8>, p: int, n: nat) -> Frames
    decreases s.len() - p, 1int, n,
{
    if n == 0 {
        Frames::Done(seq![], p)
    } else if p > s.len() {
        Frames::Malformed
    } else {
        match frame_at(s, p) {
            Frame::Done(m, e) => if e <= p || e > s.len() {
                Frames::Malformed
            } else {
                match items_at(s, e, (n - 1) as nat) {
                    Frames::Done(ms, e2) => Frames::Done(seq![m] + ms, e2),
                    Frames::Incomplete => Frames::Incomplete,
                    Frames::Malformed => Frames::Malformed,
                }
            },
            Frame::Incomplete => Frames::Incomplete,
            Frame::Malformed => Frames::Malformed,
        }
    }
}

/// Whether a complete header at `p` declares a kind `tag` (`$` or `*`) with a
/// size beyond `max` (other than the null marker -1), which the size guard
/// refuses before reading any payload.
pub open spec fn size_refused(s: Seq<u8>, p: int, tag: u8, max: int) -> bool {
    &&& 0 <= p < s.len()
    &&& s[p] == tag
    &&& find_crlf(s, p + 1) matches Some(j) && i64_of(s.subrange(p + 1, j)) matches Some(n) && n != -1
        && (n < 0 || n > max)
}

/// The error text for a refused bulk string length.
pub open spec fn bulk_too_large_text() -> Seq<char> {
    "ERR bulk string too large"@
}

/// The error text for a refused array count.
pub open spec fn array_too_large_text() -> Seq<char> {
    "ERR array too large"@
}

/// The error texts that the size guards give.
pub open spec fn guard_errors(s: Seq<u8>, p: int, r: Result<Option<(RespValue, usize)>, String>) -> bool {
    &&& size_refused(s, p, 36u8, MAX_BULK_STRING_SIZE as int) ==> (r matches Err(m) && m@ == bulk_too_large_text())
    &&& size_refused(s, p, 42u8, MAX_ARRAY_SIZE as int) ==> (r matches Err(m) && m@ == array_too_large_text())
}

/// Whether an exec parse result at `p` agrees with the grammar.
pub open spec fn frame_result(
    s: Seq<u8>,
    p: int,
    r: Result<Option<(RespValue, usize)>, String>,
) -> bool {
    match r {
        Ok(Some((v, e))) => frame_at(s, p) == Frame::Done(v@, e as int) && p < e <= s.len(),
        Ok(None) => frame_at(s, p) == Frame::Incomplete,
        Err(_) => frame_at(s, p) == Frame::Malformed,
    }
}

#[verifier::external_type_specification]
#[verifier::external_body]
pub struct ExBytesMut(bytes::BytesMut);

/// The bytes that a read buffer holds.
pub uninterp spec fn buffer_contents(b: bytes::BytesMut) -> Seq<u8>;

/// Relies on `BytesMut`'s `Deref` to `[u8]`: the slice is the buffer's contents.
#[verifier::external_body]
fn buffer_bytes(buf: &bytes::BytesMut) -> (r: &[u8])
    ensures
        r@ == buffer_contents(*buf),
{
    &buf[..]
}

/// Relies on `Buf::advance` for `BytesMut`: it drops the first `n` bytes
/// (it panics past the end, which `requires` rules out).
#[verifier::external_body]
fn buffer_advance(buf: &mut bytes::BytesMut, n: usize)
    requires
        n <= buffer_contents(*old(buf)).len(),
    ensures
        buffer_contents(*final(buf)) == buffer_contents(*old(buf)).subrange(
            n as int,
            buffer_contents(*old(buf)).len() as int,
        ),
{
    bytes::Buf::advance(buf, n)
}

/// Relies on `String::from_utf8`: it accepts exactly the valid UTF-8 byte
/// sequences and decodes them.
#[verifier::external_body]
fn utf8_string(bytes: &[u8]) -> (r: Option<String>)
    ensures
        r is Some <==> valid_utf8(bytes@),
        r matches Some(s) ==> s@ == decode_utf8(bytes@),
{
    String::from_utf8(bytes.to_vec()).ok()
}

/// The text that `bytes` hold, when they are valid UTF-8.
pub fn utf8_text(bytes: &[u8]) -> (r: Option<String>)
    ensures
        r is Some <==> valid_utf8(bytes@),
        r matches Some(s) ==> s@ == decode_utf8(bytes@),
{
    utf8_string(bytes)
}

fn error_text(msg: &str) -> (r: String)
    ensures
        r@ == msg@,
{
    String::from_str(msg)
}

/// Finds the first `\r\n` at or after `from`.
fn find_line_end(buf: &[u8], from: usize) -> (r: Option<usize>)
    ensures
        r matches Some(j) ==> find_crlf(buf@, from as int) == Some(j as int),
        r is None ==> find_crlf(buf@, from as int) is None,
    decreases buf@.len() - from,
{
    if from >= buf.len() || from + 1 >= buf.len() {
        return None;
    }
    if buf[from] == 13u8 && buf[from + 1] == 10u8 {
        Some(from)
    } else {
        find_line_end(buf, from + 1)
    }
}

proof fn lemma_find_crlf_bounds(s: Seq<u8>, from: int)
    ensures
        find_crlf(s, from) matches Some(j) ==> from <= j && crlf_at(s, j),
    decreases s.len() - from,
{
    if !(from < 0 || from + 1 >= s.len()) && !crlf_at(s, from) {
        lemma_find_crlf_bounds(s, from + 1);
    }
}

/// Reads one message starting at `p`.
fn parse_frame(buf: &[u8], p: usize) -> (r: Result<Option<(RespValue, usize)>, String>)
    ensures
        frame_result(buf@, p as int, r),
        guard_errors(buf@, p as int, r),
    decreases buf@.len() - p, 0int,
{
    if p >= buf.len() {
        return Ok(None);
    }
    let tag = buf[p];
    if !(tag == 43u8 || tag == 45u8 || tag == 58u8 || tag == 36u8 || tag == 42u8) {
        return Err(error_text("Unknown RESP type"));
    }
    let j = match find_line_end(buf, p + 1) {
        None => {
            return Ok(None);
        },
        Some(j) => j,
    };
    proof {
        lemma_find_crlf_bounds(buf@, p as int + 1);
    }
    let line = slice_subrange(buf, p + 1, j);
    if tag == 43u8 || tag == 45u8 {
        return match utf8_string(line) {
            None => Err(error_text("invalid utf-8 in line")),
            Some(text) => if tag == 43u8 {
                Ok(Some((RespValue::SimpleString(text), j + 2)))
            } else {
                Ok(Some((RespValue::Error(text), j + 2)))
            },
        };
    }
    let n = match parse_i64(line) {
        None => {
            return Err(error_text("invalid integer"));
        },
        Some(n) => n,
    };
    if tag == 58u8 {
        return Ok(Some((RespValue::Integer(n), j + 2)));
    }
    if n == -1 {
        if tag == 36u8 {
            return Ok(Some((RespValue::BulkString(None), j + 2)));
        } else {
            return Ok(Some((RespValue::Array(None), j + 2)));
        }
    }
    if tag == 36u8 {
        if n < 0 || n > MAX_BULK_STRING_SIZE as i64 {
            return Err(error_text("ERR bulk string too large"));
        }
        let len = n as usize;
        if buf.len() - (j + 2) < len + 2 {
            return Ok(None);
        }
        let start = j + 2;
        if buf[start + len] != 13u8 || buf[start + len + 1] != 10u8 {
            return Err(error_text("Expected \\r\\n after bulk string"));
        }
        let data = slice_to_vec(slice_subrange(buf, start, start + len));
        return Ok(Some((RespValue::BulkString(Some(data)), start + len + 2)));
    }
    if n < 0 || n > MAX_ARRAY_SIZE as i64 {
        return Err(error_text("ERR array too large"));
    }
    let count = n as usize;
    assert(!size_refused(buf@, p as int, 36u8, MAX_BULK_STRING_SIZE as int));
    assert(!size_refused(buf@, p as int, 42u8, MAX_ARRAY_SIZE as int));
    proof {
        assert(frame_at(buf@, p as int) == (match items_at(buf@, j as int + 2, count as nat) {
            Frames::Done(ms, e) => Frame::Done(Msg::Arr(Some(ms)), e),
            Frames::Incomplete => Frame::Incomplete,
            Frames::Malformed => Frame::Malformed,
        }));
    }
    let mut items: Vec<RespValue> = Vec::new();
    let mut pos: usize = j + 2;
    let mut k: usize = 0;
    while k < count
        invariant
            0 <= k <= count,
            count == n,
            0 <= n <= MAX_ARRAY_SIZE,
            j + 2 <= pos <= buf@.len(),
            p < j,
            items@.len() == k,
            !size_refused(buf@, p as int, 36u8, MAX_BULK_STRING_SIZE as int),
            !size_refused(buf@, p as int, 42u8, MAX_ARRAY_SIZE as int),
            frame_at(buf@, p as int) == (match items_at(buf@, j as int + 2, count as nat) {
                Frames::Done(ms, e) => Frame::Done(Msg::Arr(Some(ms)), e),
                Frames::Incomplete => Frame::Incomplete,
                Frames::Malformed => Frame::Malformed,
            }),
            items_at(buf@, j as int + 2, count as nat) == (match items_at(buf@, pos as int, (count - k) as nat) {
                Frames::Done(ms, e) => Frames::Done(msgs_of(items@) + ms, e),
                other => other,
            }),
        decreases count - k,
    {
        match parse_frame(buf, pos) {
            Err(e) => {
                return Err(e);
            },
            Ok(None) => {
                return Ok(None);
            },
            Ok(Some((v, e))) => {
                proof {
                    let rest = items_at(buf@, e as int, (count - k - 1) as nat);
                    assert(msgs_of(items@.push(v)) == msgs_of(items@).push(v@)) by {
                        assert(items@.push(v).drop_last() =~= items@);
                    }
                    match rest {
                        Frames::Done(ms, e2) => {
                            assert(msgs_of(items@) + (seq![v@] + ms) =~= msgs_of(items@).push(v@) + ms);
                        },
                        _ => {},
                    }
                }
                items.push(v);
                pos = e;
            },
        }
        k = k + 1;
    }
    proof {
        assert(msgs_of(items@) + Seq::<Msg>::empty() =~= msgs_of(items@));
    }
    Ok(Some((RespValue::Array(Some(items)), pos)))
}

impl RespValue {
    /// Reads one message from the front of `buf`. On success the message's
    /// bytes are consumed; when the bytes end before the message does the
    /// result is `Ok(None)`, and on broken framing an error; in both of these
    /// cases `buf` is left as it was.
    pub fn parse(buf: &mut bytes::BytesMut) -> (r: Result<Option<RespValue>, String>)
        ensures
            r matches Ok(Some(v)) ==> (frame_at(buffer_contents(*old(buf)), 0) matches Frame::Done(m, e)
                && m == v@ && buffer_contents(*final(buf)) == buffer_contents(*old(buf)).subrange(
                e,
                buffer_contents(*old(buf)).len() as int,
            )),
            r matches Ok(None) ==> frame_at(buffer_contents(*old(buf)), 0) == Frame::Incomplete
                && buffer_contents(*final(buf)) == buffer_contents(*old(buf)),
            r is Err ==> frame_at(buffer_contents(*old(buf)), 0) == Frame::Malformed
                && buffer_contents(*final(buf)) == buffer_contents(*old(buf)),
            size_refused(buffer_contents(*old(buf)), 0, 36u8, MAX_BULK_STRING_SIZE as int) ==> (r matches Err(
                m,
            ) && m@ == bulk_too_large_text()),
            size_refused(buffer_contents(*old(buf)), 0, 42u8, MAX_ARRAY_SIZE as int) ==> (r matches Err(
                m,
            ) && m@ == array_too_large_text()),
    {
        let parsed = {
            let bytes = buffer_bytes(buf);
            parse_frame(bytes, 0)
        };
        match parsed {
            Ok(Some((v, e))) => {
                buffer_advance(buf, e);
                Ok(Some(v))
            },
            Ok(None) => Ok(None),
            Err(e) => Err(e),
        }
    }

    /// Reads one message from the front of `bytes`, giving it with the
    /// number of bytes it took.
    pub fn parse_bytes(bytes: &[u8]) -> (r: Result<Option<(RespValue, usize)>, String>)
        ensures
            frame_result(bytes@, 0, r),
            guard_errors(bytes@, 0, r),
    {
        parse_frame(bytes, 0)
    }

    /// The wire bytes of this message.
    pub fn serialize(&self) -> (r: Vec<u8>)
        ensures
            r@ == ser(self@),
        decreases self,
    {
        let mut out: Vec<u8> = Vec::new();
        self.serialize_into(&mut out);
        proof {
            assert(Seq::<u8>::empty() + ser(self@) =~= ser(self@));
        }
        out
    }

    fn serialize_into(&self, out: &mut Vec<u8>)
        ensures
            final(out)@ == old(out)@ + ser(self@),
        decreases self,
    {
        let ghost start = old(out)@;
        match self {
            RespValue::SimpleString(s) => {
                out.push(43u8);
                out.extend_from_slice(s.as_str().as_bytes());
                out.push(13u8);
                out.push(10u8);
                proof {
                    assert(out@ =~= start + ser(self@));
                }
            },
            RespValue::Error(s) => {
                out.push(45u8);
                out.extend_from_slice(s.as_str().as_bytes());
                out.push(13u8);
                out.push(10u8);
                proof {
                    assert(out@ =~= start + ser(self@));
                }
            },
            RespValue::Integer(i) => {
                out.push(58u8);
                write_i64(*i, out);
                out.push(13u8);
                out.push(10u8);
                proof {
                    assert(out@ =~= start + ser(self@));
                }
            },
            RespValue::BulkString(None) => {
                out.push(36u8);
                out.push(45u8);
                out.push(49u8);
                out.push(13u8);
                out.push(10u8);
                proof {
                    assert(out@ =~= start + ser(self@));
                }
            },
            RespValue::BulkString(Some(data)) => {
                out.push(36u8);
                write_u64(data.len() as u64, out);
                out.push(13u8);
                out.push(10u8);
                out.extend_from_slice(data.as_slice());
                out.push(13u8);
                out.push(10u8);
                proof {
                    assert(out@ =~= start + ser(self@));
                }
            },
            RespValue::Array(None) => {
                out.push(42u8);
                out.push(45u8);
                out.push(49u8);
                out.push(13u8);
                out.push(10u8);
                proof {
                    assert(out@ =~= start + ser(self@));
                }
            },
            RespValue::Array(Some(arr)) => {
                out.push(42u8);
                write_u64(arr.len() as u64, out);
                out.push(13u8);
                out.push(10u8);
                let ghost head = out@;
                let mut i: usize = 0;
                while i < arr.len()
                    invariant
                        0 <= i <= arr@.len(),
                        *self == RespValue::Array(Some(*arr)),
                        out@ == head + ser_items(msgs_of(arr@.subrange(0, i as int))),
                    decreases arr@.len() - i,
                {
                    proof {
                        assert(arr@.subrange(0, i as int + 1).drop_last() =~= arr@.subrange(0, i as int));
                    }
                    proof {
                        vstd::std_specs::vec::axiom_vec_index_decreases(*arr, i as int);
                        let opt = Some(*arr);
                        assert(*self == RespValue::Array(opt));
                        assert(decreases_to!(*self => self->Array_0));
                        assert(decreases_to!(opt => opt->0));
                        assert(decreases_to!(*arr => arr[i as int]));
                    }
                    arr[i].serialize_into(out);
                    proof {
                        let xs = arr@.subrange(0, i as int + 1);
                        assert(msgs_of(xs).drop_last() =~= msgs_of(arr@.subrange(0, i as int)));
                    }
                    i = i + 1;
                }
                proof {
                    assert(arr@.subrange(0, i as int) =~= arr@);
                    lemma_msgs_of(arr@);
                    assert(out@ =~= start + ser(self@));
                }
            },
        }
    }
}

} // verus!
