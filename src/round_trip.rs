use vstd::prelude::*;
use vstd::utf8::*;

use crate::decimal::{
    decimal, i64_of_text, lemma_decimal_digits, lemma_signed_decimal_round_trip, signed_decimal,
    signed_text_value,
};
use crate::message::{crlf, encode, encode_all, RespValue};
use crate::message_parser::{
    feed, initial_model, line_int, offer, step, ParserModel, State, StepResult,
};

verus! {

broadcast use {encode_utf8_valid_utf8, encode_utf8_decode_utf8};

/// Whether the bytes hold a CR immediately followed by an LF.
pub open spec fn holds_crlf(s: Seq<u8>) -> bool {
    exists|i: int| 0 <= i < s.len() - 1 && s[i] == 13u8 && #[trigger] s[i + 1] == 10u8
}

/// A value that the wire format can carry: simple strings and errors hold
/// no CR LF, and every count and integer fits the header's `i64`.
pub open spec fn wire_safe(v: RespValue) -> bool
    decreases v,
{
    match v {
        RespValue::Array(Some(items)) => items.len() <= i64::MAX && items.len() <= usize::MAX
            && all_wire_safe(items),
        RespValue::Array(None) => true,
        RespValue::BulkString(Some(b)) => b.len() <= i64::MAX && b.len() <= usize::MAX,
        RespValue::BulkString(None) => true,
        RespValue::SimpleString(t) => !holds_crlf(encode_utf8(t)),
        RespValue::Integer(i) => i64::MIN <= i <= i64::MAX,
        RespValue::Error(t) => !holds_crlf(encode_utf8(t)),
    }
}

pub open spec fn all_wire_safe(items: Seq<RespValue>) -> bool
    decreases items,
{
    items.len() > 0 ==> all_wire_safe(items.drop_last()) && wire_safe(items.last())
}

/// Every result is "not yet complete".
pub open spec fn quiet(rs: Seq<StepResult>) -> bool {
    forall|i: int| 0 <= i < rs.len() ==> #[trigger] rs[i] == Ok::<Option<RespValue>, crate::parse_error::ParseError>(None)
}

/// What feeding the encoding of `v` leads to, when the value is offered to
/// `stack`.
pub open spec fn fed_as_offered(stack: Seq<(Seq<RespValue>, nat)>, v: RespValue, q: ParserModel, last: StepResult) -> bool {
    let (st, out) = offer(stack, v);
    match out {
        Some(m) => last == Ok::<Option<RespValue>, crate::parse_error::ParseError>(Some(m))
            && q == initial_model(),
        None => last == Ok::<Option<RespValue>, crate::parse_error::ParseError>(None) && q.state
            == State::ParseType && q.stack == st,
    }
}

proof fn lemma_feed_append(p: ParserModel, a: Seq<u8>, b: Seq<u8>)
    ensures
        feed(p, a + b) == (feed(feed(p, a).0, b).0, feed(p, a).1 + feed(feed(p, a).0, b).1),
    decreases b.len(),
{
    if b.len() == 0 {
        assert(a + b =~= a);
        assert(feed(p, a).1 + feed(feed(p, a).0, b).1 =~= feed(p, a).1);
    } else {
        lemma_feed_append(p, a, b.drop_last());
        assert((a + b).drop_last() =~= a + b.drop_last());
        assert((a + b).last() == b.last());
        let (q, rs) = feed(p, a);
        let (q2, rs2) = feed(q, b.drop_last());
        assert(rs + rs2.push(step(q2, b.last()).1) =~= (rs + rs2).push(step(q2, b.last()).1));
    }
}

proof fn lemma_feed_one(p: ParserModel, b: u8)
    ensures
        feed(p, seq![b]) == (step(p, b).0, seq![step(p, b).1]),
{
    reveal_with_fuel(feed, 2);
    assert(seq![b].drop_last() =~= Seq::<u8>::empty());
    assert(Seq::<StepResult>::empty().push(step(p, b).1) =~= seq![step(p, b).1]);
}

/// Reading a line's bytes before its CR LF: they accumulate and nothing
/// completes.
proof fn lemma_read_line(p: ParserModel, s: Seq<u8>)
    requires
        p.state == State::ReadBuf,
        !holds_crlf(seq![p.prev] + s),
    ensures
        feed(p, s).0 == (ParserModel {
            buf: p.buf + s,
            prev: if s.len() > 0 {
                s.last()
            } else {
                p.prev
            },
            ..p
        }),
        feed(p, s).1.len() == s.len(),
        quiet(feed(p, s).1),
    decreases s.len(),
{
    if s.len() == 0 {
        assert(p.buf + s =~= p.buf);
    } else {
        let s0 = s.drop_last();
        assert(!holds_crlf(seq![p.prev] + s0)) by {
            if holds_crlf(seq![p.prev] + s0) {
                let i = choose|i: int|
                    0 <= i < (seq![p.prev] + s0).len() - 1 && (seq![p.prev] + s0)[i] == 13u8
                        && #[trigger] (seq![p.prev] + s0)[i + 1] == 10u8;
                assert((seq![p.prev] + s)[i] == 13u8);
                assert((seq![p.prev] + s)[i + 1] == 10u8);
            }
        }
        lemma_read_line(p, s0);
        let q = feed(p, s0).0;
        let n = s.len() as int;
        assert(q.prev == (seq![p.prev] + s)[n - 1]);
        assert((seq![p.prev] + s)[n] == s.last());
        assert(!(q.prev == 13u8 && s.last() == 10u8));
        assert(q.buf.push(s.last()) =~= p.buf + s);
    }
}

/// Reading a bulk string's content: its bytes accumulate and nothing
/// completes.
proof fn lemma_read_content(p: ParserModel, s: Seq<u8>)
    requires
        p.state == State::ReadBulkStringContent,
        p.buf.len() + s.len() <= p.bulk,
    ensures
        feed(p, s).0 == (ParserModel {
            buf: p.buf + s,
            prev: if s.len() > 0 {
                s.last()
            } else {
                p.prev
            },
            ..p
        }),
        feed(p, s).1.len() == s.len(),
        quiet(feed(p, s).1),
    decreases s.len(),
{
    if s.len() == 0 {
        assert(p.buf + s =~= p.buf);
    } else {
        lemma_read_content(p, s.drop_last());
        assert((p.buf + s.drop_last()).push(s.last()) =~= p.buf + s);
    }
}

proof fn lemma_quiet_append(a: Seq<StepResult>, b: Seq<StepResult>)
    requires
        quiet(a),
        quiet(b),
    ensures
        quiet(a + b),
{
    assert forall|i: int| 0 <= i < (a + b).len() implies #[trigger] (a + b)[i] == Ok::<
        Option<RespValue>,
        crate::parse_error::ParseError,
    >(None) by {
        if i < a.len() {
            assert((a + b)[i] == a[i]);
        } else {
            assert((a + b)[i] == b[i - a.len()]);
        }
    }
}

/// A line made of a type byte, `s` and CR LF: everything before the LF is
/// quiet, and the LF ends the line with `s` in the buffer.
proof fn lemma_feed_line(p: ParserModel, t: u8, s: Seq<u8>)
    requires
        p.state == State::ParseType,
        type_of_byte_is_some(t),
        !holds_crlf(seq![t] + s),
    ensures
        ({
            let line = seq![t] + s + crlf();
            let (q, rs) = feed(p, line.drop_last());
            &&& rs.len() == line.len() - 1
            &&& quiet(rs)
            &&& q.state == State::ReadBuf
            &&& q.prev == 13u8
            &&& q.buf == s.push(13u8)
            &&& q.stack == p.stack
            &&& q.mtype == crate::message_parser::type_of_byte(t).unwrap()
        }),
{
    let line = seq![t] + s + crlf();
    assert(line.drop_last() =~= seq![t] + (s + seq![13u8]));
    lemma_feed_one(p, t);
    let after_type = step(p, t).0;
    lemma_feed_append(p, seq![t], s + seq![13u8]);
    assert(!holds_crlf(seq![after_type.prev] + (s + seq![13u8]))) by {
        if holds_crlf(seq![after_type.prev] + (s + seq![13u8])) {
            let u = seq![after_type.prev] + (s + seq![13u8]);
            let i = choose|i: int| 0 <= i < u.len() - 1 && u[i] == 13u8 && #[trigger] u[i + 1] == 10u8;
            assert(u =~= (seq![t] + s).push(13u8));
            assert((seq![t] + s)[i] == 13u8);
            assert((seq![t] + s)[i + 1] == 10u8);
        }
    }
    lemma_read_line(after_type, s + seq![13u8]);
    assert(Seq::<u8>::empty() + (s + seq![13u8]) =~= s.push(13u8));
    lemma_quiet_append(seq![step(p, t).1], feed(after_type, s + seq![13u8]).1);
}

pub open spec fn type_of_byte_is_some(t: u8) -> bool {
    crate::message_parser::type_of_byte(t).is_some()
}

proof fn lemma_decimal_line(n: nat)
    requires
        n <= i64::MAX,
    ensures
        line_int(decimal(n)) == Ok::<i64, crate::parse_error::ParseError>(n as i64),
        !holds_crlf(decimal(n)),
{
    lemma_decimal_no_crlf(n);
    lemma_signed_decimal_round_trip(n as int);
    assert(signed_decimal(n as int) == decimal(n));
}

proof fn lemma_decimal_no_crlf(n: nat)
    ensures
        !holds_crlf(decimal(n)),
{
    lemma_decimal_digits(n);
    let s = decimal(n);
    assert(!holds_crlf(s)) by {
        if holds_crlf(s) {
            let i = choose|i: int| 0 <= i < s.len() - 1 && s[i] == 13u8 && #[trigger] s[i + 1] == 10u8;
            assert(crate::decimal::is_digit(s[i]));
        }
    }
}

proof fn lemma_no_crlf_after_type(t: u8, s: Seq<u8>)
    requires
        t != 13u8,
        !holds_crlf(s),
    ensures
        !holds_crlf(seq![t] + s),
{
    if holds_crlf(seq![t] + s) {
        let u = seq![t] + s;
        let i = choose|i: int| 0 <= i < u.len() - 1 && u[i] == 13u8 && #[trigger] u[i + 1] == 10u8;
        assert(i >= 1);
        assert(s[i - 1] == 13u8 && s[(i - 1) + 1] == 10u8);
    }
}

/// The line of a value without content: `t` followed by `s` and CR LF.
/// Everything before the LF is quiet; the LF finishes the line.
proof fn lemma_feed_whole_line(p: ParserModel, t: u8, s: Seq<u8>)
    requires
        p.state == State::ParseType,
        type_of_byte_is_some(t),
        !holds_crlf(seq![t] + s),
    ensures
        ({
            let line = seq![t] + s + crlf();
            let (q, rs) = feed(p, line.drop_last());
            let fin = crate::message_parser::finish_line(
                ParserModel { buf: s.push(13u8).push(10u8), ..q },
                10u8,
            );
            &&& line.len() > 0
            &&& feed(p, line) == (fin.0, rs.push(fin.1))
            &&& quiet(rs)
            &&& rs.len() == line.len() - 1
            &&& q.stack == p.stack
            &&& q.mtype == crate::message_parser::type_of_byte(t).unwrap()
            &&& q.state == State::ReadBuf
        }),
{
    lemma_feed_line(p, t, s);
    let line = seq![t] + s + crlf();
    assert(line.last() == 10u8);
}

proof fn lemma_short_line(t: u8)
    requires
        t != 13u8,
    ensures
        !holds_crlf(seq![t, 45u8, 49u8]),
        seq![t, 45u8, 49u8] == seq![t] + seq![45u8, 49u8],
        line_int(seq![45u8, 49u8]) == Ok::<i64, crate::parse_error::ParseError>(-1i64),
{
    let u = seq![t, 45u8, 49u8];
    assert(u =~= seq![t] + seq![45u8, 49u8]);
    if holds_crlf(u) {
        let i = choose|i: int| 0 <= i < u.len() - 1 && u[i] == 13u8 && #[trigger] u[i + 1] == 10u8;
        assert(i == 0 || i == 1);
    }
    let d = seq![45u8, 49u8].subrange(1, 2);
    assert(d =~= seq![49u8]);
    assert(d.drop_last() =~= Seq::<u8>::empty());
    reveal_with_fuel(crate::decimal::digits_value, 2);
    assert(crate::decimal::digits_value(d) == 1);
    assert(crate::decimal::all_digits(d));
    assert(signed_text_value(seq![45u8, 49u8]) == Some(-1int));
    assert(i64_of_text(seq![45u8, 49u8]) == Some(-1i64));
}

proof fn lemma_text_line(t: u8, text: Seq<char>)
    requires
        t != 13u8,
        !holds_crlf(encode_utf8(text)),
    ensures
        !holds_crlf(seq![t] + encode_utf8(text)),
        valid_utf8(encode_utf8(text)),
        decode_utf8(encode_utf8(text)) == text,
        encode_utf8(text).push(13u8).push(10u8).subrange(0, encode_utf8(text).len() as int)
            == encode_utf8(text),
{
    lemma_no_crlf_after_type(t, encode_utf8(text));
    assert(encode_utf8(text).push(13u8).push(10u8).subrange(0, encode_utf8(text).len() as int)
        =~= encode_utf8(text));
}

proof fn lemma_int_line(i: int)
    requires
        i64::MIN <= i <= i64::MAX,
    ensures
        !holds_crlf(seq![58u8] + signed_decimal(i)),
        line_int(signed_decimal(i)) == Ok::<i64, crate::parse_error::ParseError>(i as i64),
{
    lemma_signed_decimal_round_trip(i);
    if i < 0 {
        lemma_decimal_no_crlf((-i) as nat);
        lemma_no_crlf_after_type(45u8, decimal((-i) as nat));
    } else {
        lemma_decimal_line(i as nat);
    }
    lemma_no_crlf_after_type(58u8, signed_decimal(i));
}

/// Feeding the encodings of the elements of an array whose header has been
/// read: each element goes into the open array, which closes and is offered
/// outward with its last element.
proof fn lemma_feed_all(p: ParserModel, outer: Seq<(Seq<RespValue>, nat)>, items: Seq<RespValue>, n: nat)
    requires
        p.state == State::ParseType,
        p.stack == outer.push((Seq::<RespValue>::empty(), n)),
        0 < items.len() <= n,
        all_wire_safe(items),
    ensures
        ({
            let (q, rs) = feed(p, encode_all(items));
            &&& encode_all(items).len() > 0
            &&& rs.len() == encode_all(items).len()
            &&& quiet(rs.drop_last())
            &&& if items.len() < n {
                rs.last() == Ok::<Option<RespValue>, crate::parse_error::ParseError>(None)
                    && q.state == State::ParseType && q.stack == outer.push((items, n))
            } else {
                fed_as_offered(outer, RespValue::Array(Some(items)), q, rs.last())
            }
        }),
    decreases items,
{
    let last = items.last();
    let init = items.drop_last();
    assert(init.push(last) =~= items);
    if items.len() == 1 {
        assert(init =~= Seq::<RespValue>::empty());
        assert(encode_all(items) =~= encode(last));
        lemma_feed_value(p, last);
        assert(p.stack.drop_last() =~= outer);
    } else {
        lemma_feed_all(p, outer, init, n);
        let (q1, rs1) = feed(p, encode_all(init));
        assert(quiet(rs1)) by {
            assert forall|i: int| 0 <= i < rs1.len() implies #[trigger] rs1[i] == Ok::<
                Option<RespValue>,
                crate::parse_error::ParseError,
            >(None) by {
                if i < rs1.len() - 1 {
                    assert(rs1.drop_last()[i] == rs1[i]);
                }
            }
        }
        lemma_feed_value(q1, last);
        lemma_feed_append(p, encode_all(init), encode(last));
        assert(q1.stack.drop_last() =~= outer);
        let (q2, rs2) = feed(q1, encode(last));
        lemma_quiet_append(rs1, rs2.drop_last());
        assert((rs1 + rs2).drop_last() =~= rs1 + rs2.drop_last());
        assert((rs1 + rs2).last() == rs2.last());
    }
}

proof fn lemma_feed_plain(p: ParserModel, v: RespValue)
    requires
        p.state == State::ParseType,
        wire_safe(v),
        !(v is Array),
        !(v is BulkString && v->BulkString_0 is Some),
    ensures
        ({
            let (q, rs) = feed(p, encode(v));
            &&& encode(v).len() > 0
            &&& rs.len() == encode(v).len()
            &&& quiet(rs.drop_last())
            &&& fed_as_offered(p.stack, v, q, rs.last())
        }),
{
    match v {
        RespValue::SimpleString(t) => {
            lemma_text_line(43u8, t);
            lemma_feed_whole_line(p, 43u8, encode_utf8(t));
        },
        RespValue::Error(t) => {
            lemma_text_line(45u8, t);
            lemma_feed_whole_line(p, 45u8, encode_utf8(t));
        },
        RespValue::Integer(i) => {
            lemma_int_line(i);
            lemma_feed_whole_line(p, 58u8, signed_decimal(i));
            let s = signed_decimal(i);
            assert(s.push(13u8).push(10u8).subrange(0, s.len() as int) =~= s);
        },
        RespValue::BulkString(None) => {
            lemma_short_line(36u8);
            lemma_feed_whole_line(p, 36u8, seq![45u8, 49u8]);
            assert(encode(v) =~= seq![36u8] + seq![45u8, 49u8] + crlf());
            assert(seq![45u8, 49u8].push(13u8).push(10u8).subrange(0, 2) =~= seq![45u8, 49u8]);
        },
        _ => {},
    }
}

proof fn lemma_feed_null_array(p: ParserModel)
    requires
        p.state == State::ParseType,
    ensures
        ({
            let v = RespValue::Array(None);
            let (q, rs) = feed(p, encode(v));
            &&& encode(v).len() > 0
            &&& rs.len() == encode(v).len()
            &&& quiet(rs.drop_last())
            &&& fed_as_offered(p.stack, v, q, rs.last())
        }),
{
    let v = RespValue::Array(None);
    lemma_short_line(42u8);
    lemma_feed_whole_line(p, 42u8, seq![45u8, 49u8]);
    assert(encode(v) =~= seq![42u8] + seq![45u8, 49u8] + crlf());
    assert(seq![45u8, 49u8].push(13u8).push(10u8).subrange(0, 2) =~= seq![45u8, 49u8]);
}

proof fn lemma_feed_bulk(p: ParserModel, b: Seq<u8>)
    requires
        p.state == State::ParseType,
        wire_safe(RespValue::BulkString(Some(b))),
    ensures
        ({
            let v = RespValue::BulkString(Some(b));
            let (q, rs) = feed(p, encode(v));
            &&& encode(v).len() > 0
            &&& rs.len() == encode(v).len()
            &&& quiet(rs.drop_last())
            &&& fed_as_offered(p.stack, v, q, rs.last())
        }),
{
    let v = RespValue::BulkString(Some(b));
    let n = b.len();
    let d = decimal(n);
    lemma_decimal_line(n);
    lemma_no_crlf_after_type(36u8, d);
    lemma_feed_whole_line(p, 36u8, d);
    assert(d.push(13u8).push(10u8).subrange(0, d.len() as int) =~= d);
    let header = seq![36u8] + d + crlf();
    let (ph, rh) = feed(p, header);
    assert(quiet(rh)) by {
        assert forall|i: int| 0 <= i < rh.len() implies #[trigger] rh[i] == Ok::<
            Option<RespValue>,
            crate::parse_error::ParseError,
        >(None) by {
            if i < rh.len() - 1 {
                assert(rh.drop_last()[i] == rh[i]);
            }
        }
    }
    lemma_read_content(ph, b);
    let (pc, rc) = feed(ph, b);
    lemma_feed_append(p, header, b);
    lemma_quiet_append(rh, rc);
    let body = header + b;
    assert(pc.buf =~= b);
    lemma_feed_one(pc, 13u8);
    lemma_feed_append(p, body, seq![13u8]);
    let (pr, rr) = feed(p, body + seq![13u8]);
    lemma_quiet_append(rh + rc, seq![Ok::<Option<RespValue>, crate::parse_error::ParseError>(None)]);
    assert(encode(v) =~= (body + seq![13u8]).push(10u8));
    assert(encode(v).drop_last() =~= body + seq![13u8]);
}

/// Reading an array's header, `*` and its count, when the count is not
/// zero: the array opens and nothing completes.
proof fn lemma_feed_array_header(p: ParserModel, n: nat)
    requires
        p.state == State::ParseType,
        0 < n <= i64::MAX,
        n <= usize::MAX,
    ensures
        ({
            let header = seq![42u8] + decimal(n) + crlf();
            let (q, rs) = feed(p, header);
            &&& rs.len() == header.len()
            &&& quiet(rs)
            &&& q.state == State::ParseType
            &&& q.stack == p.stack.push((Seq::<RespValue>::empty(), n))
        }),
{
    let d = decimal(n);
    lemma_decimal_line(n);
    lemma_no_crlf_after_type(42u8, d);
    lemma_feed_whole_line(p, 42u8, d);
    assert(d.push(13u8).push(10u8).subrange(0, d.len() as int) =~= d);
    let header = seq![42u8] + d + crlf();
    let (ph, rh) = feed(p, header);
    assert(quiet(rh)) by {
        assert forall|i: int| 0 <= i < rh.len() implies #[trigger] rh[i] == Ok::<
            Option<RespValue>,
            crate::parse_error::ParseError,
        >(None) by {
            if i < rh.len() - 1 {
                assert(rh.drop_last()[i] == rh[i]);
            }
        }
    }
}

/// Reading `*0` and CR LF: the empty array completes.
proof fn lemma_feed_empty_array(p: ParserModel)
    requires
        p.state == State::ParseType,
    ensures
        ({
            let v = RespValue::Array(Some(Seq::<RespValue>::empty()));
            let (q, rs) = feed(p, encode(v));
            &&& encode(v).len() > 0
            &&& rs.len() == encode(v).len()
            &&& quiet(rs.drop_last())
            &&& fed_as_offered(p.stack, v, q, rs.last())
        }),
{
    let v = RespValue::Array(Some(Seq::<RespValue>::empty()));
    let d = decimal(0);
    lemma_decimal_line(0);
    lemma_no_crlf_after_type(42u8, d);
    lemma_feed_whole_line(p, 42u8, d);
    assert(d.push(13u8).push(10u8).subrange(0, d.len() as int) =~= d);
    assert(encode(v) =~= seq![42u8] + d + crlf());
}

/// Feeding the encoding of a value, from between two tokens, offers the
/// value to the open arrays: every byte but the last yields nothing, and the
/// last yields what the offer gives.
proof fn lemma_feed_value(p: ParserModel, v: RespValue)
    requires
        p.state == State::ParseType,
        wire_safe(v),
    ensures
        ({
            let (q, rs) = feed(p, encode(v));
            &&& encode(v).len() > 0
            &&& rs.len() == encode(v).len()
            &&& quiet(rs.drop_last())
            &&& fed_as_offered(p.stack, v, q, rs.last())
        }),
    decreases v,
{
    match v {
        RespValue::Array(Some(items)) => {
            let n = items.len();
            if n == 0 {
                assert(items =~= Seq::<RespValue>::empty());
                lemma_feed_empty_array(p);
            } else {
                let header = seq![42u8] + decimal(n) + crlf();
                lemma_feed_array_header(p, n);
                let (ph, rh) = feed(p, header);
                lemma_feed_all(ph, p.stack, items, n);
                lemma_feed_append(p, header, encode_all(items));
                assert(encode(v) =~= header + encode_all(items));
                let (qa, ra) = feed(ph, encode_all(items));
                lemma_quiet_append(rh, ra.drop_last());
                assert((rh + ra).drop_last() =~= rh + ra.drop_last());
                assert((rh + ra).last() == ra.last());
            }
        },
        RespValue::Array(None) => {
            lemma_feed_null_array(p);
        },
        RespValue::BulkString(Some(b)) => {
            lemma_feed_bulk(p, b);
        },
        _ => {
            lemma_feed_plain(p, v);
        },
    }
}

/// Parsing the encoding of a value gives the value back.
pub proof fn lemma_parse_encoding(v: RespValue)
    requires
        wire_safe(v),
    ensures
        feed(initial_model(), encode(v)).1.last() == Ok::<
            Option<RespValue>,
            crate::parse_error::ParseError,
        >(Some(v)),
{
    lemma_feed_value(initial_model(), v);
}

/// Fed one byte at a time, the encoding of a value yields "not yet
/// complete" for every byte but the last, and the value at the last, which
/// is what parsing the whole encoding at once gives; the parser is then
/// ready for the next message.
pub proof fn lemma_feed_byte_by_byte(v: RespValue)
    requires
        wire_safe(v),
    ensures
        ({
            let (q, rs) = feed(initial_model(), encode(v));
            &&& rs.len() == encode(v).len()
            &&& forall|i: int| 0 <= i < rs.len() - 1 ==> #[trigger] rs[i] == Ok::<
                Option<RespValue>,
                crate::parse_error::ParseError,
            >(None)
            &&& rs.last() == Ok::<Option<RespValue>, crate::parse_error::ParseError>(Some(v))
            &&& q == initial_model()
        }),
{
    lemma_feed_value(initial_model(), v);
    let rs = feed(initial_model(), encode(v)).1;
    assert forall|i: int| 0 <= i < rs.len() - 1 implies #[trigger] rs[i] == Ok::<
        Option<RespValue>,
        crate::parse_error::ParseError,
    >(None) by {
        assert(rs.drop_last()[i] == rs[i]);
    }
}

/// Arrays nested `depth` levels deep around an integer.
pub open spec fn nested_array(depth: nat) -> RespValue
    decreases depth,
{
    if depth == 0 {
        RespValue::Integer(0)
    } else {
        RespValue::Array(Some(seq![nested_array((depth - 1) as nat)]))
    }
}

proof fn lemma_nested_array_safe(depth: nat)
    ensures
        wire_safe(nested_array(depth)),
    decreases depth,
{
    if depth > 0 {
        lemma_nested_array_safe((depth - 1) as nat);
        let items = seq![nested_array((depth - 1) as nat)];
        assert(items.drop_last() =~= Seq::<RespValue>::empty());
        assert(all_wire_safe(Seq::<RespValue>::empty()));
        assert(items.last() == nested_array((depth - 1) as nat));
        assert(all_wire_safe(items));
    }
}

/// Arrays nested to any depth parse back as they were; the empty array
/// `*0` and the null array `*-1` parse to different values.
pub proof fn lemma_nested_arrays(depth: nat)
    ensures
        feed(initial_model(), encode(nested_array(depth))).1.last() == Ok::<
            Option<RespValue>,
            crate::parse_error::ParseError,
        >(Some(nested_array(depth))),
        feed(initial_model(), seq![42u8, 48u8, 13u8, 10u8]).1.last() == Ok::<
            Option<RespValue>,
            crate::parse_error::ParseError,
        >(Some(RespValue::Array(Some(Seq::empty())))),
        feed(initial_model(), seq![42u8, 45u8, 49u8, 13u8, 10u8]).1.last() == Ok::<
            Option<RespValue>,
            crate::parse_error::ParseError,
        >(Some(RespValue::Array(None))),
        RespValue::Array(Some(Seq::empty())) != RespValue::Array(None),
{
    lemma_nested_array_safe(depth);
    lemma_parse_encoding(nested_array(depth));
    let empty = RespValue::Array(Some(Seq::<RespValue>::empty()));
    lemma_feed_empty_array(initial_model());
    assert(encode(empty) =~= seq![42u8, 48u8, 13u8, 10u8]);
    lemma_feed_null_array(initial_model());
    assert(encode(RespValue::Array(None)) =~= seq![42u8, 45u8, 49u8, 13u8, 10u8]);
}

/// The null bulk string `$-1` and the empty bulk string `$0` parse to
/// different values.
pub proof fn lemma_null_and_empty_bulk_strings()
    ensures
        feed(initial_model(), seq![36u8, 45u8, 49u8, 13u8, 10u8]).1.last() == Ok::<
            Option<RespValue>,
            crate::parse_error::ParseError,
        >(Some(RespValue::BulkString(None))),
        feed(initial_model(), seq![36u8, 48u8, 13u8, 10u8, 13u8, 10u8]).1.last() == Ok::<
            Option<RespValue>,
            crate::parse_error::ParseError,
        >(Some(RespValue::BulkString(Some(Seq::empty())))),
        RespValue::BulkString(None) != RespValue::BulkString(Some(Seq::empty())),
{
    lemma_feed_plain(initial_model(), RespValue::BulkString(None));
    assert(encode(RespValue::BulkString(None)) =~= seq![36u8, 45u8, 49u8, 13u8, 10u8]);
    lemma_feed_bulk(initial_model(), Seq::empty());
    assert(encode(RespValue::BulkString(Some(Seq::empty()))) =~= seq![36u8, 48u8, 13u8, 10u8, 13u8, 10u8]);
}

} // verus!
