use vstd::prelude::*;
use vstd::utf8::*;

use crate::decimal::{decimal, digits_value, lemma_decimal_digits, lemma_signed_decimal_round_trip, signed_decimal};
use crate::message::{content_of, text_of, RespValue};
use crate::message_processor::{
    bulk, command_spec, contents, counter_value, del_spec, exists_spec, expire_at, expired, get_spec,
    incr_spec, message_spec, push_spec, set_spec, settle, wrong_type_single, Store, ValueModel,
};
use crate::processing_error::Fault;
use crate::text::lower_of;

verus! {

broadcast use {encode_utf8_valid_utf8, encode_utf8_decode_utf8, decode_utf8_encode_utf8};

proof fn lemma_bulk_text(t: Seq<char>)
    ensures
        text_of(bulk(t)) == Ok::<Seq<char>, Fault>(t),
{
}

proof fn lemma_ascii_valid_utf8(s: Seq<u8>)
    requires
        forall|i: int| 0 <= i < s.len() ==> #[trigger] s[i] < 128,
    ensures
        valid_utf8(s),
    decreases s.len(),
{
    if s.len() > 0 {
        let rest = s.subrange(1, s.len() as int);
        lemma_ascii_valid_utf8(rest);
        assert(pop_first_scalar(s) =~= rest);
    }
}

/// The decimal text of `n` read back as an expiry amount.
proof fn lemma_amount_text(n: nat)
    requires
        n <= u128::MAX,
    ensures
        text_of(RespValue::BulkString(Some(decimal(n)))) is Ok,
        crate::decimal::u128_of_text(
            encode_utf8(text_of(RespValue::BulkString(Some(decimal(n))))->Ok_0),
        ) == Some(n as u128),
{
    lemma_decimal_digits(n);
    let d = decimal(n);
    assert forall|i: int| 0 <= i < d.len() implies #[trigger] d[i] < 128 by {
        assert(crate::decimal::is_digit(d[i]));
    }
    lemma_ascii_valid_utf8(d);
}

/// The arguments of `SET key value option amount`.
pub open spec fn set_args(key: Seq<char>, value: Seq<u8>, option: Seq<char>, amount: nat) -> Seq<RespValue> {
    seq![bulk(key), RespValue::BulkString(Some(value)), bulk(option), RespValue::BulkString(Some(decimal(amount)))]
}

/// After `SET`, `GET` gives the value back until the recorded expiry; once
/// `now` is past it, `GET` gives null and the key is gone from both the
/// data and the expiry index.
pub proof fn lemma_set_then_get(s: Store, args: Seq<RespValue>, now: u128, later: u128)
    requires
        set_spec(s, args, now).1 is Ok,
    ensures
        ({
            let s1 = set_spec(s, args, now).0;
            let key = text_of(args[0])->Ok_0;
            let value = content_of(args[1])->Some_0;
            let (s2, r2) = get_spec(s1, seq![bulk(key)], later);
            let past = match expire_at(args, now) {
                Ok(Some(at)) => later > at,
                _ => false,
            };
            &&& set_spec(s, args, now).1 == Ok::<RespValue, Fault>(RespValue::SimpleString("OK"@))
            &&& past ==> r2 == Ok::<RespValue, Fault>(RespValue::BulkString(None))
                && !s2.data.contains_key(key) && !s2.expiry.contains_key(key)
            &&& !past ==> r2 == Ok::<RespValue, Fault>(RespValue::BulkString(Some(value))) && s2 == s1
        }),
{
    let key = text_of(args[0])->Ok_0;
    lemma_bulk_text(key);
    assert(seq![bulk(key)][0] == bulk(key));
}

/// For a "now" on a whole second, `EX n`, `PX n*1000`, `EXAT` of the
/// second `n` seconds on and `PXAT` of the millisecond `n` seconds on all
/// set the same expiry, `now + n*1000`, and leave the same store.
pub proof fn lemma_expire_options_agree(
    s: Store,
    key: Seq<char>,
    value: Seq<u8>,
    ex: Seq<char>,
    px: Seq<char>,
    exat: Seq<char>,
    pxat: Seq<char>,
    secs: nat,
    now: u128,
)
    requires
        lower_of(ex) == "ex"@,
        lower_of(px) == "px"@,
        lower_of(exat) == "exat"@,
        lower_of(pxat) == "pxat"@,
        now + secs * 1000 <= u128::MAX,
        now % 1000 == 0,
    ensures
        ({
            let at = (now + secs * 1000) as nat;
            let by_ex = set_spec(s, set_args(key, value, ex, secs), now);
            &&& by_ex.0.expiry[key] == at
            &&& by_ex.1 == Ok::<RespValue, Fault>(RespValue::SimpleString("OK"@))
            &&& set_spec(s, set_args(key, value, px, secs * 1000), now) == by_ex
            &&& set_spec(s, set_args(key, value, exat, at / 1000), now) == by_ex
            &&& set_spec(s, set_args(key, value, pxat, at), now) == by_ex
        }),
{
    let at = (now + secs * 1000) as nat;
    assert(secs * 1000 <= u128::MAX) by (nonlinear_arith)
        requires
            now + secs * 1000 <= u128::MAX,
            now >= 0,
    ;
    assert((at / 1000) * 1000 == at) by (nonlinear_arith)
        requires
            at == now + secs * 1000,
            now % 1000 == 0,
    ;
    reveal_strlit("ex");
    reveal_strlit("px");
    reveal_strlit("exat");
    reveal_strlit("pxat");
    assert("px"@ != "ex"@) by {
        assert("px"@[0] != "ex"@[0]);
    }
    assert("exat"@ != "ex"@ && "exat"@ != "px"@) by {
        assert("exat"@.len() != "ex"@.len());
    }
    assert("pxat"@ != "ex"@ && "pxat"@ != "px"@) by {
        assert("pxat"@.len() != "ex"@.len());
    }
    assert("pxat"@ != "exat"@) by {
        assert("pxat"@[0] != "exat"@[0]);
    }
    lemma_bulk_text(key);
    lemma_bulk_text(ex);
    lemma_bulk_text(px);
    lemma_bulk_text(exat);
    lemma_bulk_text(pxat);
    lemma_amount_text(secs);
    lemma_amount_text(secs * 1000);
    lemma_amount_text(at / 1000);
    lemma_amount_text(at);
    assert(set_args(key, value, ex, secs)[3] == RespValue::BulkString(Some(decimal(secs))));
    assert(set_args(key, value, px, secs * 1000)[3] == RespValue::BulkString(Some(decimal(secs * 1000))));
    assert(set_args(key, value, exat, at / 1000)[3] == RespValue::BulkString(Some(decimal(at / 1000))));
    assert(set_args(key, value, pxat, at)[3] == RespValue::BulkString(Some(decimal(at))));
    assert(expire_at(set_args(key, value, ex, secs), now) == Ok::<Option<u128>, Fault>(Some(at as u128)));
    assert(expire_at(set_args(key, value, px, secs * 1000), now) == Ok::<Option<u128>, Fault>(Some(at as u128)));
    assert(expire_at(set_args(key, value, exat, at / 1000), now) == Ok::<Option<u128>, Fault>(Some(at as u128)));
    assert(expire_at(set_args(key, value, pxat, at), now) == Ok::<Option<u128>, Fault>(Some(at as u128)));
}

proof fn lemma_zero_counter()
    ensures
        counter_value(seq![48u8]) == Ok::<i64, Fault>(0),
{
    reveal_with_fuel(digits_value, 2);
    let z = seq![48u8];
    assert(z.drop_last() =~= Seq::<u8>::empty());
    assert(crate::decimal::all_digits(z));
    assert(digits_value(z) == 0);
}

/// `INCR` on an absent key gives 1.
pub proof fn lemma_incr_absent(s: Store, key: Seq<char>, now: u128)
    requires
        !s.data.contains_key(key),
        !s.expiry.contains_key(key),
    ensures
        incr_spec(s, seq![bulk(key)], now, 1).1 == Ok::<RespValue, Fault>(RespValue::Integer(1)),
{
    lemma_bulk_text(key);
    lemma_zero_counter();
}

/// `INCR` then `DECR` on the same key brings its counter back to its value
/// before (after lazy expiry, an absent key counting as 0), as canonical
/// decimal text.
pub proof fn lemma_incr_then_decr(s: Store, key: Seq<char>, now: u128)
    requires
        incr_spec(s, seq![bulk(key)], now, 1).1 matches Ok(RespValue::Integer(_)),
    ensures
        ({
            let (s1, r1) = incr_spec(s, seq![bulk(key)], now, 1);
            let (s2, r2) = incr_spec(s1, seq![bulk(key)], now, -1);
            let live = settle(s, key, now);
            let before = if live.data.contains_key(key) {
                live.data[key]->Single_0
            } else {
                seq![48u8]
            };
            let n = counter_value(before)->Ok_0;
            &&& counter_value(before) is Ok
            &&& r2 == Ok::<RespValue, Fault>(RespValue::Integer(n as int))
            &&& s2.data[key] == ValueModel::Single(signed_decimal(n as int))
            &&& s2.expiry == live.expiry
        }),
{
    lemma_bulk_text(key);
    let live = settle(s, key, now);
    let before = if live.data.contains_key(key) {
        live.data[key]->Single_0
    } else {
        seq![48u8]
    };
    let n = counter_value(before)->Ok_0;
    let m = n + 1;
    assert(i64::MIN <= m <= i64::MAX);
    lemma_signed_decimal_round_trip(m as int);
    assert(counter_value(signed_decimal(m as int)) == Ok::<i64, Fault>(m as i64));
}

/// `INCR` on a key whose expiry has passed evicts it and then counts from
/// 0: the reply is 1, the key holds "1" and has no expiry.
pub proof fn lemma_incr_expired(s: Store, key: Seq<char>, now: u128)
    requires
        expired(s, key, now),
    ensures
        ({
            let (s1, r1) = incr_spec(s, seq![bulk(key)], now, 1);
            &&& r1 == Ok::<RespValue, Fault>(RespValue::Integer(1))
            &&& s1.data[key] == ValueModel::Single(seq![49u8])
            &&& !s1.expiry.contains_key(key)
        }),
{
    lemma_bulk_text(key);
    lemma_zero_counter();
    reveal_with_fuel(crate::decimal::decimal, 2);
    assert(signed_decimal(1) =~= seq![49u8]);
}

/// `INCR` on a key that holds a list fails and changes nothing.
pub proof fn lemma_incr_on_list(s: Store, key: Seq<char>, now: u128)
    requires
        s.data.contains_key(key),
        s.data[key] is List,
        !expired(s, key, now),
    ensures
        incr_spec(s, seq![bulk(key)], now, 1) == (s, Err::<RespValue, Fault>(Fault::Other(wrong_type_single()))),
{
    lemma_bulk_text(key);
}

/// The arguments of `LPUSH`/`RPUSH key element...`.
pub open spec fn push_args(key: Seq<char>, elems: Seq<Seq<u8>>) -> Seq<RespValue> {
    seq![bulk(key)] + elems.map_values(|e: Seq<u8>| RespValue::BulkString(Some(e)))
}

proof fn lemma_push_args(key: Seq<char>, elems: Seq<Seq<u8>>)
    ensures
        push_args(key, elems).len() == elems.len() + 1,
        text_of(push_args(key, elems)[0]) == Ok::<Seq<char>, Fault>(key),
        contents(push_args(key, elems).subrange(1, elems.len() + 1int)) == Ok::<Seq<Seq<u8>>, Fault>(elems),
    decreases elems.len(),
{
    let args = push_args(key, elems);
    lemma_bulk_text(key);
    assert(args.subrange(1, elems.len() + 1int) =~= elems.map_values(|e: Seq<u8>| RespValue::BulkString(Some(e))));
    lemma_contents_of_bulks(elems);
}

proof fn lemma_contents_of_bulks(elems: Seq<Seq<u8>>)
    ensures
        contents(elems.map_values(|e: Seq<u8>| RespValue::BulkString(Some(e)))) == Ok::<Seq<Seq<u8>>, Fault>(elems),
    decreases elems.len(),
{
    let m = elems.map_values(|e: Seq<u8>| RespValue::BulkString(Some(e)));
    if elems.len() > 0 {
        lemma_contents_of_bulks(elems.drop_last());
        assert(m.drop_last() =~= elems.drop_last().map_values(|e: Seq<u8>| RespValue::BulkString(Some(e))));
        assert(elems.drop_last().push(elems.last()) =~= elems);
    } else {
        assert(elems =~= Seq::<Seq<u8>>::empty());
    }
}

/// `LPUSH` on an absent key leaves the elements in reverse order; `RPUSH`
/// leaves them in the order given. Each replies with the list's length.
pub proof fn lemma_push_order(s: Store, key: Seq<char>, elems: Seq<Seq<u8>>, now: u128)
    requires
        !s.data.contains_key(key),
        0 < elems.len() <= i64::MAX,
    ensures
        push_spec(s, push_args(key, elems), now, true).0.data[key] == ValueModel::List(elems.reverse()),
        push_spec(s, push_args(key, elems), now, true).1 == Ok::<RespValue, Fault>(RespValue::Integer(elems.len() as int)),
        push_spec(s, push_args(key, elems), now, false).0.data[key] == ValueModel::List(elems),
        push_spec(s, push_args(key, elems), now, false).1 == Ok::<RespValue, Fault>(RespValue::Integer(elems.len() as int)),
{
    lemma_push_args(key, elems);
    assert(elems.reverse() + Seq::<Seq<u8>>::empty() =~= elems.reverse());
    assert(Seq::<Seq<u8>>::empty() + elems =~= elems);
}

/// A second `RPUSH` appends after what the first one pushed.
pub proof fn lemma_rpush_appends(s: Store, key: Seq<char>, first: Seq<Seq<u8>>, second: Seq<Seq<u8>>, now: u128)
    requires
        !s.data.contains_key(key),
        !s.expiry.contains_key(key),
        first.len() > 0,
        second.len() > 0,
        first.len() + second.len() <= i64::MAX,
    ensures
        ({
            let s1 = push_spec(s, push_args(key, first), now, false).0;
            let (s2, r2) = push_spec(s1, push_args(key, second), now, false);
            &&& s2.data[key] == ValueModel::List(first + second)
            &&& r2 == Ok::<RespValue, Fault>(RespValue::Integer(first.len() + second.len() as int))
        }),
{
    lemma_push_args(key, first);
    lemma_push_args(key, second);
    assert(Seq::<Seq<u8>>::empty() + first =~= first);
}

/// How many of `keys` the data holds.
pub open spec fn present_count(data: Map<Seq<char>, ValueModel>, keys: Seq<Seq<char>>) -> int
    decreases keys.len(),
{
    if keys.len() == 0 {
        0
    } else {
        present_count(data, keys.drop_last()) + if data.contains_key(keys.last()) {
            1int
        } else {
            0int
        }
    }
}

pub open spec fn key_args(keys: Seq<Seq<char>>) -> Seq<RespValue> {
    keys.map_values(|k: Seq<char>| bulk(k))
}

proof fn lemma_del_keys(s: Store, keys: Seq<Seq<char>>)
    requires
        forall|i: int, j: int| 0 <= i < j < keys.len() ==> keys[i] != keys[j],
    ensures
        del_spec(s, key_args(keys)).1 == Ok::<int, Fault>(present_count(s.data, keys)),
        forall|k: Seq<char>| keys.contains(k) ==> !(#[trigger] del_spec(s, key_args(keys)).0.data.contains_key(k)),
        forall|k: Seq<char>| !keys.contains(k) ==> (#[trigger] del_spec(s, key_args(keys)).0.data.contains_key(k)
            == s.data.contains_key(k)),
    decreases keys.len(),
{
    if keys.len() > 0 {
        let init = keys.drop_last();
        lemma_del_keys(s, init);
        assert(key_args(keys).drop_last() =~= key_args(init));
        lemma_bulk_text(keys.last());
        assert(!init.contains(keys.last())) by {
            if init.contains(keys.last()) {
                let i = choose|i: int| 0 <= i < init.len() && init[i] == keys.last();
                assert(keys[i] == keys[keys.len() - 1]);
            }
        }
        assert forall|k: Seq<char>| keys.contains(k) implies !(#[trigger] del_spec(s, key_args(keys)).0.data.contains_key(k)) by {
            if k != keys.last() {
                let i = choose|i: int| 0 <= i < keys.len() && keys[i] == k;
                assert(init[i] == k);
            }
        }
        assert forall|k: Seq<char>| !keys.contains(k) implies (#[trigger] del_spec(s, key_args(keys)).0.data.contains_key(k)
            == s.data.contains_key(k)) by {
            if init.contains(k) {
                let i = choose|i: int| 0 <= i < init.len() && init[i] == k;
                assert(keys[i] == k);
            }
            assert(k != keys[keys.len() - 1]);
        }
    }
}

proof fn lemma_exists_absent(s: Store, keys: Seq<Seq<char>>, now: u128)
    requires
        forall|i: int| 0 <= i < keys.len() ==> !s.data.contains_key(#[trigger] keys[i]),
    ensures
        exists_spec(s, key_args(keys), now).1 == Ok::<int, Fault>(0),
        forall|i: int| 0 <= i < keys.len() ==> !exists_spec(s, key_args(keys), now).0.data.contains_key(#[trigger] keys[i]),
        forall|k: Seq<char>| #[trigger] exists_spec(s, key_args(keys), now).0.data.contains_key(k) ==> s.data.contains_key(k),
    decreases keys.len(),
{
    if keys.len() > 0 {
        let init = keys.drop_last();
        lemma_exists_absent(s, init, now);
        assert(key_args(keys).drop_last() =~= key_args(init));
        lemma_bulk_text(keys.last());
        let s1 = exists_spec(s, key_args(init), now).0;
        assert forall|i: int| 0 <= i < keys.len() implies !exists_spec(s, key_args(keys), now).0.data.contains_key(#[trigger] keys[i]) by {
            if i < keys.len() - 1 {
                assert(init[i] == keys[i]);
            }
        }
    }
}

/// `DEL` on distinct keys counts those that held a value; `EXISTS` on the
/// same keys afterwards counts none.
pub proof fn lemma_del_then_exists(s: Store, keys: Seq<Seq<char>>, now: u128)
    requires
        forall|i: int, j: int| 0 <= i < j < keys.len() ==> keys[i] != keys[j],
    ensures
        del_spec(s, key_args(keys)).1 == Ok::<int, Fault>(present_count(s.data, keys)),
        exists_spec(del_spec(s, key_args(keys)).0, key_args(keys), now).1 == Ok::<int, Fault>(0),
{
    lemma_del_keys(s, keys);
    let s1 = del_spec(s, key_args(keys)).0;
    assert forall|i: int| 0 <= i < keys.len() implies !s1.data.contains_key(#[trigger] keys[i]) by {
        assert(keys.contains(keys[i]));
    }
    lemma_exists_absent(s1, keys, now);
}

/// A message that is not an array of values gets an `Error` reply and
/// changes nothing; so does a request whose command is unknown.
pub proof fn lemma_unknown_requests_fail(s: Store, m: RespValue, now: u128)
    requires
        match m {
            RespValue::Array(Some(parts)) => parts.len() > 0 && text_of(parts[0]) is Ok && {
                let name = lower_of(text_of(parts[0])->Ok_0);
                name != "save"@ && name != "ping"@ && name != "echo"@ && name != "set"@ && name != "get"@
                    && name != "exists"@ && name != "del"@ && name != "incr"@ && name != "decr"@
                    && name != "lpush"@ && name != "rpush"@
            },
            _ => true,
        },
    ensures
        message_spec(s, m, now) == (s, RespValue::Error(if m matches RespValue::Array(Some(_)) {
            "Expected command"@
        } else {
            "Unprocessable message"@
        })),
{
}

/// Commands with too few or too many arguments fail and change nothing.
pub proof fn lemma_wrong_arity_fails(s: Store, args: Seq<RespValue>, now: u128)
    ensures
        args.len() != 1 ==> command_spec(s, "echo"@, args, now) == (s, Err::<RespValue, Fault>(Fault::Other("[echo] expected 1 argument"@))),
        args.len() == 0 ==> command_spec(s, "get"@, args, now) == (s, Err::<RespValue, Fault>(Fault::Other("[get] expected key"@))),
        args.len() == 0 ==> command_spec(s, "incr"@, args, now) == (s, Err::<RespValue, Fault>(Fault::Other("[incr] expected key"@))),
        args.len() == 0 ==> command_spec(s, "decr"@, args, now) == (s, Err::<RespValue, Fault>(Fault::Other("[incr] expected key"@))),
        args.len() < 2 ==> command_spec(s, "lpush"@, args, now) == (s, Err::<RespValue, Fault>(Fault::Other("Expected at least two arguments: key, and list element"@))),
        args.len() < 2 ==> command_spec(s, "rpush"@, args, now) == (s, Err::<RespValue, Fault>(Fault::Other("Expected at least two arguments: key, and list element"@))),
        args.len() < 2 ==> command_spec(s, "set"@, args, now).1 is Err && command_spec(s, "set"@, args, now).0 == s,
{
    reveal_strlit("save");
    reveal_strlit("ping");
    reveal_strlit("echo");
    reveal_strlit("set");
    reveal_strlit("get");
    reveal_strlit("exists");
    reveal_strlit("del");
    reveal_strlit("incr");
    reveal_strlit("decr");
    reveal_strlit("lpush");
    reveal_strlit("rpush");
    let names = seq!["save"@, "ping"@, "echo"@, "set"@, "get"@, "exists"@, "del"@, "incr"@, "decr"@, "lpush"@, "rpush"@];
    assert forall|i: int, j: int| 0 <= i < j < names.len() implies #[trigger] names[i] != #[trigger] names[j] by {
        if names[i].len() == names[j].len() {
            if names[i][0] == names[j][0] {
                assert(names[i][1] != names[j][1]);
            } else {
                assert(names[i][0] != names[j][0]);
            }
        }
    }
    assert(names[2] != names[0] && names[2] != names[1]);
    assert(names[3] != names[0] && names[3] != names[1] && names[3] != names[2]);
    assert(names[4] != names[0] && names[4] != names[1] && names[4] != names[2] && names[4] != names[3]);
    assert(forall|j: int| 0 <= j < 7 ==> names[7] != #[trigger] names[j]);
    assert(forall|j: int| 0 <= j < 8 ==> names[8] != #[trigger] names[j]);
    assert(forall|j: int| 0 <= j < 9 ==> names[9] != #[trigger] names[j]);
    assert(forall|j: int| 0 <= j < 10 ==> names[10] != #[trigger] names[j]);
}

/// Commands applied to a value of the wrong kind fail and change nothing:
/// `GET` and `INCR` on a list, `LPUSH` and `RPUSH` on a single value.
pub proof fn lemma_wrong_type_fails(s: Store, key: Seq<char>, elems: Seq<Seq<u8>>, now: u128)
    requires
        s.data.contains_key(key),
        !expired(s, key, now),
        elems.len() > 0,
    ensures
        s.data[key] is List ==> get_spec(s, seq![bulk(key)], now) == (s, Err::<RespValue, Fault>(Fault::Other(wrong_type_single()))),
        s.data[key] is List ==> incr_spec(s, seq![bulk(key)], now, 1) == (s, Err::<RespValue, Fault>(Fault::Other(wrong_type_single()))),
        s.data[key] is Single ==> push_spec(s, push_args(key, elems), now, true) == (s, Err::<RespValue, Fault>(Fault::Other("Wrong type. Expected list element, got single."@))),
        s.data[key] is Single ==> push_spec(s, push_args(key, elems), now, false) == (s, Err::<RespValue, Fault>(Fault::Other("Wrong type. Expected list element, got single."@))),
{
    lemma_bulk_text(key);
    lemma_push_args(key, elems);
}

/// Command names are case-insensitive: two requests whose names lowercase
/// alike and whose arguments are the same leave the same store and get the
/// same reply.
pub proof fn lemma_command_case_ignored(s: Store, first: Seq<RespValue>, second: Seq<RespValue>, now: u128)
    requires
        first.len() > 0,
        first.len() == second.len(),
        text_of(first[0]) is Ok,
        text_of(second[0]) is Ok,
        lower_of(text_of(first[0])->Ok_0) == lower_of(text_of(second[0])->Ok_0),
        first.subrange(1, first.len() as int) == second.subrange(1, second.len() as int),
    ensures
        message_spec(s, RespValue::Array(Some(first)), now) == message_spec(
            s,
            RespValue::Array(Some(second)),
            now,
        ),
{
}

} // verus!
