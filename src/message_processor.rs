use std::collections::VecDeque;

use rand::seq::IteratorRandom;

use vstd::prelude::*;
use vstd::string::StringSliceAdditionalSpecFns;
use vstd::utf8::*;

use crate::decimal::{
    decimal, decimal_text, i64_of_text, parse_i64, parse_u128, push_signed_decimal, signed_decimal,
    u128_of_text,
};
use crate::keyed_map::KeyedMap;
use crate::message::{
    content_error, content_of, encode, lemma_message_views_len, lemma_message_views_prefix, message_views, text_of, Message,
    RespValue,
};
use crate::processing_error::{fault_text, Fault, ProcessingError};
use crate::text::{ascii_lowered, lower_of, lowercase, same_text, str_from_utf8};

verus! {

/// What a key holds.
#[derive(Debug, PartialEq)]
pub enum Value {
    Single(Vec<u8>),
    List(VecDeque<Vec<u8>>),
}

/// The model of a stored value.
pub enum ValueModel {
    Single(Seq<u8>),
    List(Seq<Seq<u8>>),
}

impl View for Value {
    type V = ValueModel;

    open spec fn view(&self) -> ValueModel {
        match self {
            Value::Single(b) => ValueModel::Single(b@),
            Value::List(l) => ValueModel::List(l@.map_values(|e: Vec<u8>| e@)),
        }
    }
}

impl<'a> From<&'a str> for Value {
    fn from(content: &'a str) -> (r: Value)
        ensures
            r@ == ValueModel::Single(content.spec_bytes()),
    {
        Value::Single(vstd::slice::slice_to_vec(content.as_bytes()))
    }
}

impl<'a> vstd::std_specs::convert::FromSpecImpl<&'a str> for Value {
    open spec fn obeys_from_spec() -> bool {
        false
    }

    open spec fn from_spec(v: &'a str) -> Value {
        arbitrary()
    }
}

/// The model of the store: what each key holds and when it expires, in
/// milliseconds since the Unix epoch.
pub struct Store {
    pub data: Map<Seq<char>, ValueModel>,
    pub expiry: Map<Seq<char>, u128>,
}

/// A command's result: the reply, or the error reported instead.
pub type Reply = Result<RespValue, Fault>;

/// Whether `key` has a recorded expiry that `now` is past.
pub open spec fn expired(s: Store, key: Seq<char>, now: u128) -> bool {
    s.expiry.contains_key(key) && now > s.expiry[key]
}

/// `key` gone from both the data and the expiry index.
pub open spec fn evict(s: Store, key: Seq<char>) -> Store {
    Store { data: s.data.remove(key), expiry: s.expiry.remove(key) }
}

/// Lazy expiry: an expired key is evicted when it is touched.
pub open spec fn settle(s: Store, key: Seq<char>, now: u128) -> Store {
    if expired(s, key, now) {
        evict(s, key)
    } else {
        s
    }
}

/// The text of argument `i`, or `missing` when there is no such argument.
pub open spec fn arg_text(args: Seq<RespValue>, i: int, missing: Seq<char>) -> Result<Seq<char>, Fault> {
    if 0 <= i < args.len() {
        text_of(args[i])
    } else {
        Err(Fault::Other(missing))
    }
}

/// The absolute expiry that the options of `SET` ask for, if any.
pub open spec fn expire_at(args: Seq<RespValue>, now: u128) -> Result<Option<u128>, Fault> {
    if args.len() < 3 {
        Ok(None)
    } else {
        match arg_text(args, 3, "[set] expected value when using expire"@) {
            Err(f) => Err(f),
            Ok(t) => match u128_of_text(encode_utf8(t)) {
                None => Err(Fault::InvalidInteger),
                Some(n) => match text_of(args[2]) {
                    Err(f) => Err(f),
                    Ok(kind) => match expiry_for(lower_of(kind), n, now) {
                        Ok(at) => Ok(Some(at)),
                        Err(f) => Err(f),
                    },
                },
            },
        }
    }
}

/// The absolute expiry, in milliseconds since the Unix epoch, that a `SET`
/// option (lowercased) with amount `n` gives at time `now`.
pub open spec fn expiry_for(option: Seq<char>, n: u128, now: u128) -> Result<u128, Fault> {
    let at: int = if option == "ex"@ {
        now + n * 1000
    } else if option == "px"@ {
        now + n
    } else if option == "exat"@ {
        n * 1000
    } else {
        n as int
    };
    if option != "ex"@ && option != "px"@ && option != "exat"@ && option != "pxat"@ {
        Err(Fault::Other("[set] unsupported expire option"@))
    } else if at > u128::MAX {
        Err(Fault::InvalidInteger)
    } else {
        Ok(at as u128)
    }
}

/// `SET key value [EX s | PX ms | EXAT s | PXAT ms]`.
pub open spec fn set_spec(s: Store, args: Seq<RespValue>, now: u128) -> (Store, Reply) {
    match arg_text(args, 0, "[set] expected key"@) {
        Err(f) => (s, Err(f)),
        Ok(key) => if args.len() < 2 {
            (s, Err(Fault::Other("[set] expected value"@)))
        } else {
            match content_of(args[1]) {
                None => (s, Err(Fault::Other(content_error(args[1])))),
                Some(v) => match expire_at(args, now) {
                    Err(f) => (s, Err(f)),
                    Ok(e) => (
                        Store {
                            data: s.data.insert(key, ValueModel::Single(v)),
                            expiry: match e {
                                Some(t) => s.expiry.insert(key, t),
                                None => s.expiry.remove(key),
                            },
                        },
                        Ok(RespValue::SimpleString("OK"@)),
                    ),
                },
            }
        },
    }
}

/// `GET key`.
pub open spec fn get_spec(s: Store, args: Seq<RespValue>, now: u128) -> (Store, Reply) {
    match arg_text(args, 0, "[get] expected key"@) {
        Err(f) => (s, Err(f)),
        Ok(key) => if expired(s, key, now) {
            (evict(s, key), Ok(RespValue::BulkString(None)))
        } else if !s.data.contains_key(key) {
            (s, Ok(RespValue::BulkString(None)))
        } else {
            match s.data[key] {
                ValueModel::Single(b) => (s, Ok(RespValue::BulkString(Some(b)))),
                ValueModel::List(_) => (s, Err(Fault::Other(wrong_type_single()))),
            }
        },
    }
}

/// `EXISTS key...`: each key is settled, then counted if present.
pub open spec fn exists_spec(s: Store, args: Seq<RespValue>, now: u128) -> (Store, Result<int, Fault>)
    decreases args.len(),
{
    if args.len() == 0 {
        (s, Ok(0))
    } else {
        let (s1, r1) = exists_spec(s, args.drop_last(), now);
        match r1 {
            Err(f) => (s1, Err(f)),
            Ok(c) => match text_of(args.last()) {
                Err(f) => (s1, Err(f)),
                Ok(key) => {
                    let s2 = settle(s1, key, now);
                    (s2, Ok(c + if s2.data.contains_key(key) { 1int } else { 0int }))
                },
            },
        }
    }
}

/// `DEL key...`: each key is removed, and counted if it was present.
pub open spec fn del_spec(s: Store, args: Seq<RespValue>) -> (Store, Result<int, Fault>)
    decreases args.len(),
{
    if args.len() == 0 {
        (s, Ok(0))
    } else {
        let (s1, r1) = del_spec(s, args.drop_last());
        match r1 {
            Err(f) => (s1, Err(f)),
            Ok(c) => match text_of(args.last()) {
                Err(f) => (s1, Err(f)),
                Ok(key) => (
                    evict(s1, key),
                    Ok(c + if s1.data.contains_key(key) { 1int } else { 0int }),
                ),
            },
        }
    }
}

/// The number that a counter holds, or why it holds none.
pub open spec fn counter_value(b: Seq<u8>) -> Result<i64, Fault> {
    match i64_of_text(b) {
        Some(n) => Ok(n),
        None => if valid_utf8(b) {
            Err(Fault::InvalidInteger)
        } else {
            Err(Fault::InvalidUtf8)
        },
    }
}

/// `INCR key` (`delta` 1) and `DECR key` (`delta` -1); an absent key counts
/// as 0.
pub open spec fn incr_spec(s: Store, args: Seq<RespValue>, now: u128, delta: int) -> (Store, Reply) {
    match arg_text(args, 0, "[incr] expected key"@) {
        Err(f) => (s, Err(f)),
        Ok(key) => {
            let s1 = settle(s, key, now);
            if s1.data.contains_key(key) && s1.data[key] is List {
                (s1, Err(Fault::Other(wrong_type_single())))
            } else {
                let text = if s1.data.contains_key(key) {
                    s1.data[key]->Single_0
                } else {
                    seq![48u8]
                };
                match counter_value(text) {
                    Err(f) => (s1, Err(f)),
                    Ok(n) => {
                        let m = n + delta;
                        if m < i64::MIN || m > i64::MAX {
                            (s1, Err(Fault::Other("increment or decrement would overflow"@)))
                        } else {
                            (
                                Store {
                                    data: s1.data.insert(key, ValueModel::Single(signed_decimal(m))),
                                    expiry: s1.expiry,
                                },
                                Ok(RespValue::Integer(m)),
                            )
                        }
                    },
                }
            }
        },
    }
}

/// The contents of all the arguments, when each has one.
pub open spec fn contents(args: Seq<RespValue>) -> Result<Seq<Seq<u8>>, Fault>
    decreases args.len(),
{
    if args.len() == 0 {
        Ok(Seq::empty())
    } else {
        match contents(args.drop_last()) {
            Err(f) => Err(f),
            Ok(c) => match content_of(args.last()) {
                Some(b) => Ok(c.push(b)),
                None => Err(Fault::Other(content_error(args.last()))),
            },
        }
    }
}

/// The error text for a key that holds a list where a single value is
/// needed.
pub open spec fn wrong_type_single() -> Seq<char> {
    "Wrong type. Expected single element, got list."@
}

/// `LPUSH key element...` (`front`) and `RPUSH key element...`.
pub open spec fn push_spec(s: Store, args: Seq<RespValue>, now: u128, front: bool) -> (Store, Reply) {
    if args.len() <= 1 {
        (s, Err(Fault::Other("Expected at least two arguments: key, and list element"@)))
    } else {
        match text_of(args[0]) {
            Err(f) => (s, Err(f)),
            Ok(key) => {
                let s1 = settle(s, key, now);
                if s1.data.contains_key(key) && s1.data[key] is Single {
                    (s1, Err(Fault::Other("Wrong type. Expected list element, got single."@)))
                } else {
                    match contents(args.subrange(1, args.len() as int)) {
                        Err(f) => (s1, Err(f)),
                        Ok(elems) => {
                            let before = if s1.data.contains_key(key) {
                                s1.data[key]->List_0
                            } else {
                                Seq::empty()
                            };
                            let after = if front {
                                elems.reverse() + before
                            } else {
                                before + elems
                            };
                            if after.len() > i64::MAX {
                                (s1, Err(Fault::Other("list too long"@)))
                            } else {
                                (
                                    Store {
                                        data: s1.data.insert(key, ValueModel::List(after)),
                                        expiry: s1.expiry,
                                    },
                                    Ok(RespValue::Integer(after.len() as int)),
                                )
                            }
                        }
                    }
                }
            },
        }
    }
}

/// A count as an integer reply.
pub open spec fn count_reply(r: Result<int, Fault>) -> Reply {
    match r {
        Ok(c) => if c <= i64::MAX {
            Ok(RespValue::Integer(c))
        } else {
            Err(Fault::Other("count out of range"@))
        },
        Err(f) => Err(f),
    }
}

/// `ECHO text`.
pub open spec fn echo_spec(args: Seq<RespValue>) -> Reply {
    if args.len() != 1 {
        Err(Fault::Other("[echo] expected 1 argument"@))
    } else {
        match text_of(args[0]) {
            Err(f) => Err(f),
            Ok(t) => Ok(RespValue::BulkString(Some(encode_utf8(t)))),
        }
    }
}

/// A command, by its lowercased name, with its arguments.
pub open spec fn command_spec(s: Store, name: Seq<char>, args: Seq<RespValue>, now: u128) -> (Store, Reply) {
    if name == "save"@ {
        (s, Ok(RespValue::SimpleString("OK"@)))
    } else if name == "ping"@ {
        (s, Ok(RespValue::SimpleString("PONG"@)))
    } else if name == "echo"@ {
        (s, echo_spec(args))
    } else if name == "set"@ {
        set_spec(s, args, now)
    } else if name == "get"@ {
        get_spec(s, args, now)
    } else if name == "exists"@ {
        let (s1, r) = exists_spec(s, args, now);
        (s1, count_reply(r))
    } else if name == "del"@ {
        let (s1, r) = del_spec(s, args);
        (s1, count_reply(r))
    } else if name == "incr"@ {
        incr_spec(s, args, now, 1)
    } else if name == "decr"@ {
        incr_spec(s, args, now, -1)
    } else if name == "lpush"@ {
        push_spec(s, args, now, true)
    } else if name == "rpush"@ {
        push_spec(s, args, now, false)
    } else {
        (s, Err(Fault::Other("Expected command"@)))
    }
}

/// A request: an array whose first element names the command.
pub open spec fn request_spec(s: Store, parts: Seq<RespValue>, now: u128) -> (Store, Reply) {
    if parts.len() == 0 {
        (s, Err(Fault::Other("Vector is empty"@)))
    } else {
        match text_of(parts[0]) {
            Err(f) => (s, Err(f)),
            Ok(name) => command_spec(s, lower_of(name), parts.subrange(1, parts.len() as int), now),
        }
    }
}

/// What a message does to the store, and the reply; a failed command is
/// answered with an `Error` that reports the fault.
pub open spec fn message_spec(s: Store, m: RespValue, now: u128) -> (Store, RespValue) {
    match m {
        RespValue::Array(Some(parts)) => {
            let (s1, r) = request_spec(s, parts, now);
            (s1, match r {
                Ok(v) => v,
                Err(f) => RespValue::Error(fault_text(f)),
            })
        },
        _ => (s, RespValue::Error("Unprocessable message"@)),
    }
}

/// A text as a bulk string.
pub open spec fn bulk(text: Seq<char>) -> RespValue {
    RespValue::BulkString(Some(encode_utf8(text)))
}

/// The command that rebuilds one key: `SET key value [PXAT expiry]` for a
/// single value, `RPUSH key element...` for a list.
pub open spec fn snapshot_command(key: Seq<char>, v: ValueModel, expiry: Option<u128>) -> RespValue {
    match v {
        ValueModel::Single(b) => RespValue::Array(
            Some(
                seq![bulk("SET"@), bulk(key), RespValue::BulkString(Some(b))] + match expiry {
                    Some(t) => seq![bulk("PXAT"@), RespValue::BulkString(Some(decimal(t as nat)))],
                    None => Seq::empty(),
                },
            ),
        ),
        ValueModel::List(l) => RespValue::Array(
            Some(seq![bulk("RPUSH"@), bulk(key)] + l.map_values(|e: Seq<u8>| RespValue::BulkString(Some(e)))),
        ),
    }
}

/// The snapshot of a store: one rebuilding command for each key, in the
/// order of `keys`.
pub open spec fn snapshot_of(s: Store, keys: Seq<Seq<char>>) -> RespValue {
    RespValue::Array(
        Some(
            Seq::new(
                keys.len(),
                |i: int|
                    snapshot_command(
                        keys[i],
                        s.data[keys[i]],
                        if s.expiry.contains_key(keys[i]) {
                            Some(s.expiry[keys[i]])
                        } else {
                            None
                        },
                    ),
            ),
        ),
    )
}

/// For a request whose command name is ASCII text, what lowercasing the
/// name gives: the name with `A` to `Z` made lowercase.
pub open spec fn name_lowering_known(parts: Seq<RespValue>) -> bool {
    parts.len() > 0 && text_of(parts[0]) is Ok && (forall|i: int|
        0 <= i < (text_of(parts[0])->Ok_0).len() ==> (#[trigger] (text_of(parts[0])->Ok_0)[i] as u32) < 128)
        ==> ascii_lowered(text_of(parts[0])->Ok_0, lower_of(text_of(parts[0])->Ok_0))
}

/// Whether a request is `SAVE`.
pub open spec fn asks_save(parts: Seq<RespValue>) -> bool {
    parts.len() > 0 && text_of(parts[0]) is Ok && lower_of(text_of(parts[0])->Ok_0) == "save"@
}

/// Whether a message is a `SAVE` request.
pub open spec fn message_asks_save(m: RespValue) -> bool {
    match m {
        RespValue::Array(Some(parts)) => asks_save(parts),
        _ => false,
    }
}

/// The store after each of `keys` is settled.
pub open spec fn expire_keys(s: Store, keys: Seq<Seq<char>>, now: u128) -> Store
    decreases keys.len(),
{
    if keys.len() == 0 {
        s
    } else {
        settle(expire_keys(s, keys.drop_last(), now), keys.last(), now)
    }
}

/// How many of `keys` had expired when their turn came to be settled.
pub open spec fn expired_count(s: Store, keys: Seq<Seq<char>>, now: u128) -> int
    decreases keys.len(),
{
    if keys.len() == 0 {
        0
    } else {
        expired_count(s, keys.drop_last(), now) + if expired(
            expire_keys(s, keys.drop_last(), now),
            keys.last(),
            now,
        ) {
            1int
        } else {
            0int
        }
    }
}

/// Whether a message gets a reply that is not an error.
pub open spec fn answered(s: Store, m: RespValue, now: u128) -> bool {
    !(message_spec(s, m, now).1 is Error)
}

/// How many of `commands`, processed in turn, get a reply that is not an
/// error.
pub open spec fn answered_count(s: Store, commands: Seq<RespValue>, now: u128) -> int
    decreases commands.len(),
{
    if commands.len() == 0 {
        0
    } else {
        answered_count(s, commands.drop_last(), now) + if answered(
            replay(s, commands.drop_last(), now),
            commands.last(),
            now,
        ) {
            1int
        } else {
            0int
        }
    }
}

/// The store after each of `commands` is processed in turn.
pub open spec fn replay(s: Store, commands: Seq<RespValue>, now: u128) -> Store
    decreases commands.len(),
{
    if commands.len() == 0 {
        s
    } else {
        message_spec(replay(s, commands.drop_last(), now), commands.last(), now).0
    }
}

pub open spec fn reply_of(r: Result<Message, ProcessingError>) -> Reply {
    match r {
        Ok(m) => Ok(m@),
        Err(e) => Err(e.fault()),
    }
}

/// Interprets commands against the store.
pub struct MessageProcessor {
    pub memory: KeyedMap<Value>,
    pub key_expiration: KeyedMap<u128>,
    pub db_file_path: String,
    /// The encoded snapshot that the last `SAVE` asked to be written.
    pub pending_snapshot: Option<Vec<u8>>,
}

impl MessageProcessor {
    pub open spec fn wf(&self) -> bool {
        self.memory.wf() && self.key_expiration.wf()
    }

    /// The model of the store.
    pub open spec fn store(&self) -> Store {
        Store { data: self.memory@.map_values(|v: Value| v@), expiry: self.key_expiration@ }
    }

    /// A processor with an empty store.
    pub fn new(db_file_path: String) -> (r: Self)
        ensures
            r.wf(),
            r.store().data == Map::<Seq<char>, ValueModel>::empty(),
            r.store().expiry == Map::<Seq<char>, u128>::empty(),
            r.db_file_path@ == db_file_path@,
            r.pending_snapshot is None,
    {
        let r = MessageProcessor {
            memory: KeyedMap::new(),
            key_expiration: KeyedMap::new(),
            db_file_path,
            pending_snapshot: None,
        };
        assert(r.store().data =~= Map::<Seq<char>, ValueModel>::empty());
        r
    }

    /// The setup that commands leave alone.
    pub open spec fn same_setup(&self, other: &Self) -> bool {
        self.db_file_path == other.db_file_path && self.pending_snapshot == other.pending_snapshot
    }

    /// Removes `key` and its expiry; tells whether the key held a value.
    fn remove(&mut self, key: &str) -> (r: bool)
        requires
            old(self).wf(),
        ensures
            final(self).wf(),
            final(self).same_setup(old(self)),
            final(self).store() == evict(old(self).store(), key@),
            r == old(self).store().data.contains_key(key@),
    {
        let existed = self.memory.remove(key);
        self.key_expiration.remove(key);
        assert(self.store().data =~= evict(old(self).store(), key@).data);
        existed
    }

    /// Evicts `key` if it has expired; tells whether it is still live.
    fn check_expiration(&mut self, key: &str, now: u128) -> (r: bool)
        requires
            old(self).wf(),
        ensures
            final(self).wf(),
            final(self).same_setup(old(self)),
            final(self).store() == settle(old(self).store(), key@, now),
            r == !expired(old(self).store(), key@, now),
    {
        match self.key_expiration.get(key) {
            Some(timestamp) => {
                if now > *timestamp {
                    self.remove(key);
                    return false;
                }
            },
            None => {},
        }
        true
    }

    /// Stores a single value under `key`, with the given expiry or none.
    fn insert(&mut self, key: &str, value: Vec<u8>, expire_at: Option<u128>)
        requires
            old(self).wf(),
        ensures
            final(self).wf(),
            final(self).same_setup(old(self)),
            final(self).store() == (Store {
                data: old(self).store().data.insert(key@, ValueModel::Single(value@)),
                expiry: match expire_at {
                    Some(t) => old(self).store().expiry.insert(key@, t),
                    None => old(self).store().expiry.remove(key@),
                },
            }),
    {
        let ghost v = value@;
        self.memory.insert(key.to_owned(), Value::Single(value));
        match expire_at {
            Some(t) => {
                self.key_expiration.insert(key.to_owned(), t);
            },
            None => {
                self.key_expiration.remove(key);
            },
        }
        assert(self.store().data =~= old(self).store().data.insert(key@, ValueModel::Single(v)));
    }

    fn command_ping(&self) -> (r: Message)
        ensures
            r@ == RespValue::SimpleString("PONG"@),
    {
        Message::simple_string("PONG")
    }

    fn command_echo(&self, args: &[Message]) -> (r: Result<Message, ProcessingError>)
        ensures
            reply_of(r) == echo_spec(message_views(args@)),
    {
        proof {
            lemma_message_views_len(args@);
        }
        if args.len() != 1 {
            return Err(ProcessingError::Other("[echo] expected 1 argument".to_owned()));
        }
        match args[0].as_str() {
            Ok(text) => Ok(Message::bulk_string(text)),
            Err(e) => Err(e),
        }
    }

    /// The expiry that the options of `SET` ask for.
    fn expire_timestamp(args: &[Message], now: u128) -> (r: Result<Option<u128>, ProcessingError>)
        ensures
            match r {
                Ok(e) => expire_at(message_views(args@), now) == Ok::<Option<u128>, Fault>(e),
                Err(e) => expire_at(message_views(args@), now) == Err::<Option<u128>, Fault>(e.fault()),
            },
    {
        proof {
            lemma_message_views_len(args@);
        }
        if args.len() < 3 {
            return Ok(None);
        }
        if args.len() < 4 {
            return Err(ProcessingError::Other("[set] expected value when using expire".to_owned()));
        }
        let value_text = match args[3].as_str() {
            Ok(t) => t,
            Err(e) => return Err(e),
        };
        let n = match parse_u128(value_text.as_bytes()) {
            Some(n) => n,
            None => return Err(ProcessingError::InvalidInteger),
        };
        let kind = match args[2].as_str() {
            Ok(t) => t,
            Err(e) => return Err(e),
        };
        let lowered = lowercase(kind);
        match Self::expire_instant(lowered.as_str(), n, now) {
            Ok(at) => Ok(Some(at)),
            Err(e) => Err(e),
        }
    }

    /// The absolute expiry that a `SET` option, already lowercased, with
    /// amount `n` gives at time `now`.
    pub fn expire_instant(option: &str, n: u128, now: u128) -> (r: Result<u128, ProcessingError>)
        ensures
            match r {
                Ok(at) => expiry_for(option@, n, now) == Ok::<u128, Fault>(at),
                Err(e) => expiry_for(option@, n, now) == Err::<u128, Fault>(e.fault()),
            },
    {
        if same_text(option, "ex") {
            if n > (u128::MAX - now) / 1000 {
                assert(now + n * 1000 > u128::MAX) by (nonlinear_arith)
                    requires n > (u128::MAX - now) / 1000;
                return Err(ProcessingError::InvalidInteger);
            }
            assert(n * 1000 <= u128::MAX - now) by (nonlinear_arith)
                requires n <= (u128::MAX - now) / 1000;
            Ok(now + n * 1000)
        } else if same_text(option, "px") {
            if n > u128::MAX - now {
                return Err(ProcessingError::InvalidInteger);
            }
            Ok(now + n)
        } else if same_text(option, "exat") {
            if n > u128::MAX / 1000 {
                assert(n * 1000 > u128::MAX) by (nonlinear_arith)
                    requires n > u128::MAX / 1000;
                return Err(ProcessingError::InvalidInteger);
            }
            assert(n * 1000 <= u128::MAX) by (nonlinear_arith)
                requires n <= u128::MAX / 1000;
            Ok(n * 1000)
        } else if same_text(option, "pxat") {
            Ok(n)
        } else {
            Err(ProcessingError::Other("[set] unsupported expire option".to_owned()))
        }
    }

    fn command_set(&mut self, args: &[Message], now: u128) -> (r: Result<Message, ProcessingError>)
        requires
            old(self).wf(),
        ensures
            final(self).wf(),
            final(self).same_setup(old(self)),
            (final(self).store(), reply_of(r)) == set_spec(old(self).store(), message_views(args@), now),
    {
        proof {
            lemma_message_views_len(args@);
        }
        if args.len() < 1 {
            return Err(ProcessingError::Other("[set] expected key".to_owned()));
        }
        let key = match args[0].as_str() {
            Ok(k) => k,
            Err(e) => return Err(e),
        };
        if args.len() < 2 {
            return Err(ProcessingError::Other("[set] expected value".to_owned()));
        }
        let value = match args[1].extract_bulk_content() {
            Ok(v) => v,
            Err(e) => return Err(e),
        };
        let expire = match Self::expire_timestamp(args, now) {
            Ok(e) => e,
            Err(e) => return Err(e),
        };
        self.insert(key, vstd::slice::slice_to_vec(value), expire);
        Ok(Message::simple_string("OK"))
    }

    fn command_get(&mut self, args: &[Message], now: u128) -> (r: Result<Message, ProcessingError>)
        requires
            old(self).wf(),
        ensures
            final(self).wf(),
            final(self).same_setup(old(self)),
            (final(self).store(), reply_of(r)) == get_spec(old(self).store(), message_views(args@), now),
    {
        proof {
            lemma_message_views_len(args@);
        }
        if args.len() < 1 {
            return Err(ProcessingError::Other("[get] expected key".to_owned()));
        }
        let key = match args[0].as_str() {
            Ok(k) => k,
            Err(e) => return Err(e),
        };
        if !self.check_expiration(key, now) {
            return Ok(Message::BulkString(None));
        }
        match self.memory.get(key) {
            Some(Value::Single(content)) => Ok(Message::BulkString(Some(content.clone()))),
            Some(Value::List(_)) => Err(
                ProcessingError::Other("Wrong type. Expected single element, got list.".to_owned()),
            ),
            None => Ok(Message::BulkString(None)),
        }
    }

    fn command_exists(&mut self, args: &[Message], now: u128) -> (r: Result<Message, ProcessingError>)
        requires
            old(self).wf(),
        ensures
            final(self).wf(),
            final(self).same_setup(old(self)),
            final(self).store() == exists_spec(old(self).store(), message_views(args@), now).0,
            reply_of(r) == count_reply(exists_spec(old(self).store(), message_views(args@), now).1),
    {
        proof {
            lemma_message_views_len(args@);
        }
        let mut count: usize = 0;
        let mut i: usize = 0;
        while i < args.len()
            invariant
                0 <= i <= args@.len(),
                count <= i,
                self.wf(),
                self.same_setup(old(self)),
                (self.store(), Ok::<int, Fault>(count as int)) == exists_spec(
                    old(self).store(),
                    message_views(args@.subrange(0, i as int)),
                    now,
                ),
            decreases args@.len() - i,
        {
            let ghost prefix = args@.subrange(0, i + 1);
            assert(prefix.drop_last() =~= args@.subrange(0, i as int));
            assert(message_views(prefix).drop_last() =~= message_views(prefix.drop_last()));
            let key = match args[i].as_str() {
                Ok(k) => k,
                Err(e) => {
                    proof {
                        lemma_message_views_len(args@);
                        lemma_message_views_prefix(args@, i + 1);
                        lemma_exists_stops(old(self).store(), message_views(args@), i as int, now);
                    }
                    return Err(e);
                },
            };
            self.check_expiration(key, now);
            if self.memory.contains_key(key) {
                count = count + 1;
            }
            i = i + 1;
        }
        assert(args@.subrange(0, i as int) =~= args@);
        if count as u64 > 9223372036854775807u64 {
            return Err(ProcessingError::Other("count out of range".to_owned()));
        }
        Ok(Message::Integer(count as i64))
    }

    fn command_del(&mut self, args: &[Message]) -> (r: Result<Message, ProcessingError>)
        requires
            old(self).wf(),
        ensures
            final(self).wf(),
            final(self).same_setup(old(self)),
            final(self).store() == del_spec(old(self).store(), message_views(args@)).0,
            reply_of(r) == count_reply(del_spec(old(self).store(), message_views(args@)).1),
    {
        proof {
            lemma_message_views_len(args@);
        }
        let mut removed: usize = 0;
        let mut i: usize = 0;
        while i < args.len()
            invariant
                0 <= i <= args@.len(),
                removed <= i,
                self.wf(),
                self.same_setup(old(self)),
                (self.store(), Ok::<int, Fault>(removed as int)) == del_spec(
                    old(self).store(),
                    message_views(args@.subrange(0, i as int)),
                ),
            decreases args@.len() - i,
        {
            let ghost prefix = args@.subrange(0, i + 1);
            assert(prefix.drop_last() =~= args@.subrange(0, i as int));
            assert(message_views(prefix).drop_last() =~= message_views(prefix.drop_last()));
            let key = match args[i].as_str() {
                Ok(k) => k,
                Err(e) => {
                    proof {
                        lemma_message_views_len(args@);
                        lemma_message_views_prefix(args@, i + 1);
                        lemma_del_stops(old(self).store(), message_views(args@), i as int);
                    }
                    return Err(e);
                },
            };
            if self.remove(key) {
                removed = removed + 1;
            }
            i = i + 1;
        }
        assert(args@.subrange(0, i as int) =~= args@);
        if removed as u64 > 9223372036854775807u64 {
            return Err(ProcessingError::Other("count out of range".to_owned()));
        }
        Ok(Message::Integer(removed as i64))
    }

    fn command_incr(&mut self, args: &[Message], now: u128) -> (r: Result<Message, ProcessingError>)
        requires
            old(self).wf(),
        ensures
            final(self).wf(),
            final(self).same_setup(old(self)),
            (final(self).store(), reply_of(r)) == incr_spec(old(self).store(), message_views(args@), now, 1),
    {
        self.step_counter(args, now, 1)
    }

    fn command_decr(&mut self, args: &[Message], now: u128) -> (r: Result<Message, ProcessingError>)
        requires
            old(self).wf(),
        ensures
            final(self).wf(),
            final(self).same_setup(old(self)),
            (final(self).store(), reply_of(r)) == incr_spec(old(self).store(), message_views(args@), now, -1),
    {
        self.step_counter(args, now, -1)
    }

    /// Adds `delta` to the counter under the first argument.
    fn step_counter(&mut self, args: &[Message], now: u128, delta: i64) -> (r: Result<Message, ProcessingError>)
        requires
            old(self).wf(),
            delta == 1 || delta == -1,
        ensures
            final(self).wf(),
            final(self).same_setup(old(self)),
            (final(self).store(), reply_of(r)) == incr_spec(old(self).store(), message_views(args@), now, delta as int),
    {
        proof {
            lemma_message_views_len(args@);
        }
        if args.len() < 1 {
            return Err(ProcessingError::Other("[incr] expected key".to_owned()));
        }
        let key = match args[0].as_str() {
            Ok(k) => k,
            Err(e) => return Err(e),
        };
        self.check_expiration(key, now);
        let ghost s1 = self.store();
        let current: Vec<u8> = match self.memory.get(key) {
            Some(Value::List(_)) => {
                return Err(
                    ProcessingError::Other("Wrong type. Expected single element, got list.".to_owned()),
                );
            },
            Some(Value::Single(content)) => vstd::slice::slice_to_vec(content.as_slice()),
            None => {
                let mut zero: Vec<u8> = Vec::new();
                zero.push(48u8);
                assert(zero@ =~= seq![48u8]);
                zero
            },
        };
        let n = match parse_i64(current.as_slice()) {
            Some(n) => n,
            None => {
                return match str_from_utf8(current.as_slice()) {
                    Some(_) => Err(ProcessingError::InvalidInteger),
                    None => Err(ProcessingError::InvalidUtf8),
                };
            },
        };
        if (delta == 1 && n == i64::MAX) || (delta == -1 && n == i64::MIN) {
            return Err(ProcessingError::Other("increment or decrement would overflow".to_owned()));
        }
        let m = n + delta;
        let mut text: Vec<u8> = Vec::new();
        push_signed_decimal(&mut text, m);
        let ghost t = text@;
        assert(t =~= signed_decimal(m as int));
        self.memory.insert(key.to_owned(), Value::Single(text));
        assert(self.store().data =~= s1.data.insert(key@, ValueModel::Single(t)));
        Ok(Message::Integer(m))
    }

    fn command_lpush(&mut self, args: &[Message], now: u128) -> (r: Result<Message, ProcessingError>)
        requires
            old(self).wf(),
        ensures
            final(self).wf(),
            final(self).same_setup(old(self)),
            (final(self).store(), reply_of(r)) == push_spec(old(self).store(), message_views(args@), now, true),
    {
        self.push_elements(args, now, true)
    }

    fn command_rpush(&mut self, args: &[Message], now: u128) -> (r: Result<Message, ProcessingError>)
        requires
            old(self).wf(),
        ensures
            final(self).wf(),
            final(self).same_setup(old(self)),
            (final(self).store(), reply_of(r)) == push_spec(old(self).store(), message_views(args@), now, false),
    {
        self.push_elements(args, now, false)
    }

    /// Pushes the elements after the key to the front (`front`) or the back
    /// of the key's list, in the order given.
    fn push_elements(&mut self, args: &[Message], now: u128, front: bool) -> (r: Result<Message, ProcessingError>)
        requires
            old(self).wf(),
        ensures
            final(self).wf(),
            final(self).same_setup(old(self)),
            (final(self).store(), reply_of(r)) == push_spec(old(self).store(), message_views(args@), now, front),
    {
        proof {
            lemma_message_views_len(args@);
        }
        let ghost views = message_views(args@);
        if args.len() <= 1 {
            return Err(
                ProcessingError::Other("Expected at least two arguments: key, and list element".to_owned()),
            );
        }
        let key = match args[0].as_str() {
            Ok(k) => k,
            Err(e) => return Err(e),
        };
        self.check_expiration(key, now);
        let ghost s1 = self.store();
        let holds_single = match self.memory.get(key) {
            Some(Value::Single(_)) => true,
            _ => false,
        };
        if holds_single {
            return Err(ProcessingError::Other("Wrong type. Expected list element, got single.".to_owned()));
        }
        let elems = match collect_contents(args) {
            Ok(elems) => elems,
            Err(e) => return Err(e),
        };
        let ghost added = elems@.map_values(|e: Vec<u8>| e@);
        let mut list: VecDeque<Vec<u8>> = VecDeque::new();
        let ghost before: Seq<Seq<u8>> = Seq::empty();
        match self.memory.get(key) {
            Some(Value::List(existing)) => {
                proof {
                    before = existing@.map_values(|e: Vec<u8>| e@);
                }
                let mut j: usize = 0;
                while j < existing.len()
                    invariant
                        0 <= j <= existing@.len(),
                        before == existing@.map_values(|e: Vec<u8>| e@),
                        list@.map_values(|e: Vec<u8>| e@) == before.subrange(0, j as int),
                    decreases existing@.len() - j,
                {
                    let item = vstd::slice::slice_to_vec(existing[j].as_slice());
                    assert(item@ == before[j as int]);
                    let ghost prior = list@;
                    list.push_back(item);
                    assert(list@ == prior.push(item));
                    assert(list@.map_values(|e: Vec<u8>| e@) =~= prior.map_values(|e: Vec<u8>| e@).push(item@));
                    assert(list@.map_values(|e: Vec<u8>| e@) =~= before.subrange(0, j + 1));
                    j = j + 1;
                }
                assert(before.subrange(0, j as int) =~= before);
            },
            _ => {
                assert(list@.map_values(|e: Vec<u8>| e@) =~= before);
            },
        }
        let mut k: usize = 0;
        while k < elems.len()
            invariant
                0 <= k <= elems@.len(),
                added == elems@.map_values(|e: Vec<u8>| e@),
                list@.map_values(|e: Vec<u8>| e@) == if front {
                    added.subrange(0, k as int).reverse() + before
                } else {
                    before + added.subrange(0, k as int)
                },
            decreases elems@.len() - k,
        {
            let item = vstd::slice::slice_to_vec(elems[k].as_slice());
            assert(item@ == added[k as int]);
            let ghost prior = list@;
            let ghost prior_view = prior.map_values(|e: Vec<u8>| e@);
            if front {
                list.push_front(item);
                assert(list@ == seq![item] + prior);
                assert(list@.map_values(|e: Vec<u8>| e@) =~= seq![item@] + prior_view);
                assert(added.subrange(0, k + 1).reverse() =~= seq![added[k as int]] + added.subrange(0, k as int).reverse());
                assert(list@.map_values(|e: Vec<u8>| e@) =~= added.subrange(0, k + 1).reverse() + before);
            } else {
                list.push_back(item);
                assert(list@ == prior.push(item));
                assert(list@.map_values(|e: Vec<u8>| e@) =~= prior_view.push(item@));
                assert(list@.map_values(|e: Vec<u8>| e@) =~= before + added.subrange(0, k + 1));
            }
            k = k + 1;
        }
        assert(added.subrange(0, k as int) =~= added);
        let length = list.len();
        if length as u64 > 9223372036854775807u64 {
            return Err(ProcessingError::Other("list too long".to_owned()));
        }
        let ghost after = list@.map_values(|e: Vec<u8>| e@);
        self.memory.insert(key.to_owned(), Value::List(list));
        assert(self.store().data =~= s1.data.insert(key@, ValueModel::List(after)));
        Ok(Message::Integer(length as i64))
    }

    /// The snapshot of the store.
    fn snapshot(&self) -> (r: Message)
        requires
            self.wf(),
        ensures
            r@ == snapshot_of(self.store(), self.memory.key_list()),
    {
        let keys = self.memory.keys();
        let ghost key_list = self.memory.key_list();
        let ghost expected = snapshot_of(self.store(), key_list)->Array_0->Some_0;
        let mut messages: Vec<Message> = Vec::new();
        let mut i: usize = 0;
        while i < keys.len()
            invariant
                0 <= i <= keys@.len(),
                self.wf(),
                self.memory.lists_keys(),
                key_list == self.memory.key_list(),
                keys@.map_values(|k: String| k@) == key_list,
                expected == snapshot_of(self.store(), key_list)->Array_0->Some_0,
                messages@.len() == i,
                forall|t: int| 0 <= t < i ==> #[trigger] messages@[t]@ == expected[t],
            decreases keys@.len() - i,
        {
            let key = keys[i].as_str();
            assert(key@ == key_list[i as int]);
            assert(self.memory@.contains_key(key@));
            let command = self.snapshot_command(key);
            messages.push(Message::Array(Some(command)));
            i = i + 1;
        }
        proof {
            lemma_message_views_len(messages@);
            assert(message_views(messages@) =~= expected);
        }
        Message::Array(Some(messages))
    }

    /// The command that rebuilds `key`.
    fn snapshot_command(&self, key: &str) -> (r: Vec<Message>)
        requires
            self.wf(),
            self.memory@.contains_key(key@),
        ensures
            RespValue::Array(Some(message_views(r@))) == snapshot_command(
                key@,
                self.store().data[key@],
                if self.store().expiry.contains_key(key@) {
                    Some(self.store().expiry[key@])
                } else {
                    None
                },
            ),
    {
        let mut command: Vec<Message> = Vec::new();
        let ghost expected = snapshot_command(
            key@,
            self.store().data[key@],
            if self.store().expiry.contains_key(key@) {
                Some(self.store().expiry[key@])
            } else {
                None
            },
        )->Array_0->Some_0;
        match self.memory.get(key) {
            Some(Value::Single(content)) => {
                command.push(Message::bulk_string("SET"));
                command.push(Message::bulk_string(key));
                command.push(Message::BulkString(Some(content.clone())));
                match self.key_expiration.get(key) {
                    Some(expire_at) => {
                        command.push(Message::bulk_string("PXAT"));
                        command.push(Message::BulkString(Some(decimal_text(*expire_at))));
                    },
                    None => {},
                }
                proof {
                    assert(self.store().data[key@] == ValueModel::Single(content@));
                    lemma_message_views_len(command@);
                    assert(message_views(command@) =~= expected);
                }
                return command;
            },
            Some(Value::List(list)) => {
                command.push(Message::bulk_string("RPUSH"));
                command.push(Message::bulk_string(key));
                let mut j: usize = 0;
                while j < list.len()
                    invariant
                        0 <= j <= list@.len(),
                        command@.len() == 2 + j,
                        command@[0]@ == bulk("RPUSH"@),
                        command@[1]@ == bulk(key@),
                        forall|t: int| 0 <= t < j ==> #[trigger] command@[2 + t]@ == RespValue::BulkString(Some(list@[t]@)),
                    decreases list@.len() - j,
                {
                    command.push(Message::BulkString(Some(vstd::slice::slice_to_vec(list[j].as_slice()))));
                    j = j + 1;
                }
                proof {
                    let l = list@.map_values(|e: Vec<u8>| e@);
                    assert(self.store().data[key@] == ValueModel::List(l));
                    assert(expected =~= seq![bulk("RPUSH"@), bulk(key@)] + l.map_values(|e: Seq<u8>| RespValue::BulkString(Some(e))));
                    lemma_message_views_len(command@);
                    assert forall|t: int| 0 <= t < command@.len() implies #[trigger] message_views(command@)[t] == expected[t] by {
                        if t >= 2 {
                            assert(command@[2 + (t - 2)]@ == RespValue::BulkString(Some(list@[t - 2]@)));
                        }
                    }
                    assert(message_views(command@) =~= expected);
                }
                return command;
            },
            None => {},
        }
        command
    }

    /// Records the encoded snapshot of the store for the caller to write to
    /// the snapshot file.
    fn command_save(&mut self) -> (r: Message)
        requires
            old(self).wf(),
        ensures
            final(self).wf(),
            final(self).store() == old(self).store(),
            final(self).db_file_path == old(self).db_file_path,
            final(self).memory.key_list() == old(self).memory.key_list(),
            final(self).pending_snapshot matches Some(b) && b@ == encode(
                snapshot_of(old(self).store(), old(self).memory.key_list()),
            ),
            r@ == RespValue::SimpleString("OK"@),
    {
        let snapshot = self.snapshot();
        self.pending_snapshot = Some(snapshot.to_bytes());
        Message::simple_string("OK")
    }

    /// Answers one message. A request is an array whose first element names
    /// the command, in any case; anything else, and any failed command, gets
    /// an `Error` reply. `now` is the current time in milliseconds since the
    /// Unix epoch. After `SAVE`, `pending_snapshot` holds the encoded
    /// snapshot to write.
    pub fn process_resp_message(&mut self, message: &Message, now: u128) -> (r: Message)
        requires
            old(self).wf(),
        ensures
            final(self).wf(),
            final(self).db_file_path == old(self).db_file_path,
            final(self).store() == message_spec(old(self).store(), message@, now).0,
            r@ == message_spec(old(self).store(), message@, now).1,
            message@ matches RespValue::Array(Some(parts)) ==> name_lowering_known(parts),
            message_asks_save(message@) ==> (final(self).pending_snapshot matches Some(b) && b@ == encode(
                snapshot_of(old(self).store(), old(self).memory.key_list()),
            )),
            !message_asks_save(message@) ==> final(self).pending_snapshot == old(self).pending_snapshot,
    {
        match message {
            Message::Array(Some(items)) => match self.process_resp_command(items.as_slice(), now) {
                Ok(response) => response,
                Err(e) => Message::Error(e.to_string()),
            },
            _ => Message::error("Unprocessable message"),
        }
    }

    fn process_resp_command(&mut self, parts: &[Message], now: u128) -> (r: Result<Message, ProcessingError>)
        requires
            old(self).wf(),
        ensures
            final(self).wf(),
            final(self).db_file_path == old(self).db_file_path,
            (final(self).store(), reply_of(r)) == request_spec(old(self).store(), message_views(parts@), now),
            asks_save(message_views(parts@)) ==> (final(self).pending_snapshot matches Some(b) && b@ == encode(
                snapshot_of(old(self).store(), old(self).memory.key_list()),
            )),
            !asks_save(message_views(parts@)) ==> final(self).pending_snapshot == old(self).pending_snapshot,
            name_lowering_known(message_views(parts@)),
    {
        proof {
            lemma_message_views_len(parts@);
        }
        let (command, args) = match split_to_command_args(parts) {
            Ok(split) => split,
            Err(e) => return Err(e),
        };
        proof {
            assert(message_views(args@) =~= message_views(parts@).subrange(1, parts@.len() as int)) by {
                lemma_message_views_len(args@);
            }
        }
        let name = match command.as_str() {
            Ok(name) => name,
            Err(e) => return Err(e),
        };
        let lowered = lowercase(name);
        self.execute_command(lowered.as_str(), args, now)
    }

    /// Runs the command named `name`, already lowercased, on `args`.
    pub fn execute_command(&mut self, name: &str, args: &[Message], now: u128) -> (r: Result<Message, ProcessingError>)
        requires
            old(self).wf(),
        ensures
            final(self).wf(),
            final(self).db_file_path == old(self).db_file_path,
            (final(self).store(), reply_of(r)) == command_spec(old(self).store(), name@, message_views(args@), now),
            name@ == "save"@ ==> (final(self).pending_snapshot matches Some(b) && b@ == encode(
                snapshot_of(old(self).store(), old(self).memory.key_list()),
            )),
            name@ != "save"@ ==> final(self).pending_snapshot == old(self).pending_snapshot,
    {
        if same_text(name, "save") {
            Ok(self.command_save())
        } else if same_text(name, "ping") {
            Ok(self.command_ping())
        } else if same_text(name, "echo") {
            self.command_echo(args)
        } else if same_text(name, "set") {
            self.command_set(args, now)
        } else if same_text(name, "get") {
            self.command_get(args, now)
        } else if same_text(name, "exists") {
            self.command_exists(args, now)
        } else if same_text(name, "del") {
            self.command_del(args)
        } else if same_text(name, "incr") {
            self.command_incr(args, now)
        } else if same_text(name, "decr") {
            self.command_decr(args, now)
        } else if same_text(name, "lpush") {
            self.command_lpush(args, now)
        } else if same_text(name, "rpush") {
            self.command_rpush(args, now)
        } else {
            Err(ProcessingError::Other("Expected command".to_owned()))
        }
    }

    /// Evicts those of `sample` whose expiry `now` is past; gives how many
    /// went.
    pub fn remove_expired(&mut self, sample: &Vec<String>, now: u128) -> (r: usize)
        requires
            old(self).wf(),
        ensures
            final(self).wf(),
            final(self).same_setup(old(self)),
            final(self).store() == expire_keys(old(self).store(), sample@.map_values(|k: String| k@), now),
            r == expired_count(old(self).store(), sample@.map_values(|k: String| k@), now),
    {
        let ghost keys = sample@.map_values(|k: String| k@);
        let mut removed: usize = 0;
        let mut i: usize = 0;
        while i < sample.len()
            invariant
                0 <= i <= sample@.len(),
                removed <= i,
                removed == expired_count(old(self).store(), keys.subrange(0, i as int), now),
                keys == sample@.map_values(|k: String| k@),
                self.wf(),
                self.same_setup(old(self)),
                self.store() == expire_keys(old(self).store(), keys.subrange(0, i as int), now),
            decreases sample@.len() - i,
        {
            assert(keys.subrange(0, i + 1).drop_last() =~= keys.subrange(0, i as int));
            if !self.check_expiration(sample[i].as_str(), now) {
                removed = removed + 1;
            }
            i = i + 1;
        }
        assert(keys.subrange(0, i as int) =~= keys);
        removed
    }

    /// One round of the background sweep: checks up to `amount` keys with
    /// an expiry, drawn at random, and evicts those that have expired.
    pub fn expire_sample(&mut self, amount: usize, now: u128) -> (r: usize)
        requires
            old(self).wf(),
        ensures
            final(self).wf(),
            final(self).same_setup(old(self)),
            exists|ks: Seq<Seq<char>>|
                #![trigger expire_keys(old(self).store(), ks, now)]
                {
                    &&& ks.len() == if amount < old(self).store().expiry.len() {
                        amount as int
                    } else {
                        old(self).store().expiry.len() as int
                    }
                    &&& ks.no_duplicates()
                    &&& forall|i: int| 0 <= i < ks.len() ==> old(self).store().expiry.contains_key(#[trigger] ks[i])
                    &&& final(self).store() == expire_keys(old(self).store(), ks, now)
                    &&& r == expired_count(old(self).store(), ks, now)
                },
    {
        let keys = self.key_expiration.keys();
        let count = if amount < keys.len() {
            amount
        } else {
            keys.len()
        };
        let sample = sample_keys(keys, count);
        let ghost ks = sample@.map_values(|k: String| k@);
        proof {
            let kl = keys@.map_values(|k: String| k@);
            assert(kl.no_duplicates()) by {
                assert forall|i: int, j: int| 0 <= i < kl.len() && 0 <= j < kl.len() && i != j implies kl[i] != kl[j] by {
                    if i < j {
                        assert(self.key_expiration.key_list()[i] != self.key_expiration.key_list()[j]);
                    } else {
                        assert(self.key_expiration.key_list()[j] != self.key_expiration.key_list()[i]);
                    }
                }
            }
            assert forall|i: int| 0 <= i < ks.len() implies old(self).store().expiry.contains_key(#[trigger] ks[i]) by {
                let j = choose|j: int| 0 <= j < keys@.len() && #[trigger] sample@[i]@ == #[trigger] keys@[j]@;
                assert(keys@.map_values(|k: String| k@)[j] == keys@[j]@);
            }
        }
        self.remove_expired(&sample, now)
    }

    /// Replays the commands of a snapshot, an array of requests; gives how
    /// many of them were answered without error.
    pub fn load_snapshot(&mut self, snapshot: &Message, now: u128) -> (r: usize)
        requires
            old(self).wf(),
        ensures
            final(self).wf(),
            final(self).db_file_path == old(self).db_file_path,
            match snapshot@ {
                RespValue::Array(Some(commands)) => final(self).store() == replay(old(self).store(), commands, now)
                    && r == answered_count(old(self).store(), commands, now),
                _ => final(self).store() == old(self).store() && r == 0,
            },
    {
        match snapshot {
            Message::Array(Some(commands)) => {
                proof {
                    lemma_message_views_len(commands@);
                }
                let ghost views = message_views(commands@);
                let mut applied: usize = 0;
                let mut i: usize = 0;
                while i < commands.len()
                    invariant
                        0 <= i <= commands@.len(),
                        applied <= i,
                        applied == answered_count(old(self).store(), views.subrange(0, i as int), now),
                        views == message_views(commands@),
                        views.len() == commands@.len(),
                        forall|j: int| 0 <= j < commands@.len() ==> #[trigger] views[j] == commands@[j]@,
                        self.wf(),
                        self.db_file_path == old(self).db_file_path,
                        self.store() == replay(old(self).store(), views.subrange(0, i as int), now),
                    decreases commands@.len() - i,
                {
                    assert(views.subrange(0, i + 1).drop_last() =~= views.subrange(0, i as int));
                    let reply = self.process_resp_message(&commands[i], now);
                    match reply {
                        Message::Error(_) => {},
                        _ => {
                            applied = applied + 1;
                        },
                    }
                    i = i + 1;
                }
                assert(views.subrange(0, i as int) =~= views);
                applied
            },
            _ => 0,
        }
    }
}

/// Splits a request into the command and its arguments.
fn split_to_command_args<T>(parts: &[T]) -> (r: Result<(&T, &[T]), ProcessingError>)
    ensures
        match r {
            Ok((head, tail)) => parts@.len() > 0 && *head == parts@[0] && tail@ == parts@.subrange(
                1,
                parts@.len() as int,
            ),
            Err(e) => parts@.len() == 0 && e.fault() == Fault::Other("Vector is empty"@),
        },
{
    if parts.len() == 0 {
        return Err(ProcessingError::Other("Vector is empty".to_owned()));
    }
    let (head, tail) = parts.split_at(1);
    Ok((&head[0], tail))
}

/// Relies on rand's `IteratorRandom::choose_multiple`: `amount` of `keys`,
/// drawn at random, each position at most once. `amount` is at most the
/// number of keys, as the capacity that rand reserves for the sample is
/// `amount`.
#[verifier::external_body]
fn sample_keys(keys: &Vec<String>, amount: usize) -> (r: Vec<String>)
    requires
        amount <= keys@.len(),
    ensures
        r@.len() == amount,
        forall|i: int|
            0 <= i < r@.len() ==> exists|j: int| 0 <= j < keys@.len() && #[trigger] r@[i]@ == #[trigger] keys@[j]@,
        keys@.map_values(|k: String| k@).no_duplicates() ==> r@.map_values(|k: String| k@).no_duplicates(),
{
    keys.iter().choose_multiple(&mut rand::thread_rng(), amount).into_iter().cloned().collect()
}

/// Relies on `std::time::SystemTime`: the current time in milliseconds
/// since the Unix epoch; any value may come back.
#[verifier::external_body]
pub fn now() -> u128 {
    std::time::UNIX_EPOCH.elapsed().unwrap_or_default().as_millis()
}

/// The contents of the arguments after the first.
fn collect_contents(args: &[Message]) -> (r: Result<Vec<Vec<u8>>, ProcessingError>)
    requires
        args@.len() >= 1,
    ensures
        ({
            let views = message_views(args@);
            match r {
                Ok(v) => contents(views.subrange(1, views.len() as int)) == Ok::<Seq<Seq<u8>>, Fault>(
                    v@.map_values(|e: Vec<u8>| e@),
                ),
                Err(e) => contents(views.subrange(1, views.len() as int)) == Err::<Seq<Seq<u8>>, Fault>(e.fault()),
            }
        }),
{
    proof {
        lemma_message_views_len(args@);
    }
    let ghost views = message_views(args@);
    let mut elems: Vec<Vec<u8>> = Vec::new();
    let mut i: usize = 1;
    assert(views.subrange(1, 1) =~= Seq::<RespValue>::empty());
    assert(elems@.map_values(|e: Vec<u8>| e@) =~= Seq::<Seq<u8>>::empty());
    while i < args.len()
        invariant
            1 <= i <= args@.len(),
            views == message_views(args@),
            views.len() == args@.len(),
            forall|j: int| 0 <= j < args@.len() ==> #[trigger] views[j] == args@[j]@,
            contents(views.subrange(1, i as int)) == Ok::<Seq<Seq<u8>>, Fault>(elems@.map_values(|e: Vec<u8>| e@)),
        decreases args@.len() - i,
    {
        let ghost prefix = views.subrange(1, i + 1);
        assert(prefix.drop_last() =~= views.subrange(1, i as int));
        match args[i].extract_bulk_content() {
            Ok(b) => {
                elems.push(vstd::slice::slice_to_vec(b));
                assert(elems@.map_values(|e: Vec<u8>| e@) =~= contents(views.subrange(1, i as int))->Ok_0.push(b@));
            },
            Err(e) => {
                proof {
                    assert(views.subrange(1, views.len() as int).subrange(0, i - 1) =~= views.subrange(1, i as int));
                    lemma_contents_stops(views.subrange(1, views.len() as int), i - 1);
                }
                return Err(e);
            },
        }
        i = i + 1;
    }
    assert(views.subrange(1, i as int) =~= views.subrange(1, views.len() as int));
    Ok(elems)
}

proof fn lemma_del_stops(s: Store, args: Seq<RespValue>, i: int)
    requires
        0 <= i < args.len(),
        del_spec(s, args.subrange(0, i + 1)).1 is Err,
    ensures
        del_spec(s, args) == del_spec(s, args.subrange(0, i + 1)),
    decreases args.len() - i,
{
    if i + 1 < args.len() {
        assert(args.drop_last().subrange(0, i + 1) =~= args.subrange(0, i + 1));
        lemma_del_stops(s, args.drop_last(), i);
    } else {
        assert(args.subrange(0, i + 1) =~= args);
    }
}

/// The first argument without content decides the error of the whole
/// sequence.
proof fn lemma_contents_stops(args: Seq<RespValue>, i: int)
    requires
        0 <= i < args.len(),
        contents(args.subrange(0, i)) is Ok,
        content_of(args[i]) is None,
    ensures
        contents(args) == Err::<Seq<Seq<u8>>, Fault>(Fault::Other(content_error(args[i]))),
    decreases args.len() - i,
{
    if i + 1 < args.len() {
        assert(args.drop_last().subrange(0, i) =~= args.subrange(0, i));
        assert(args.drop_last()[i] == args[i]);
        lemma_contents_stops(args.drop_last(), i);
    } else {
        assert(args.drop_last() =~= args.subrange(0, i));
    }
}

/// Once a fold over the arguments has met an error, later arguments leave
/// the store and the error as they are.
proof fn lemma_exists_stops(s: Store, args: Seq<RespValue>, i: int, now: u128)
    requires
        0 <= i < args.len(),
        exists_spec(s, args.subrange(0, i + 1), now).1 is Err,
    ensures
        exists_spec(s, args, now) == exists_spec(s, args.subrange(0, i + 1), now),
    decreases args.len() - i,
{
    if i + 1 < args.len() {
        assert(args.drop_last().subrange(0, i + 1) =~= args.subrange(0, i + 1));
        lemma_exists_stops(s, args.drop_last(), i, now);
    } else {
        assert(args.subrange(0, i + 1) =~= args);
    }
}

} // verus!
