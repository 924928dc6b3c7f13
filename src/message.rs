use vstd::prelude::*;
use vstd::string::StringSliceAdditionalSpecFns;
use vstd::utf8::*;

use crate::decimal::{decimal, push_decimal, push_signed_decimal, signed_decimal};
use crate::processing_error::{Fault, ProcessingError};
use crate::text::str_from_utf8;

verus! {

/// The mathematical model of a RESP value.
pub enum RespValue {
    Array(Option<Seq<RespValue>>),
    BulkString(Option<Seq<u8>>),
    SimpleString(Seq<char>),
    Integer(int),
    Error(Seq<char>),
}

/// A RESP value: what travels on the wire in either direction.
#[derive(Debug, PartialEq)]
pub enum Message {
    Array(Option<Vec<Message>>),
    BulkString(Option<Vec<u8>>),
    SimpleString(String),
    Integer(i64),
    Error(String),
}

pub open spec fn message_views(items: Seq<Message>) -> Seq<RespValue>
    decreases items,
{
    if items.len() == 0 {
        Seq::empty()
    } else {
        message_views(items.drop_last()).push(message_view(items.last()))
    }
}

pub open spec fn message_view(m: Message) -> RespValue
    decreases m,
{
    match m {
        Message::Array(Some(items)) => RespValue::Array(Some(message_views(items@))),
        Message::Array(None) => RespValue::Array(None),
        Message::BulkString(Some(b)) => RespValue::BulkString(Some(b@)),
        Message::BulkString(None) => RespValue::BulkString(None),
        Message::SimpleString(s) => RespValue::SimpleString(s@),
        Message::Integer(i) => RespValue::Integer(i as int),
        Message::Error(s) => RespValue::Error(s@),
    }
}

impl View for Message {
    type V = RespValue;

    open spec fn view(&self) -> RespValue {
        message_view(*self)
    }
}

pub proof fn lemma_message_views_len(items: Seq<Message>)
    ensures
        message_views(items).len() == items.len(),
        forall|i: int| 0 <= i < items.len() ==> #[trigger] message_views(items)[i] == items[i]@,
    decreases items.len(),
{
    if items.len() > 0 {
        lemma_message_views_len(items.drop_last());
    }
}

pub proof fn lemma_message_views_prefix(items: Seq<Message>, k: int)
    requires
        0 <= k <= items.len(),
    ensures
        message_views(items.subrange(0, k)) == message_views(items).subrange(0, k),
{
    lemma_message_views_len(items);
    lemma_message_views_len(items.subrange(0, k));
    assert(message_views(items.subrange(0, k)) =~= message_views(items).subrange(0, k));
}

pub open spec fn crlf() -> Seq<u8> {
    seq![13u8, 10u8]
}

/// The wire encoding of a value.
pub open spec fn encode(v: RespValue) -> Seq<u8>
    decreases v,
{
    match v {
        RespValue::Array(None) => seq![42u8, 45u8, 49u8] + crlf(),
        RespValue::Array(Some(items)) => seq![42u8] + decimal(items.len()) + crlf() + encode_all(
            items,
        ),
        RespValue::BulkString(None) => seq![36u8, 45u8, 49u8] + crlf(),
        RespValue::BulkString(Some(b)) => seq![36u8] + decimal(b.len()) + crlf() + b + crlf(),
        RespValue::SimpleString(t) => seq![43u8] + encode_utf8(t) + crlf(),
        RespValue::Integer(i) => seq![58u8] + signed_decimal(i) + crlf(),
        RespValue::Error(t) => seq![45u8] + encode_utf8(t) + crlf(),
    }
}

/// The encodings of `items`, one after another.
pub open spec fn encode_all(items: Seq<RespValue>) -> Seq<u8>
    decreases items,
{
    if items.len() == 0 {
        Seq::empty()
    } else {
        encode_all(items.drop_last()) + encode(items.last())
    }
}

/// The name of a value's kind.
pub open spec fn kind_name(v: RespValue) -> Seq<char> {
    match v {
        RespValue::Array(_) => "Array"@,
        RespValue::BulkString(_) => "BulkString"@,
        RespValue::SimpleString(_) => "SimpleString"@,
        RespValue::Integer(_) => "Integer"@,
        RespValue::Error(_) => "Error"@,
    }
}

/// The pieces of `s` between single spaces, empty pieces included.
pub open spec fn split_on_space(s: Seq<u8>) -> Seq<Seq<u8>>
    decreases s.len(),
{
    if s.len() == 0 {
        seq![Seq::empty()]
    } else if s.last() == 32u8 {
        split_on_space(s.drop_last()).push(Seq::empty())
    } else {
        let pieces = split_on_space(s.drop_last());
        pieces.update(pieces.len() - 1, pieces.last().push(s.last()))
    }
}

/// The text that `as_str` reads from a value, or the error it reports.
pub open spec fn text_of(v: RespValue) -> Result<Seq<char>, Fault> {
    match v {
        RespValue::BulkString(Some(b)) => if valid_utf8(b) {
            Ok(decode_utf8(b))
        } else {
            Err(Fault::InvalidUtf8)
        },
        RespValue::SimpleString(t) => Ok(t),
        RespValue::BulkString(None) => Err(Fault::Other("Expected bulk string to contain something"@)),
        _ => Err(
            Fault::Other("Invalid message type "@ + kind_name(v) + " expected BulkString or SimpleString"@),
        ),
    }
}

/// The error text for an argument that holds no content to store.
pub open spec fn content_error(v: RespValue) -> Seq<char> {
    "Invalid message type "@ + kind_name(v) + " expected BulkString"@
}

/// The bytes that a command stores from an argument: a bulk string's
/// content, or a simple string's text.
pub open spec fn content_of(v: RespValue) -> Option<Seq<u8>> {
    match v {
        RespValue::BulkString(Some(b)) => Some(b),
        RespValue::SimpleString(t) => Some(encode_utf8(t)),
        _ => None,
    }
}

impl Message {
    pub fn bulk_string(string: &str) -> (r: Message)
        ensures
            r@ == RespValue::BulkString(Some(string.spec_bytes())),
    {
        Message::BulkString(Some(vstd::slice::slice_to_vec(string.as_bytes())))
    }

    pub fn simple_string(string: &str) -> (r: Message)
        ensures
            r@ == RespValue::SimpleString(string@),
    {
        Message::SimpleString(string.to_owned())
    }

    pub fn error(string: &str) -> (r: Message)
        ensures
            r@ == RespValue::Error(string@),
    {
        Message::Error(string.to_owned())
    }

    pub fn array(messages: Vec<Message>) -> (r: Message)
        ensures
            r@ == RespValue::Array(Some(message_views(messages@))),
    {
        Message::Array(Some(messages))
    }

    /// An array of bulk strings, one for each piece of `command` between
    /// spaces.
    pub fn from_cli(command: &str) -> (r: Message)
        ensures
            r@ == RespValue::Array(
                Some(split_on_space(command.spec_bytes()).map_values(|p| RespValue::BulkString(Some(p)))),
            ),
    {
        let bytes = command.as_bytes();
        let ghost f = |p: Seq<u8>| RespValue::BulkString(Some(p));
        let mut messages: Vec<Message> = Vec::new();
        let mut piece: Vec<u8> = Vec::new();
        let mut i: usize = 0;
        while i < bytes.len()
            invariant
                0 <= i <= bytes@.len(),
                bytes@ == command.spec_bytes(),
                f == (|p: Seq<u8>| RespValue::BulkString(Some(p))),
                split_on_space(bytes@.subrange(0, i as int)).len() > 0,
                message_views(messages@) == split_on_space(
                    bytes@.subrange(0, i as int),
                ).drop_last().map_values(f),
                piece@ == split_on_space(bytes@.subrange(0, i as int)).last(),
            decreases bytes@.len() - i,
        {
            let ghost pieces = split_on_space(bytes@.subrange(0, i as int));
            assert(bytes@.subrange(0, i + 1).drop_last() =~= bytes@.subrange(0, i as int));
            let ghost before = messages@;
            let ghost last = piece@;
            if bytes[i] == 32u8 {
                messages.push(Message::BulkString(Some(piece)));
                assert(messages@.drop_last() =~= before);
                assert(messages@.last()@ == f(last));
                assert(message_views(messages@) == message_views(before).push(f(last)));
                assert(pieces.drop_last().map_values(f).push(f(pieces.last())) =~= pieces.map_values(f));
                piece = Vec::new();
                assert(message_views(messages@) =~= pieces.map_values(f));
                assert(split_on_space(bytes@.subrange(0, i + 1)).drop_last() =~= pieces);
            } else {
                piece.push(bytes[i]);
                assert(split_on_space(bytes@.subrange(0, i + 1)).drop_last() =~= pieces.drop_last());
            }
            i = i + 1;
        }
        let ghost pieces = split_on_space(bytes@.subrange(0, i as int));
        let ghost before = messages@;
        let ghost last = piece@;
        messages.push(Message::BulkString(Some(piece)));
        assert(messages@.drop_last() =~= before);
        assert(messages@.last()@ == f(last));
        assert(message_views(messages@) == message_views(before).push(f(last)));
        assert(pieces.drop_last().map_values(f).push(f(pieces.last())) =~= pieces.map_values(f));
        assert(message_views(messages@) =~= pieces.map_values(f));
        assert(bytes@.subrange(0, i as int) =~= bytes@);
        Message::Array(Some(messages))
    }

    pub fn type_as_str(&self) -> (r: &'static str)
        ensures
            r@ == kind_name(self@),
    {
        match self {
            Message::Array(_) => "Array",
            Message::BulkString(_) => "BulkString",
            Message::SimpleString(_) => "SimpleString",
            Message::Integer(_) => "Integer",
            Message::Error(_) => "Error",
        }
    }

    /// The text that the value holds: a bulk string's content read as UTF-8,
    /// or a simple string's text.
    pub fn as_str(&self) -> (r: Result<&str, ProcessingError>)
        ensures
            match r {
                Ok(s) => text_of(self@) == Ok::<Seq<char>, Fault>(s@),
                Err(e) => text_of(self@) == Err::<Seq<char>, Fault>(e.fault()),
            },
    {
        match self {
            Message::BulkString(Some(content)) => match str_from_utf8(content.as_slice()) {
                Some(text) => Ok(text),
                None => Err(ProcessingError::InvalidUtf8),
            },
            Message::BulkString(None) => Err(
                ProcessingError::Other("Expected bulk string to contain something".to_owned()),
            ),
            Message::SimpleString(content) => Ok(content.as_str()),
            _ => {
                let mut text = String::from_str("Invalid message type ");
                text.append(self.type_as_str());
                text.append(" expected BulkString or SimpleString");
                Err(ProcessingError::Other(text))
            },
        }
    }

    /// The bytes that a command stores from this argument.
    pub fn extract_bulk_content(&self) -> (r: Result<&[u8], ProcessingError>)
        ensures
            match r {
                Ok(b) => content_of(self@) == Some(b@),
                Err(e) => content_of(self@) is None && e.fault() == Fault::Other(content_error(self@)),
            },
    {
        match self {
            Message::BulkString(Some(content)) => Ok(content.as_slice()),
            Message::SimpleString(content) => Ok(content.as_str().as_bytes()),
            _ => {
                let mut text = String::from_str("Invalid message type ");
                text.append(self.type_as_str());
                text.append(" expected BulkString");
                Err(ProcessingError::Other(text))
            },
        }
    }

    pub fn as_int(&self) -> (r: Result<i64, ProcessingError>)
        ensures
            match self@ {
                RespValue::Integer(i) => r == Ok::<i64, ProcessingError>(i as i64),
                _ => r matches Err(e) && e.fault() == Fault::Other(
                    "Invalid message type "@ + kind_name(self@) + " expected Integer"@,
                ),
            },
    {
        match self {
            Message::Integer(content) => Ok(*content),
            _ => {
                let mut text = String::from_str("Invalid message type ");
                text.append(self.type_as_str());
                text.append(" expected Integer");
                Err(ProcessingError::Other(text))
            },
        }
    }

    /// Appends the wire encoding of this value to `writer`.
    pub fn write_to(&self, writer: &mut Vec<u8>)
        ensures
            final(writer)@ == old(writer)@ + encode(self@),
        decreases self,
    {
        match self {
            Message::Array(Some(items)) => {
                writer.push(42u8);
                push_decimal(writer, items.len() as u128);
                writer.push(13u8);
                writer.push(10u8);
                let ghost start = writer@;
                proof {
                    lemma_message_views_len(items@);
                }
                let mut i: usize = 0;
                while i < items.len()
                    invariant
                        0 <= i <= items@.len(),
                        *self == Message::Array(Some(*items)),
                        writer@ == start + encode_all(message_views(items@.subrange(0, i as int))),
                    decreases items@.len() - i,
                {
                    proof {
                        let ghost inner = (*self)->Array_0;
                        assert(decreases_to!(*self => inner));
                        assert(decreases_to!(inner => inner->0));
                        assert(decreases_to!(*items => items@));
                        assert(decreases_to!(items@ => items@[i as int]));
                    }
                    items[i].write_to(writer);
                    let ghost prefix = items@.subrange(0, i + 1);
                    assert(prefix.drop_last() =~= items@.subrange(0, i as int));
                    assert(message_views(prefix).drop_last() =~= message_views(prefix.drop_last()));
                    i = i + 1;
                }
                assert(items@.subrange(0, i as int) =~= items@);
                assert(writer@ =~= old(writer)@ + encode(self@));
            },
            Message::Array(None) => {
                writer.push(42u8);
                writer.push(45u8);
                writer.push(49u8);
                writer.push(13u8);
                writer.push(10u8);
                assert(writer@ =~= old(writer)@ + encode(self@));
            },
            Message::BulkString(Some(data)) => {
                writer.push(36u8);
                push_decimal(writer, data.len() as u128);
                writer.push(13u8);
                writer.push(10u8);
                let mut i: usize = 0;
                let ghost start = writer@;
                while i < data.len()
                    invariant
                        0 <= i <= data@.len(),
                        writer@ == start + data@.subrange(0, i as int),
                    decreases data@.len() - i,
                {
                    writer.push(data[i]);
                    i = i + 1;
                    assert(writer@ =~= start + data@.subrange(0, i as int));
                }
                writer.push(13u8);
                writer.push(10u8);
                assert(data@.subrange(0, i as int) =~= data@);
                assert(writer@ =~= old(writer)@ + encode(self@));
            },
            Message::BulkString(None) => {
                writer.push(36u8);
                writer.push(45u8);
                writer.push(49u8);
                writer.push(13u8);
                writer.push(10u8);
                assert(writer@ =~= old(writer)@ + encode(self@));
            },
            Message::SimpleString(value) => {
                writer.push(43u8);
                push_bytes(writer, value.as_str().as_bytes());
                writer.push(13u8);
                writer.push(10u8);
                assert(writer@ =~= old(writer)@ + encode(self@));
            },
            Message::Error(error_message) => {
                writer.push(45u8);
                push_bytes(writer, error_message.as_str().as_bytes());
                writer.push(13u8);
                writer.push(10u8);
                assert(writer@ =~= old(writer)@ + encode(self@));
            },
            Message::Integer(value) => {
                writer.push(58u8);
                push_signed_decimal(writer, *value);
                writer.push(13u8);
                writer.push(10u8);
                assert(writer@ =~= old(writer)@ + encode(self@));
            },
        }
    }

    /// The wire encoding of this value.
    pub fn to_bytes(&self) -> (r: Vec<u8>)
        ensures
            r@ == encode(self@),
    {
        let mut out: Vec<u8> = Vec::new();
        self.write_to(&mut out);
        assert(out@ =~= encode(self@));
        out
    }
}

fn push_bytes(out: &mut Vec<u8>, bytes: &[u8])
    ensures
        final(out)@ == old(out)@ + bytes@,
{
    let mut i: usize = 0;
    while i < bytes.len()
        invariant
            0 <= i <= bytes@.len(),
            out@ == old(out)@ + bytes@.subrange(0, i as int),
        decreases bytes@.len() - i,
    {
        out.push(bytes[i]);
        i = i + 1;
        assert(out@ =~= old(out)@ + bytes@.subrange(0, i as int));
    }
    assert(bytes@.subrange(0, i as int) =~= bytes@);
}

} // verus!
