use vstd::prelude::*;
use vstd::utf8::*;

use crate::decimal::{i64_of_text, parse_i64};
use crate::message::{message_views, Message, RespValue, lemma_message_views_len};
use crate::parse_error::ParseError;
use crate::text::str_from_utf8;

verus! {

/// Where the parser stands within the current token.
#[derive(Debug, Clone, Copy, PartialEq, Eq, Structural)]
pub enum State {
    /// Waiting for the byte that gives the kind of the next value.
    ParseType,
    /// Reading a line that ends in CR LF.
    ReadBuf,
    /// Reading the raw content of a bulk string.
    ReadBulkStringContent,
    /// Waiting for the CR LF after a bulk string's content.
    AwaitBulkStringEnd,
}

/// The kind of value announced by the last type byte.
#[derive(Debug, Clone, Copy, PartialEq, Eq, Structural)]
pub enum MessageType {
    Array,
    BulkString,
    SimpleString,
    Integer,
    Error,
}

/// An array that is still being filled: its elements so far and how many
/// it announced.
struct ArrayStackItem {
    items: Vec<Message>,
    size: usize,
}

/// An incremental RESP parser, fed one byte at a time.
pub struct MessageParser {
    array_stack: Vec<ArrayStackItem>,
    buf: Vec<u8>,
    prev_byte: u8,
    state: State,
    message_type: MessageType,
    bulk_string_size: usize,
}

/// An open array in the model: its elements so far and the announced count.
pub type OpenArray = (Seq<RespValue>, nat);

/// The model of the parser's state.
pub struct ParserModel {
    pub stack: Seq<OpenArray>,
    pub buf: Seq<u8>,
    pub prev: u8,
    pub state: State,
    pub mtype: MessageType,
    pub bulk: nat,
}

/// What one byte yields: an error, nothing yet, or a complete message.
pub type StepResult = Result<Option<RespValue>, ParseError>;

pub open spec fn initial_model() -> ParserModel {
    ParserModel {
        stack: Seq::empty(),
        buf: Seq::empty(),
        prev: 0,
        state: State::ParseType,
        mtype: MessageType::SimpleString,
        bulk: 0,
    }
}

/// The kind that a type byte announces.
pub open spec fn type_of_byte(b: u8) -> Option<MessageType> {
    if b == 42u8 {
        Some(MessageType::Array)
    } else if b == 43u8 {
        Some(MessageType::SimpleString)
    } else if b == 45u8 {
        Some(MessageType::Error)
    } else if b == 58u8 {
        Some(MessageType::Integer)
    } else if b == 36u8 {
        Some(MessageType::BulkString)
    } else {
        None
    }
}

/// Offers a completed value to the innermost open array. Arrays that reach
/// their count close and are offered outward in turn; a value that no open
/// array takes is the complete message.
pub open spec fn offer(stack: Seq<OpenArray>, v: RespValue) -> (Seq<OpenArray>, Option<RespValue>)
    decreases stack.len(),
{
    if stack.len() == 0 {
        (stack, Some(v))
    } else {
        let items = stack.last().0.push(v);
        let size = stack.last().1;
        if items.len() == size {
            offer(stack.drop_last(), RespValue::Array(Some(items)))
        } else {
            (stack.drop_last().push((items, size)), None)
        }
    }
}

/// A value is complete: it is offered to the open arrays, and a complete
/// message resets the parser.
pub open spec fn deliver(p: ParserModel, v: RespValue, b: u8) -> (ParserModel, StepResult) {
    let (stack, out) = offer(p.stack, v);
    match out {
        Some(m) => (initial_model(), Ok(Some(m))),
        None => (ParserModel { stack: stack, prev: b, ..p }, Ok(None)),
    }
}

/// The integer that a header or integer line holds, or why it holds none.
pub open spec fn line_int(line: Seq<u8>) -> Result<i64, ParseError> {
    match i64_of_text(line) {
        Some(n) => Ok(n),
        None => if valid_utf8(line) {
            Err(ParseError::InvalidInteger)
        } else {
            Err(ParseError::InvalidUtf8)
        },
    }
}

/// A line has ended (its CR LF included in `p.buf`); it is read according
/// to the announced kind.
pub open spec fn finish_line(p: ParserModel, b: u8) -> (ParserModel, StepResult) {
    let line = if p.buf.len() >= 2 {
        p.buf.subrange(0, p.buf.len() - 2)
    } else {
        Seq::empty()
    };
    let q = ParserModel { buf: line, state: State::ParseType, ..p };
    match p.mtype {
        MessageType::SimpleString => if valid_utf8(line) {
            deliver(q, RespValue::SimpleString(decode_utf8(line)), b)
        } else {
            (q, Err(ParseError::InvalidUtf8))
        },
        MessageType::Error => if valid_utf8(line) {
            deliver(q, RespValue::Error(decode_utf8(line)), b)
        } else {
            (q, Err(ParseError::InvalidUtf8))
        },
        MessageType::Integer => match line_int(line) {
            Ok(n) => deliver(q, RespValue::Integer(n as int), b),
            Err(e) => (q, Err(e)),
        },
        MessageType::BulkString => match line_int(line) {
            Ok(n) => if n == -1 {
                deliver(q, RespValue::BulkString(None), b)
            } else if 0 <= n <= usize::MAX {
                (
                    ParserModel {
                        bulk: n as nat,
                        buf: Seq::empty(),
                        state: State::ReadBulkStringContent,
                        prev: b,
                        ..q
                    },
                    Ok(None),
                )
            } else {
                (q, Err(ParseError::InvalidInteger))
            },
            Err(e) => (q, Err(e)),
        },
        MessageType::Array => match line_int(line) {
            Ok(n) => if n == -1 {
                deliver(q, RespValue::Array(None), b)
            } else if n == 0 {
                deliver(q, RespValue::Array(Some(Seq::empty())), b)
            } else if 0 < n <= usize::MAX {
                (
                    ParserModel {
                        stack: q.stack.push((Seq::empty(), n as nat)),
                        prev: b,
                        ..q
                    },
                    Ok(None),
                )
            } else {
                (q, Err(ParseError::InvalidInteger))
            },
            Err(e) => (q, Err(e)),
        },
    }
}

/// What feeding byte `b` does to the parser.
pub open spec fn step(p: ParserModel, b: u8) -> (ParserModel, StepResult) {
    match p.state {
        State::ParseType => match type_of_byte(b) {
            Some(t) => (
                ParserModel { mtype: t, buf: Seq::empty(), state: State::ReadBuf, prev: b, ..p },
                Ok(None),
            ),
            None => (p, Err(ParseError::InvalidByte(b))),
        },
        State::ReadBuf => {
            let buf = p.buf.push(b);
            if p.prev == 13u8 && b == 10u8 {
                finish_line(ParserModel { buf: buf, ..p }, b)
            } else {
                (ParserModel { buf: buf, prev: b, ..p }, Ok(None))
            }
        },
        State::ReadBulkStringContent => if p.buf.len() == p.bulk {
            if b == 13u8 {
                (ParserModel { state: State::AwaitBulkStringEnd, prev: b, ..p }, Ok(None))
            } else {
                (p, Err(ParseError::InvalidByte(b)))
            }
        } else {
            (ParserModel { buf: p.buf.push(b), prev: b, ..p }, Ok(None))
        },
        State::AwaitBulkStringEnd => if b == 10u8 {
            deliver(
                ParserModel { state: State::ParseType, ..p },
                RespValue::BulkString(Some(p.buf)),
                b,
            )
        } else {
            (p, Err(ParseError::InvalidByte(b)))
        },
    }
}

/// Feeds `bytes` in order: the state after the last one, and what each byte
/// yielded.
pub open spec fn feed(p: ParserModel, bytes: Seq<u8>) -> (ParserModel, Seq<StepResult>)
    decreases bytes.len(),
{
    if bytes.len() == 0 {
        (p, Seq::empty())
    } else {
        let (q, rs) = feed(p, bytes.drop_last());
        let (q2, r) = step(q, bytes.last());
        (q2, rs.push(r))
    }
}

pub open spec fn result_view(r: Result<Option<Message>, ParseError>) -> StepResult {
    match r {
        Ok(Some(m)) => Ok(Some(m@)),
        Ok(None) => Ok(None),
        Err(e) => Err(e),
    }
}

spec fn frame_view(f: ArrayStackItem) -> OpenArray {
    (message_views(f.items@), f.size as nat)
}

impl MessageParser {
    /// The model of this parser's state.
    pub closed spec fn view(&self) -> ParserModel {
        ParserModel {
            stack: self.array_stack@.map_values(|f: ArrayStackItem| frame_view(f)),
            buf: self.buf@,
            prev: self.prev_byte,
            state: self.state,
            mtype: self.message_type,
            bulk: self.bulk_string_size as nat,
        }
    }

    pub fn new() -> (r: Self)
        ensures
            r.view() == initial_model(),
    {
        let r = Self {
            array_stack: Vec::new(),
            buf: Vec::new(),
            bulk_string_size: 0,
            prev_byte: 0,
            state: State::ParseType,
            message_type: MessageType::SimpleString,
        };
        assert(r.view().stack =~= Seq::<OpenArray>::empty());
        r
    }

    fn reset_state(&mut self)
        ensures
            final(self).view() == initial_model(),
    {
        self.array_stack.clear();
        self.buf.clear();
        self.bulk_string_size = 0;
        self.prev_byte = 0;
        self.state = State::ParseType;
        self.message_type = MessageType::SimpleString;
        assert(self.view().stack =~= Seq::<OpenArray>::empty());
        assert(self.view().buf =~= Seq::<u8>::empty());
    }

    /// Feeds one byte. Gives the complete message when this byte ends one
    /// (and the parser is then reset), nothing while a message is still
    /// incomplete, or the error that the byte reveals.
    pub fn add_byte(&mut self, byte: u8) -> (r: Result<Option<Message>, ParseError>)
        ensures
            (final(self).view(), result_view(r)) == step(old(self).view(), byte),
    {
        match self.state {
            State::ParseType => {
                let t = if byte == 42u8 {
                    MessageType::Array
                } else if byte == 43u8 {
                    MessageType::SimpleString
                } else if byte == 45u8 {
                    MessageType::Error
                } else if byte == 58u8 {
                    MessageType::Integer
                } else if byte == 36u8 {
                    MessageType::BulkString
                } else {
                    return Err(ParseError::InvalidByte(byte));
                };
                self.message_type = t;
                self.buf.clear();
                self.state = State::ReadBuf;
            },
            State::ReadBuf => {
                self.buf.push(byte);
                if self.is_line_end(byte) {
                    return self.parse_buffer(byte);
                }
            },
            State::ReadBulkStringContent => {
                if self.buf.len() == self.bulk_string_size {
                    if byte != 13u8 {
                        return Err(ParseError::InvalidByte(byte));
                    }
                    self.state = State::AwaitBulkStringEnd;
                } else {
                    self.buf.push(byte);
                }
            },
            State::AwaitBulkStringEnd => {
                if byte != 10u8 {
                    return Err(ParseError::InvalidByte(byte));
                }
                self.state = State::ParseType;
                let content = self.buf.clone();
                return self.try_result(Message::BulkString(Some(content)), byte);
            },
        }
        self.prev_byte = byte;
        proof {
            assert(self.view().stack =~= old(self).view().stack);
        }
        Ok(None)
    }

    /// Offers a completed value to the open arrays; gives the complete
    /// message, after resetting the parser, when one is done.
    fn try_result(&mut self, item: Message, byte: u8) -> (r: Result<Option<Message>, ParseError>)
        ensures
            (final(self).view(), result_view(r)) == deliver(old(self).view(), item@, byte),
    {
        match self.process_parsed_item(item) {
            Some(result) => {
                self.reset_state();
                Ok(Some(result))
            },
            None => {
                self.prev_byte = byte;
                Ok(None)
            },
        }
    }

    /// Reads the line in `buf`, which ends in CR LF, by the announced kind.
    fn parse_buffer(&mut self, byte: u8) -> (r: Result<Option<Message>, ParseError>)
        ensures
            (final(self).view(), result_view(r)) == finish_line(old(self).view(), byte),
    {
        let keep = if self.buf.len() >= 2 {
            self.buf.len() - 2
        } else {
            0
        };
        self.buf.truncate(keep);
        assert(self.buf@ =~= if old(self).buf@.len() >= 2 {
            old(self).buf@.subrange(0, old(self).buf@.len() - 2)
        } else {
            Seq::empty()
        });
        self.state = State::ParseType;
        match self.message_type {
            MessageType::SimpleString => match self.parse_buffer_as_str() {
                Some(text) => {
                    let item = Message::simple_string(text);
                    self.try_result(item, byte)
                },
                None => Err(ParseError::InvalidUtf8),
            },
            MessageType::Error => match self.parse_buffer_as_str() {
                Some(text) => {
                    let item = Message::error(text);
                    self.try_result(item, byte)
                },
                None => Err(ParseError::InvalidUtf8),
            },
            MessageType::Integer => match self.parse_buffer_as_int() {
                Ok(n) => self.try_result(Message::Integer(n), byte),
                Err(e) => Err(e),
            },
            MessageType::BulkString => match self.parse_buffer_as_int() {
                Ok(n) => {
                    if n == -1 {
                        self.try_result(Message::BulkString(None), byte)
                    } else if 0 <= n && n as u64 <= usize::MAX as u64 {
                        self.bulk_string_size = n as usize;
                        self.buf.clear();
                        self.state = State::ReadBulkStringContent;
                        self.prev_byte = byte;
                        Ok(None)
                    } else {
                        Err(ParseError::InvalidInteger)
                    }
                },
                Err(e) => Err(e),
            },
            MessageType::Array => match self.parse_buffer_as_int() {
                Ok(n) => {
                    if n == -1 {
                        self.try_result(Message::Array(None), byte)
                    } else if n == 0 {
                        let item = Message::array(Vec::new());
                        proof {
                            assert(message_views(Seq::<Message>::empty()) =~= Seq::<RespValue>::empty());
                        }
                        self.try_result(item, byte)
                    } else if 0 < n && n as u64 <= usize::MAX as u64 {
                        let ghost before = self.array_stack@;
                        self.array_stack.push(ArrayStackItem { items: Vec::new(), size: n as usize });
                        self.prev_byte = byte;
                        proof {
                            assert(message_views(Seq::<Message>::empty()) =~= Seq::<RespValue>::empty());
                            assert(self.array_stack@.drop_last() == before);
                            assert(self.view().stack =~= old(self).view().stack.push(
                                (Seq::empty(), n as nat),
                            ));
                        }
                        Ok(None)
                    } else {
                        Err(ParseError::InvalidInteger)
                    }
                },
                Err(e) => Err(e),
            },
        }
    }

    /// Puts a completed value into the innermost open array; arrays that
    /// fill up close and go into the array around them. Gives the value that
    /// no open array takes.
    fn process_parsed_item(&mut self, message: Message) -> (r: Option<Message>)
        ensures
            offer(old(self).view().stack, message@) == (
                final(self).view().stack,
                match r {
                    Some(m) => Some(m@),
                    None => None::<RespValue>,
                },
            ),
            final(self).buf == old(self).buf,
            final(self).prev_byte == old(self).prev_byte,
            final(self).state == old(self).state,
            final(self).message_type == old(self).message_type,
            final(self).bulk_string_size == old(self).bulk_string_size,
    {
        let mut current = message;
        loop
            invariant
                offer(self.view().stack, current@) == offer(old(self).view().stack, message@),
                self.buf == old(self).buf,
                self.prev_byte == old(self).prev_byte,
                self.state == old(self).state,
                self.message_type == old(self).message_type,
                self.bulk_string_size == old(self).bulk_string_size,
            decreases self.array_stack@.len(),
        {
            let ghost stack = self.view().stack;
            if self.array_stack.len() == 0 {
                return Some(current);
            }
            let mut frame = self.array_stack.pop().unwrap();
            let ghost rest = self.array_stack@;
            assert(stack.drop_last() =~= rest.map_values(|f: ArrayStackItem| frame_view(f)));
            let ghost old_items = frame.items@;
            frame.items.push(current);
            proof {
                assert(frame.items@.drop_last() == old_items);
                lemma_message_views_len(frame.items@);
            }
            if frame.items.len() == frame.size {
                current = Message::Array(Some(frame.items));
            } else {
                self.array_stack.push(frame);
                proof {
                    assert(self.array_stack@.drop_last() == rest);
                    assert(self.view().stack =~= stack.drop_last().push(frame_view(frame)));
                }
                return None;
            }
        }
    }

    fn parse_buffer_as_str(&self) -> (r: Option<&str>)
        ensures
            r.is_some() == valid_utf8(self.buf@),
            r matches Some(s) ==> s@ == decode_utf8(self.buf@),
    {
        str_from_utf8(self.buf.as_slice())
    }

    fn parse_buffer_as_int(&self) -> (r: Result<i64, ParseError>)
        ensures
            r == line_int(self.buf@),
    {
        match parse_i64(self.buf.as_slice()) {
            Some(n) => Ok(n),
            None => match str_from_utf8(self.buf.as_slice()) {
                Some(_) => Err(ParseError::InvalidInteger),
                None => Err(ParseError::InvalidUtf8),
            },
        }
    }

    fn is_line_end(&self, byte: u8) -> (r: bool)
        ensures
            r == (self.prev_byte == 13u8 && byte == 10u8),
    {
        self.prev_byte == 13u8 && byte == 10u8
    }
}

/// Feeds `bytes` to a fresh parser and gives what the last byte yielded;
/// `Ok(None)` when there are no bytes.
pub fn parse(bytes: &[u8]) -> (r: Result<Option<Message>, ParseError>)
    ensures
        bytes@.len() == 0 ==> r matches Ok(None),
        bytes@.len() > 0 ==> result_view(r) == feed(initial_model(), bytes@).1.last(),
{
    let mut parser = MessageParser::new();
    let mut last: Result<Option<Message>, ParseError> = Ok(None);
    let mut i: usize = 0;
    while i < bytes.len()
        invariant
            0 <= i <= bytes@.len(),
            parser.view() == feed(initial_model(), bytes@.subrange(0, i as int)).0,
            i > 0 ==> result_view(last) == feed(initial_model(), bytes@.subrange(0, i as int)).1.last(),
            i == 0 ==> last matches Ok(None),
        decreases bytes@.len() - i,
    {
        assert(bytes@.subrange(0, i + 1).drop_last() =~= bytes@.subrange(0, i as int));
        last = parser.add_byte(bytes[i]);
        i = i + 1;
    }
    assert(bytes@.subrange(0, i as int) =~= bytes@);
    last
}

} // verus!
