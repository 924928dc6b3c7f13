use ccredis::message::Message;
use ccredis::message_parser::MessageParser;

fn parse_string(string: &str) -> Message {
    let mut parser = MessageParser::new();
    let mut message: Option<Message> = None;
    for (i, byte) in string.as_bytes().iter().enumerate() {
        message = parser.add_byte(*byte).unwrap();

        assert_eq!(
            message.is_some(),
            i == string.len() - 1,
            "Received: {:?}",
            *byte as char
        );
    }
    message.unwrap()
}

#[test]
fn message_parser_parse_bulk_string() {
    assert_eq!(
        parse_string("$5\r\nhello\r\n"),
        Message::bulk_string("hello")
    );
}

#[test]
fn message_parser_parse_simple_string() {
    assert_eq!(
        parse_string("+OK\r\n"),
        Message::SimpleString("OK".to_string())
    );
}

#[test]
fn message_parser_parse_one_element_array() {
    assert_eq!(
        parse_string("*1\r\n$4\r\nping\r\n"),
        Message::Array(Some(vec![Message::bulk_string("ping")]))
    );
}

#[test]
fn message_parser_parse_two_element_array_with_bulk_strings() {
    assert_eq!(
        parse_string("*2\r\n$4\r\necho\r\n$11\r\nhello world\r\n"),
        Message::Array(Some(vec![
            Message::bulk_string("echo"),
            Message::bulk_string("hello world")
        ]))
    );
}

#[test]
fn message_parser_parse_empty_bulk_string() {
    assert_eq!(
        parse_string("$0\r\n\r\n"),
        Message::BulkString(Some(Vec::new()))
    );
}

#[test]
fn message_parser_parse_null_bulk_string() {
    assert_eq!(parse_string("$-1\r\n"), Message::BulkString(None));
}

#[test]
fn message_parser_parse_empty_array() {
    assert_eq!(parse_string("*0\r\n"), Message::array(Vec::new()));
}

#[test]
fn message_parser_parse_null_array() {
    assert_eq!(parse_string("*-1\r\n"), Message::Array(None));
}

#[test]
fn message_parser_parse_nested_array() {
    assert_eq!(
        parse_string("*2\r\n+baz\r\n*2\r\n+foo\r\n*1\r\n+bar\r\n"),
        Message::array(vec![
            Message::simple_string("baz"),
            Message::array(vec![
                Message::simple_string("foo"),
                Message::array(vec![Message::simple_string("bar")])
            ])
        ])
    );
}

#[test]
fn message_parser_parse_error() {
    assert_eq!(
        parse_string("-Error message\r\n"),
        Message::Error("Error message".to_string())
    );
}

#[test]
fn message_parser_parse_negative_integer() {
    assert_eq!(parse_string(":-1\r\n"), Message::Integer(-1));
}

#[test]
fn message_parser_parse_array_of_all_types() {
    assert_eq!(
        parse_string("*4\r\n$4\r\nbulk\r\n+simple\r\n:-1\r\n-err\r\n"),
        Message::array(vec![
            Message::bulk_string("bulk"),
            Message::simple_string("simple"),
            Message::Integer(-1),
            Message::error("err")
        ])
    );
}
