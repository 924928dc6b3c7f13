use std::collections::VecDeque;

use ccredis::message::Message;
use ccredis::message_processor::{MessageProcessor, Value};

fn from_cli(command: &str) -> Message {
    let mut messages: Vec<Message> = Vec::new();
    for string in command.split(' ') {
        messages.push(Message::BulkString(Some(string.to_string().into_bytes())));
    }
    Message::Array(Some(messages))
}

fn create_message_processor() -> MessageProcessor {
    let db_file_path = "tmp/db.bin".to_string();
    MessageProcessor::new(db_file_path)
}

#[test]
fn message_ping() {
    let mut processor = create_message_processor();
    let request = from_cli("PING");
    let response = processor.process_resp_message(&request, 0);
    assert_eq!(
        response,
        Message::simple_string("PONG")
    );
}

#[test]
fn message_set() {
    let mut processor = create_message_processor();

    let request = from_cli("SET test_key test_value");
    let response = processor.process_resp_message(&request, 0);

    assert_eq!(response, Message::simple_string("OK"));
    assert_eq!(*processor.memory.get("test_key").unwrap(), "test_value".into());
}

#[test]
fn message_exists() {
    let mut processor = create_message_processor();
    processor.memory.insert("foo".to_string(), "bar".into());

    let request = from_cli("EXISTS foo");
    let response = processor.process_resp_message(&request, 0);
    assert_eq!(response, Message::Integer(1));

    let request = from_cli("EXISTS bar");
    let response = processor.process_resp_message(&request, 0);
    assert_eq!(response, Message::Integer(0));
}

#[test]
fn test_expiration_options_ex() {
    let init_timestamp = std::time::UNIX_EPOCH.elapsed().unwrap().as_millis();
    message_set_get_with_options(
        "ex",
        "30",
        init_timestamp,
        init_timestamp + 29_000,
        init_timestamp + 31_000
    );
}

#[test]
fn test_expiration_options_px() {
    let init_timestamp = std::time::UNIX_EPOCH.elapsed().unwrap().as_millis();
    message_set_get_with_options(
        "px",
        "30000",
        init_timestamp,
        init_timestamp + 29_000,
        init_timestamp + 31_000
    );
}

#[test]
fn test_expiration_options_exat() {
    let init_timestamp = std::time::UNIX_EPOCH.elapsed().unwrap().as_millis();
    let expire_at_timestamp_in_seconds = ((init_timestamp + 30_000) / 1000).to_string();
    message_set_get_with_options(
        "exat",
        &expire_at_timestamp_in_seconds,
        init_timestamp,
        init_timestamp + 29_000,
        init_timestamp + 31_000
    );
}

#[test]
fn test_expiration_options_pxat() {
    let init_timestamp = std::time::UNIX_EPOCH.elapsed().unwrap().as_millis();
    let expire_at_timestamp_in_milliseconds = (init_timestamp + 30_000).to_string();
    message_set_get_with_options(
        "pxat",
        &expire_at_timestamp_in_milliseconds,
        init_timestamp,
        init_timestamp + 29_000,
        init_timestamp + 31_000
    );
}

fn message_set_get_with_options(option_name: &str, option_value: &str, init_timestamp: u128, before_timestamp: u128, after_timestamp: u128) {
    let mut processor = create_message_processor();

    // Set value with expiration
    let request = Message::array(vec![
        Message::bulk_string("set"),
        Message::bulk_string("test_key"),
        Message::bulk_string("test_value"),
        Message::bulk_string(option_name),
        Message::bulk_string(option_value)
    ]);

    let response = processor.process_resp_message(&request, init_timestamp);
    assert_eq!(response, Message::simple_string("OK"));

    // Get value before expiration
    let request = from_cli("GET test_key");

    let response = processor.process_resp_message(&request, before_timestamp);
    assert_eq!(response, Message::bulk_string("test_value"));

    // Get value after expiration
    let request = from_cli("GET test_key");

    let response = processor.process_resp_message(&request, after_timestamp);
    assert_eq!(response, Message::BulkString(None));

    // memory is cleared after expire
    assert_eq!(processor.memory.len(), 0);
    assert_eq!(processor.key_expiration.len(), 0);
}

#[test]
fn test_incr() {
    let mut processor = create_message_processor();
    processor.memory.insert("foo".to_string(), "68".into());

    let request = from_cli("INCR foo");
    let response = processor.process_resp_message(&request, 0);
    assert_eq!(response, Message::Integer(69));
}

#[test]
fn test_decr() {
    let mut processor = create_message_processor();
    processor.memory.insert("foo".to_string(), "70".into());

    let request = from_cli("DECR foo");
    let response = processor.process_resp_message(&request, 0);
    assert_eq!(response, Message::Integer(69));
}

#[test]
fn test_lpush() {
    let mut processor = create_message_processor();
    let request = from_cli("LPUSH foo 1 2 3");

    let response = processor.process_resp_message(&request, 0);
    assert_eq!(response, Message::Integer(3));

    if let Some(Value::List(list)) = processor.memory.get("foo") {
        assert_eq!(*list, VecDeque::from([Vec::from("3".as_bytes()), Vec::from("2".as_bytes()), Vec::from("1".as_bytes())]))
    } else {
        unreachable!("Expected list");
    }
}

#[test]
fn test_rpush() {
    let mut processor = create_message_processor();
    let request = from_cli("RPUSH foo 1 2 3");

    let response = processor.process_resp_message(&request, 0);
    assert_eq!(response, Message::Integer(3));

    if let Some(Value::List(list)) = processor.memory.get("foo") {
        assert_eq!(*list, VecDeque::from([Vec::from("1".as_bytes()), Vec::from("2".as_bytes()), Vec::from("3".as_bytes())]))
    } else {
        unreachable!("Expected list");
    }
}

#[test]
fn test_rpush_with_append() {
    let mut processor = create_message_processor();

    let request = from_cli("RPUSH foo 1");
    let response = processor.process_resp_message(&request, 0);
    assert_eq!(response, Message::Integer(1));

    let request = from_cli("RPUSH foo 2 3");
    let response = processor.process_resp_message(&request, 0);
    assert_eq!(response, Message::Integer(3));

    if let Some(Value::List(list)) = processor.memory.get("foo") {
        assert_eq!(*list, VecDeque::from([Vec::from("1".as_bytes()), Vec::from("2".as_bytes()), Vec::from("3".as_bytes())]))
    } else {
        unreachable!("Expected list");
    }
}
