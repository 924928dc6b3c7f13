use ccredis::decimal::{parse_i64, parse_u128, decimal_text};
use ccredis::message::Message;
use ccredis::message_parser::{parse, MessageParser};
use ccredis::message_processor::{now, MessageProcessor, Value};
use ccredis::parse_error::ParseError;
use ccredis::processing_error::ProcessingError;

fn request(parts: &[&str]) -> Message {
    Message::array(parts.iter().map(|p| Message::bulk_string(p)).collect())
}

fn processor() -> MessageProcessor {
    MessageProcessor::new("snapshot.txt".to_string())
}

fn sample_messages() -> Vec<Message> {
    vec![
        Message::Integer(i64::MIN),
        Message::Integer(0),
        Message::Integer(i64::MAX),
        Message::bulk_string("hello"),
        Message::BulkString(Some(vec![b'\r', b'\n', 0, 255])),
        Message::BulkString(Some(Vec::new())),
        Message::BulkString(None),
        Message::simple_string("ünïcode text"),
        Message::error("ERR something"),
        Message::Array(None),
        Message::array(Vec::new()),
        Message::array(vec![
            Message::Integer(-7),
            Message::array(vec![Message::BulkString(None), Message::Array(None)]),
            Message::simple_string(""),
        ]),
    ]
}

#[test]
fn round_trip_of_every_kind() {
    for m in sample_messages() {
        let bytes = m.to_bytes();
        assert_eq!(parse(&bytes).unwrap(), Some(m));
    }
}

#[test]
fn byte_by_byte_matches_whole_chunk() {
    for m in sample_messages() {
        let bytes = m.to_bytes();
        let mut parser = MessageParser::new();
        for (i, b) in bytes.iter().enumerate() {
            let r = parser.add_byte(*b).unwrap();
            if i + 1 < bytes.len() {
                assert_eq!(r, None);
            } else {
                assert_eq!(Some(r.unwrap()), parse(&bytes).unwrap());
            }
        }
        // the parser is ready for the next message
        assert_eq!(parser.add_byte(b'+').unwrap(), None);
    }
}

#[test]
fn deeply_nested_arrays() {
    let mut m = Message::Integer(1);
    for _ in 0..6 {
        m = Message::array(vec![m]);
    }
    let bytes = m.to_bytes();
    assert_eq!(bytes, b"*1\r\n*1\r\n*1\r\n*1\r\n*1\r\n*1\r\n:1\r\n".to_vec());
    assert_eq!(parse(&bytes).unwrap(), Some(m));
    let empty = parse(b"*0\r\n").unwrap().unwrap();
    let null = parse(b"*-1\r\n").unwrap().unwrap();
    assert_eq!(empty, Message::array(Vec::new()));
    assert_eq!(null, Message::Array(None));
    assert_ne!(empty, null);
}

#[test]
fn null_empty_and_absent_differ() {
    let null = parse(b"$-1\r\n").unwrap().unwrap();
    let empty = parse(b"$0\r\n\r\n").unwrap().unwrap();
    assert_ne!(null, empty);
    let mut p = processor();
    assert_eq!(p.process_resp_message(&request(&["SET", "k", ""]), 0), Message::simple_string("OK"));
    assert_eq!(p.process_resp_message(&request(&["GET", "k"]), 0), empty);
    assert_eq!(p.process_resp_message(&request(&["GET", "absent"]), 0), null);
}

#[test]
fn set_then_get_until_expiry() {
    let mut p = processor();
    assert_eq!(p.process_resp_message(&request(&["SET", "k", "v", "PX", "100"]), 1000), Message::simple_string("OK"));
    assert_eq!(p.process_resp_message(&request(&["GET", "k"]), 1100), Message::bulk_string("v"));
    assert_eq!(p.process_resp_message(&request(&["GET", "k"]), 1101), Message::BulkString(None));
    assert_eq!(p.memory.len(), 0);
    assert_eq!(p.key_expiration.len(), 0);
}

#[test]
fn set_without_option_clears_expiry() {
    let mut p = processor();
    p.process_resp_message(&request(&["SET", "k", "v", "EX", "1"]), 0);
    assert_eq!(p.key_expiration.get("k"), Some(&1000));
    p.process_resp_message(&request(&["SET", "k", "w"]), 0);
    assert_eq!(p.key_expiration.get("k"), None);
    assert_eq!(p.process_resp_message(&request(&["GET", "k"]), 5000), Message::bulk_string("w"));
}

#[test]
fn expire_options_agree_on_whole_second() {
    let now = 5_000u128;
    for (option, amount) in [("EX", "30"), ("px", "30000"), ("ExAt", "35"), ("PXAT", "35000")] {
        let mut p = processor();
        assert_eq!(p.process_resp_message(&request(&["SET", "k", "v", option, amount]), now), Message::simple_string("OK"));
        assert_eq!(p.key_expiration.get("k"), Some(&35_000));
        assert_eq!(p.process_resp_message(&request(&["GET", "k"]), 35_000), Message::bulk_string("v"));
        assert_eq!(p.process_resp_message(&request(&["GET", "k"]), 35_001), Message::BulkString(None));
    }
}

#[test]
fn expire_option_errors() {
    let mut p = processor();
    assert_eq!(p.process_resp_message(&request(&["SET", "k", "v", "EX", "abc"]), 0), Message::Error("Invalid integer format encountered".to_string()));
    assert_eq!(p.process_resp_message(&request(&["SET", "k", "v", "EX", "-5"]), 0), Message::Error("Invalid integer format encountered".to_string()));
    assert!(matches!(p.process_resp_message(&request(&["SET", "k", "v", "KEEP", "5"]), 0), Message::Error(_)));
    assert!(matches!(p.process_resp_message(&request(&["SET", "k", "v", "EX"]), 0), Message::Error(_)));
    let huge = u128::MAX.to_string();
    assert_eq!(p.process_resp_message(&request(&["SET", "k", "v", "PX", &huge]), 1), Message::Error("Invalid integer format encountered".to_string()));
    assert_eq!(p.memory.len(), 0);
}

#[test]
fn incr_and_decr() {
    let mut p = processor();
    assert_eq!(p.process_resp_message(&request(&["INCR", "n"]), 0), Message::Integer(1));
    p.process_resp_message(&request(&["SET", "m", "+5"]), 0);
    assert_eq!(p.process_resp_message(&request(&["INCR", "m"]), 0), Message::Integer(6));
    assert_eq!(p.process_resp_message(&request(&["DECR", "m"]), 0), Message::Integer(5));
    assert_eq!(p.process_resp_message(&request(&["GET", "m"]), 0), Message::bulk_string("5"));
    p.process_resp_message(&request(&["SET", "max", &i64::MAX.to_string()]), 0);
    assert!(matches!(p.process_resp_message(&request(&["INCR", "max"]), 0), Message::Error(_)));
    p.process_resp_message(&request(&["SET", "word", "abc"]), 0);
    assert_eq!(p.process_resp_message(&request(&["INCR", "word"]), 0), Message::Error("Invalid integer format encountered".to_string()));
    p.process_resp_message(&request(&["RPUSH", "list", "a"]), 0);
    assert!(matches!(p.process_resp_message(&request(&["INCR", "list"]), 0), Message::Error(_)));
}

#[test]
fn incr_on_invalid_utf8_counter() {
    let mut p = processor();
    p.memory.insert("bin".to_string(), Value::Single(vec![0xff]));
    assert_eq!(p.process_resp_message(&request(&["INCR", "bin"]), 0), Message::Error("Invalid UTF-8 sequence encountered".to_string()));
}

#[test]
fn repeated_pushes_keep_order() {
    let mut p = processor();
    assert_eq!(p.process_resp_message(&request(&["LPUSH", "l", "1", "2"]), 0), Message::Integer(2));
    assert_eq!(p.process_resp_message(&request(&["LPUSH", "l", "3"]), 0), Message::Integer(3));
    assert_eq!(p.process_resp_message(&request(&["RPUSH", "l", "4"]), 0), Message::Integer(4));
    let expected: std::collections::VecDeque<Vec<u8>> = ["3", "2", "1", "4"].iter().map(|s| s.as_bytes().to_vec()).collect();
    assert_eq!(p.memory.get("l"), Some(&Value::List(expected)));
    p.process_resp_message(&request(&["SET", "s", "x"]), 0);
    assert!(matches!(p.process_resp_message(&request(&["LPUSH", "s", "1"]), 0), Message::Error(_)));
    assert!(matches!(p.process_resp_message(&request(&["RPUSH", "l"]), 0), Message::Error(_)));
}

#[test]
fn del_counts_and_exists_after() {
    let mut p = processor();
    p.process_resp_message(&request(&["SET", "a", "1", "PX", "10"]), 0);
    p.process_resp_message(&request(&["RPUSH", "b", "x"]), 0);
    assert_eq!(p.process_resp_message(&request(&["EXISTS", "a", "b", "c"]), 0), Message::Integer(2));
    assert_eq!(p.process_resp_message(&request(&["DEL", "a", "b", "c"]), 0), Message::Integer(2));
    assert_eq!(p.process_resp_message(&request(&["EXISTS", "a", "b", "c"]), 0), Message::Integer(0));
    assert_eq!(p.key_expiration.len(), 0);
}

#[test]
fn exists_skips_expired_keys() {
    let mut p = processor();
    p.process_resp_message(&request(&["SET", "a", "1", "PX", "10"]), 0);
    assert_eq!(p.process_resp_message(&request(&["EXISTS", "a", "a"]), 11), Message::Integer(0));
    assert_eq!(p.memory.len(), 0);
}

#[test]
fn bad_requests_get_error_replies() {
    let mut p = processor();
    assert_eq!(p.process_resp_message(&request(&["FLY"]), 0), Message::Error("Expected command".to_string()));
    assert!(matches!(p.process_resp_message(&request(&["ECHO"]), 0), Message::Error(_)));
    assert!(matches!(p.process_resp_message(&request(&["ECHO", "a", "b"]), 0), Message::Error(_)));
    assert!(matches!(p.process_resp_message(&request(&["GET"]), 0), Message::Error(_)));
    assert!(matches!(p.process_resp_message(&request(&["SET", "k"]), 0), Message::Error(_)));
    assert_eq!(p.process_resp_message(&Message::array(Vec::new()), 0), Message::Error("Vector is empty".to_string()));
    assert_eq!(p.process_resp_message(&Message::simple_string("PING"), 0), Message::Error("Unprocessable message".to_string()));
    assert_eq!(p.process_resp_message(&Message::Array(None), 0), Message::Error("Unprocessable message".to_string()));
    assert!(matches!(p.process_resp_message(&Message::array(vec![Message::Integer(1)]), 0), Message::Error(_)));
    p.process_resp_message(&request(&["RPUSH", "l", "x"]), 0);
    assert!(matches!(p.process_resp_message(&request(&["GET", "l"]), 0), Message::Error(_)));
    let bad_key = Message::array(vec![Message::bulk_string("GET"), Message::BulkString(Some(vec![0xc3]))]);
    assert_eq!(p.process_resp_message(&bad_key, 0), Message::Error("Invalid UTF-8 sequence encountered".to_string()));
}

#[test]
fn commands_are_case_insensitive() {
    let mut p = processor();
    assert_eq!(p.process_resp_message(&request(&["PiNg"]), 0), Message::simple_string("PONG"));
    assert_eq!(p.process_resp_message(&request(&["echo", "hi"]), 0), Message::bulk_string("hi"));
    assert_eq!(p.process_resp_message(&Message::array(vec![Message::simple_string("ECHO"), Message::simple_string("yo")]), 0), Message::bulk_string("yo"));
}

#[test]
fn save_and_load_snapshot() {
    let mut p = processor();
    p.process_resp_message(&request(&["SET", "a", "1", "PXAT", "99999"]), 0);
    p.process_resp_message(&request(&["SET", "b", "2"]), 0);
    p.process_resp_message(&request(&["RPUSH", "c", "x", "y"]), 0);
    assert_eq!(p.process_resp_message(&request(&["SAVE"]), 0), Message::simple_string("OK"));
    let bytes = p.pending_snapshot.take().unwrap();
    let snapshot = parse(&bytes).unwrap().unwrap();
    match &snapshot {
        Message::Array(Some(commands)) => {
            assert_eq!(commands.len(), 3);
            assert!(commands.contains(&request(&["SET", "a", "1", "PXAT", "99999"])));
            assert!(commands.contains(&request(&["SET", "b", "2"])));
            assert!(commands.contains(&request(&["RPUSH", "c", "x", "y"])));
        }
        _ => panic!("snapshot is not an array"),
    }
    let mut q = processor();
    assert_eq!(q.load_snapshot(&snapshot, 0), 3);
    assert_eq!(q.memory.get("a"), p.memory.get("a"));
    assert_eq!(q.memory.get("c"), p.memory.get("c"));
    assert_eq!(q.key_expiration.get("a"), Some(&99999));
    assert_eq!(q.load_snapshot(&Message::Integer(3), 0), 0);
}

#[test]
fn sweep_evicts_expired_sample() {
    let mut p = processor();
    p.process_resp_message(&request(&["SET", "a", "1", "PX", "10"]), 0);
    p.process_resp_message(&request(&["SET", "b", "1", "PX", "1000"]), 0);
    p.process_resp_message(&request(&["SET", "c", "1"]), 0);
    assert_eq!(p.expire_sample(8, 500), 1);
    assert_eq!(p.memory.len(), 2);
    assert_eq!(p.key_expiration.len(), 1);
    assert_eq!(p.expire_sample(0, 5000), 0);
    assert_eq!(p.remove_expired(&vec!["b".to_string(), "c".to_string()], 5000), 1);
    assert_eq!(p.memory.len(), 1);
}

#[test]
fn parse_errors() {
    let mut parser = MessageParser::new();
    assert_eq!(parser.add_byte(b'?'), Err(ParseError::InvalidByte(b'?')));
    assert_eq!(ParseError::InvalidByte(0x3f).to_string(), "Invalid byte encountered: 0x3f");
    assert_eq!(parse(b"+\xff\r\n"), Err(ParseError::InvalidUtf8));
    assert_eq!(parse(b":abc\r\n"), Err(ParseError::InvalidInteger));
    assert_eq!(parse(b":\xff\r\n"), Err(ParseError::InvalidUtf8));
    assert_eq!(parse(b"$-2\r\n"), Err(ParseError::InvalidInteger));
    assert_eq!(parse(b"*-3\r\n"), Err(ParseError::InvalidInteger));
    assert_eq!(parse(b"$3\r\nab"), Ok(None));
    assert_eq!(parse(b""), Ok(None));
}

#[test]
fn error_texts() {
    assert_eq!(ProcessingError::InvalidUtf8.to_string(), "Invalid UTF-8 sequence encountered");
    assert_eq!(ProcessingError::InvalidInteger.to_string(), "Invalid integer format encountered");
    assert_eq!(ProcessingError::Other("x".to_string()).to_string(), "x");
    assert_eq!(ParseError::InvalidInteger.to_string(), "Invalid integer format encountered");
}

#[test]
fn message_accessors() {
    assert_eq!(Message::bulk_string("hé").as_str().unwrap(), "hé");
    assert_eq!(Message::BulkString(Some(vec![0xff])).as_str(), Err(ProcessingError::InvalidUtf8));
    assert!(Message::BulkString(None).as_str().is_err());
    assert_eq!(Message::Integer(3).as_str(), Err(ProcessingError::Other("Invalid message type Integer expected BulkString or SimpleString".to_string())));
    assert_eq!(Message::Integer(-3).as_int(), Ok(-3));
    assert!(Message::simple_string("3").as_int().is_err());
    assert_eq!(Message::Error("e".to_string()).type_as_str(), "Error");
    assert_eq!(Message::Array(None).type_as_str(), "Array");
    assert_eq!(Message::from_cli("SET a  b"), Message::array(vec![
        Message::bulk_string("SET"),
        Message::bulk_string("a"),
        Message::bulk_string(""),
        Message::bulk_string("b"),
    ]));
}

#[test]
fn decimal_edges() {
    assert_eq!(parse_i64(b"+5"), Some(5));
    assert_eq!(parse_i64(b"-9223372036854775808"), Some(i64::MIN));
    assert_eq!(parse_i64(b"9223372036854775808"), None);
    assert_eq!(parse_i64(b"-"), None);
    assert_eq!(parse_i64(b""), None);
    assert_eq!(parse_i64(b"1 "), None);
    assert_eq!(parse_u128(b"-1"), None);
    assert_eq!(parse_u128(b"340282366920938463463374607431768211455"), Some(u128::MAX));
    assert_eq!(parse_u128(b"340282366920938463463374607431768211456"), None);
    assert_eq!(decimal_text(1234567890), b"1234567890".to_vec());
    assert_eq!(decimal_text(0), b"0".to_vec());
}

#[test]
fn clock_is_after_epoch() {
    assert!(now() > 1_600_000_000_000);
}

#[test]
fn incr_on_expired_key_counts_from_zero() {
    let mut p = processor();
    p.process_resp_message(&request(&["SET", "n", "41", "PX", "10"]), 0);
    assert_eq!(p.process_resp_message(&request(&["INCR", "n"]), 11), Message::Integer(1));
    assert_eq!(p.memory.get("n"), Some(&Value::from("1")));
    assert_eq!(p.key_expiration.get("n"), None);
    p.process_resp_message(&request(&["SET", "m", "41", "PX", "10"]), 0);
    assert_eq!(p.process_resp_message(&request(&["DECR", "m"]), 11), Message::Integer(-1));
    assert_eq!(p.memory.get("m"), Some(&Value::from("-1")));
}

#[test]
fn bulk_string_needs_exact_terminator() {
    for bad in [b"$1\r\naX".to_vec(), b"$1\r\na\rX".to_vec()] {
        let mut parser = MessageParser::new();
        let mut last = Ok(None);
        for b in &bad {
            last = parser.add_byte(*b);
        }
        assert_eq!(last, Err(ParseError::InvalidByte(b'X')));
    }
    assert_eq!(parse(b"$1\r\na\r\n"), Ok(Some(Message::bulk_string("a"))));
}

#[test]
fn lowercased_dispatch_and_expiry() {
    let mut p = processor();
    assert_eq!(p.execute_command("ping", &[], 0), Ok(Message::simple_string("PONG")));
    assert_eq!(p.execute_command("PING", &[], 0), Err(ProcessingError::Other("Expected command".to_string())));
    assert_eq!(p.execute_command("echo", &[Message::bulk_string("x")], 0), Ok(Message::bulk_string("x")));
    assert_eq!(MessageProcessor::expire_instant("ex", 30, 1000), Ok(31_000));
    assert_eq!(MessageProcessor::expire_instant("px", 30, 1000), Ok(1030));
    assert_eq!(MessageProcessor::expire_instant("exat", 30, 1000), Ok(30_000));
    assert_eq!(MessageProcessor::expire_instant("pxat", 30, 1000), Ok(30));
    assert_eq!(MessageProcessor::expire_instant("ex", u128::MAX, 0), Err(ProcessingError::InvalidInteger));
    assert!(matches!(MessageProcessor::expire_instant("EX", 30, 0), Err(ProcessingError::Other(_))));
}

#[test]
fn load_counts_answered_commands() {
    let mut p = processor();
    let snapshot = Message::array(vec![
        request(&["SET", "a", "1"]),
        request(&["FLY"]),
        request(&["RPUSH", "a", "x"]),
        request(&["RPUSH", "b", "x"]),
    ]);
    assert_eq!(p.load_snapshot(&snapshot, 0), 2);
    assert_eq!(p.memory.len(), 2);
}

#[test]
fn sweep_counts_expired_in_sample() {
    let mut p = processor();
    for key in ["a", "b", "c", "d"] {
        p.process_resp_message(&request(&["SET", key, "1", "PX", "10"]), 0);
    }
    assert_eq!(p.expire_sample(2, 500), 2);
    p.process_resp_message(&request(&["SET", "e", "1", "PX", "1000"]), 0);
    assert_eq!(p.key_expiration.len(), 3);
    assert_eq!(p.expire_sample(10, 5000), 3);
    assert_eq!(p.memory.len(), 0);
}

#[test]
fn error_replies_have_fixed_texts() {
    let mut p = processor();
    let upper = p.process_resp_message(&request(&["ECHO", "a", "b"]), 0);
    let lower = p.process_resp_message(&request(&["eChO", "a", "b"]), 0);
    assert_eq!(upper, Message::Error("[echo] expected 1 argument".to_string()));
    assert_eq!(upper, lower);
    assert_eq!(p.process_resp_message(&request(&["GET"]), 0), Message::Error("[get] expected key".to_string()));
    assert_eq!(p.process_resp_message(&request(&["SET", "k"]), 0), Message::Error("[set] expected value".to_string()));
    assert_eq!(
        p.process_resp_message(&Message::array(vec![Message::bulk_string("SET"), Message::bulk_string("k"), Message::Integer(1)]), 0),
        Message::Error("Invalid message type Integer expected BulkString".to_string())
    );
    assert_eq!(
        p.process_resp_message(&Message::array(vec![Message::Integer(1)]), 0),
        Message::Error("Invalid message type Integer expected BulkString or SimpleString".to_string())
    );
    p.process_resp_message(&request(&["RPUSH", "l", "x"]), 0);
    assert_eq!(p.process_resp_message(&request(&["GET", "l"]), 0), Message::Error("Wrong type. Expected single element, got list.".to_string()));
    p.process_resp_message(&request(&["SET", "s", "x"]), 0);
    assert_eq!(p.process_resp_message(&request(&["LPUSH", "s", "y"]), 0), Message::Error("Wrong type. Expected list element, got single.".to_string()));
    assert_eq!(p.process_resp_message(&request(&["SET", "k", "v", "KEEP", "1"]), 0), Message::Error("[set] unsupported expire option".to_string()));
}

#[test]
fn sweep_with_huge_amount() {
    let mut p = processor();
    p.process_resp_message(&request(&["SET", "a", "1", "PX", "10"]), 0);
    assert_eq!(p.expire_sample(usize::MAX, 500), 1);
    assert_eq!(p.memory.len(), 0);
}
