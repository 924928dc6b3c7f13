use ccredis::message::Message;

#[test]
fn test_message_equality() {
    assert_ne!(
        Message::SimpleString("OK".to_string()),
        Message::Array(Some(vec![Message::SimpleString("OK".to_string())]))
    );
}
