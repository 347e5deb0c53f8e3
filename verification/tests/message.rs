use rust_messenger::db::DbMethod;
use rust_messenger::json::Json;
use rust_messenger::message::{create_message_request, new_message_to_thread_json, new_message_to_user_json, Message};

fn sample(timestamp: usize, read: bool) -> Message {
    Message { user_id: "a".to_string(), timestamp, contents: "hello".to_string(), read }
}

#[test]
fn user_json_has_all_fields() {
    assert_eq!(
        new_message_to_user_json(&sample(20, false)),
        "{\"user_id\":\"a\", \"timestamp\":20, \"contents\":\"hello\", \"read\":false}"
    );
    assert_eq!(
        new_message_to_user_json(&sample(0, true)),
        "{\"user_id\":\"a\", \"timestamp\":0, \"contents\":\"hello\", \"read\":true}"
    );
}

#[test]
fn thread_json_has_three_fields() {
    assert_eq!(
        new_message_to_thread_json(&sample(1234567890, true)),
        "{\"user_id\":\"a\", \"timestamp\":1234567890, \"contents\":\"hello\"}"
    );
    assert_eq!(
        new_message_to_thread_json(&sample(usize::MAX, false)),
        format!("{{\"user_id\":\"a\", \"timestamp\":{}, \"contents\":\"hello\"}}", usize::MAX)
    );
}

#[test]
fn create_message_request_pushes_to_thread() {
    let req = create_message_request("test_thread_id", &sample(20, false));
    assert_eq!(req.path, "/threads/test_thread_id/message_ids");
    match req.method {
        DbMethod::Push(body) => assert_eq!(body, "{\"user_id\":\"a\", \"timestamp\":20, \"contents\":\"hello\"}"),
        _ => panic!("not a push"),
    }
}

fn field(record: &str, key: &str) -> String {
    Json::parse(record).unwrap().get(key).unwrap().render()
}

#[test]
fn records_escape_their_texts() {
    let m = Message {
        user_id: "a\\b".to_string(),
        timestamp: 7,
        contents: "say \"hi\"\n\u{1}".to_string(),
        read: false,
    };
    let user = new_message_to_user_json(&m);
    assert_eq!(
        user,
        "{\"user_id\":\"a\\\\b\", \"timestamp\":7, \"contents\":\"say \\\"hi\\\"\\n\\u0001\", \"read\":false}"
    );
    let thread = new_message_to_thread_json(&m);
    assert_eq!(
        thread,
        "{\"user_id\":\"a\\\\b\", \"timestamp\":7, \"contents\":\"say \\\"hi\\\"\\n\\u0001\"}"
    );
    // both records read back as the message
    for record in [user.as_str(), thread.as_str()] {
        match Json::parse(record).unwrap().get("contents").unwrap() {
            Json::Str(text) => assert_eq!(text, &m.contents),
            _ => panic!("contents is no string"),
        }
        match Json::parse(record).unwrap().get("user_id").unwrap() {
            Json::Str(text) => assert_eq!(text, &m.user_id),
            _ => panic!("user_id is no string"),
        }
        assert_eq!(field(record, "timestamp"), "7");
    }
    assert_eq!(field(&user, "read"), "false");
}
