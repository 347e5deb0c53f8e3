use rust_messenger::db::{DbMethod, Response};
use rust_messenger::error::ServerError;
use rust_messenger::json::Json;
use rust_messenger::message::Message;
use rust_messenger::protocol::{status_code, strip_quotes, take_action, Event, Request, Session, Step};

fn request(action: &str, body: &str) -> Request {
    Request { body: Json::parse(body).unwrap(), action: action.to_string() }
}

fn ok(body: &str, code: u32) -> Event {
    Event::Answer(Ok(Response { body: body.to_string(), code }))
}

fn msg(user: &str) -> Message {
    Message { user_id: user.to_string(), timestamp: 20, contents: "hi".to_string(), read: false }
}

fn expect_query(step: Step) -> (String, DbMethod) {
    match step {
        Step::Query(r) => (r.path, r.method),
        _ => panic!("expected a database request"),
    }
}

fn next(session: Session, event: Event) -> (Session, Step) {
    assert!(session.accepts(&event));
    session.resume(event)
}

#[test]
fn unknown_action_is_bad_request() {
    let (_, step) = take_action(&request("dance", "{}"), "me");
    assert!(matches!(step, Step::Finish(Err(ServerError::BadRequest))));
}

#[test]
fn send_message_delivers_to_everyone() {
    let req = request(
        "send_message",
        "{\"thread_id\":\"t1\",\"message\":{\"user_id\":\"me\",\"timestamp\":20,\"contents\":\"hi\",\"read\":false}}",
    );
    let (s, step) = take_action(&req, "me");
    let text = match step {
        Step::Decode(t) => t,
        _ => panic!("expected a decode"),
    };
    assert_eq!(text, "{\"contents\":\"hi\",\"read\":false,\"timestamp\":20,\"user_id\":\"me\"}");
    let (s, step) = next(s, Event::Decoded(Some(msg("me"))));
    // the participants are read before anything is stored
    let (path, method) = expect_query(step);
    assert_eq!(path, "/threads/t1/user_ids");
    assert!(matches!(method, DbMethod::Get));
    let (s, step) = next(s, ok("[\"me\",\"you\"]", 200));
    let (path, method) = expect_query(step);
    assert_eq!(path, "/threads/t1/message_ids");
    assert!(matches!(method, DbMethod::Push(_)));
    let (s, step) = next(s, ok("{\"name\":\"-M1\"}", 200));
    assert_eq!(expect_query(step).0, "/users/me/threads/t1");
    // the sender gets no live update
    let (s, step) = next(s, ok("{}", 200));
    assert_eq!(expect_query(step).0, "/users/you/threads/t1");
    let (s, step) = next(s, ok("{}", 200));
    match step {
        Step::Notify(user, reply) => {
            assert_eq!(user, "you");
            assert_eq!(reply.action, "receive_message");
            assert_eq!(
                reply.body,
                "{\"thread_id\":\"t1\", \"message\": {\"contents\":\"hi\",\"read\":false,\"timestamp\":20,\"user_id\":\"me\"}}"
            );
            assert_eq!(reply.code, 200);
        },
        _ => panic!("expected a live update"),
    }
    let (_, step) = next(s, Event::Delivered(Ok(())));
    match step {
        Step::Finish(Ok(reply)) => {
            assert_eq!(reply.action, "send_message");
            assert_eq!(reply.body, "");
            assert_eq!(reply.code, 200);
        },
        _ => panic!("expected the reply"),
    }
}

#[test]
fn send_message_errors() {
    let (_, step) = take_action(&request("send_message", "{\"thread_id\":\"t1\"}"), "me");
    assert!(matches!(step, Step::Finish(Err(ServerError::DatabaseFormatErr))));
    let req = request("send_message", "{\"message\":{}}");
    let (s, _) = take_action(&req, "me");
    let (_, step) = next(s, Event::Decoded(None));
    assert!(matches!(step, Step::Finish(Err(ServerError::DatabaseFormatErr))));
    let (s, _) = take_action(&req, "me");
    let (_, step) = next(s, Event::Decoded(Some(msg("me"))));
    assert!(matches!(step, Step::Finish(Err(ServerError::DatabaseFormatErr))));
    let (s, _) = take_action(&request("send_message", "{\"message\":{},\"thread_id\":7}"), "me");
    let (_, step) = next(s, Event::Decoded(Some(msg("me"))));
    assert!(matches!(step, Step::Abort));
    // a failed live update is a SendMessageErr
    let (s, _) = take_action(&request("send_message", "{\"message\":{},\"thread_id\":\"t\"}"), "me");
    let (s, _) = next(s, Event::Decoded(Some(msg("me"))));
    let (s, _) = next(s, ok("[\"you\"]", 200));
    let (s, _) = next(s, ok("{}", 400));
    let (s, _) = next(s, ok("{}", 200));
    let (_, step) = next(s, Event::Delivered(Err("gone".to_string())));
    assert!(matches!(step, Step::Finish(Err(ServerError::SendMessageErr(_)))));
    // participants that are no list
    let (s, _) = take_action(&request("send_message", "{\"message\":{},\"thread_id\":\"t\"}"), "me");
    let (s, _) = next(s, Event::Decoded(Some(msg("me"))));
    let (_, step) = next(s, ok("{\"a\":1}", 200));
    assert!(matches!(step, Step::Finish(Err(ServerError::DatabaseFormatErr))));
    // participants that are no JSON
    let (s, _) = take_action(&request("send_message", "{\"message\":{},\"thread_id\":\"t\"}"), "me");
    let (s, _) = next(s, Event::Decoded(Some(msg("me"))));
    let (_, step) = next(s, ok("[\"me\"", 200));
    assert!(matches!(step, Step::Abort));
    // a failed read of the participants
    let (s, _) = take_action(&request("send_message", "{\"message\":{},\"thread_id\":\"t\"}"), "me");
    let (s, _) = next(s, Event::Decoded(Some(msg("me"))));
    let (_, step) = next(s, Event::Answer(Err(ServerError::NetworkErr("down".to_string()))));
    assert!(matches!(step, Step::Finish(Err(ServerError::NetworkErr(_)))));
}

#[test]
fn send_message_to_unknown_conversation_stores_nothing() {
    let (s, step) = take_action(&request("send_message", "{\"message\":{},\"thread_id\":\"nope\"}"), "me");
    assert!(matches!(step, Step::Decode(_)));
    let (s, step) = next(s, Event::Decoded(Some(msg("me"))));
    let (path, method) = expect_query(step);
    assert_eq!(path, "/threads/nope/user_ids");
    assert!(matches!(method, DbMethod::Get));
    let (s, step) = next(s, ok("null", 200));
    assert!(matches!(step, Step::Finish(Err(ServerError::InvalidThreadId))));
    assert!(!s.accepts(&ok("{}", 200)));
}

#[test]
fn send_message_reply_code_is_that_of_the_stored_message() {
    let (s, _) = take_action(&request("send_message", "{\"message\":{},\"thread_id\":\"t\"}"), "me");
    let (s, _) = next(s, Event::Decoded(Some(msg("me"))));
    let (s, _) = next(s, ok("[\"me\"]", 200));
    let (s, _) = next(s, ok("{}", 400));
    let (_, step) = next(s, ok("{}", 200));
    match step {
        Step::Finish(Ok(reply)) => assert_eq!(reply.code, 400),
        _ => panic!("expected the reply"),
    }
}

#[test]
fn create_thread_updates_everyone() {
    let req = request(
        "create_thread",
        "{\"user_ids\":[\"u1\",\"u2\"],\"message\":{\"user_id\":\"me\",\"timestamp\":20,\"contents\":\"hi\",\"read\":false}}",
    );
    let (s, step) = take_action(&req, "me");
    assert!(matches!(step, Step::Decode(_)));
    let (s, step) = next(s, Event::Decoded(Some(msg("me"))));
    // first the stored conversations are read, to find one between these users
    let (path, method) = expect_query(step);
    assert_eq!(path, "/threads");
    assert!(matches!(method, DbMethod::Get));
    let (s, step) = next(s, ok("{\"-Nold\":{\"user_ids\":[\"u1\",\"u3\"]}}", 200));
    let (path, method) = expect_query(step);
    assert_eq!(path, "/threads");
    match method {
        DbMethod::Push(body) => assert_eq!(body, "{\"user_ids\": [\"u1\", \"u2\"]}"),
        _ => panic!("not a push"),
    }
    let (s, step) = next(s, ok("{\"name\":\"-Nabc\"}", 200));
    assert_eq!(expect_query(step).0, "/threads/-Nabc/message_ids");
    let (s, step) = next(s, ok("{}", 200));
    assert_eq!(expect_query(step).0, "/users/u1/threads/-Nabc");
    let (s, step) = next(s, ok("{}", 200));
    assert_eq!(expect_query(step).0, "/users/u2/threads/-Nabc");
    let (s, step) = next(s, ok("{}", 200));
    assert_eq!(expect_query(step).0, "/users/me/threads/-Nabc");
    let (_, step) = next(s, ok("{}", 500));
    match step {
        Step::Finish(Ok(reply)) => {
            assert_eq!(reply.action, "create_thread");
            assert_eq!(reply.body, "{\"thread_id\":\"-Nabc\"}");
            assert_eq!(reply.code, 500);
        },
        _ => panic!("expected the reply"),
    }
}

#[test]
fn create_thread_reuses_the_conversation_between_the_same_users() {
    let req = request("create_thread", "{\"user_ids\":[\"u1\",\"u2\"],\"message\":{}}");
    let (s, _) = take_action(&req, "me");
    let (s, _) = next(s, Event::Decoded(Some(msg("me"))));
    let stored = "{\"-Na\":{\"user_ids\":[\"u1\"]},\"-Nold\":{\"message_ids\":{\"m\":{}},\"user_ids\":[\"u2\",\"u1\"]}}";
    let (s, step) = next(s, ok(stored, 200));
    // no second conversation: the message goes to the one there is
    let (path, method) = expect_query(step);
    assert_eq!(path, "/threads/-Nold/message_ids");
    assert!(matches!(method, DbMethod::Push(_)));
    let (s, step) = next(s, ok("{}", 200));
    assert_eq!(expect_query(step).0, "/users/u1/threads/-Nold");
    let (s, step) = next(s, ok("{}", 200));
    assert_eq!(expect_query(step).0, "/users/u2/threads/-Nold");
    let (s, step) = next(s, ok("{}", 200));
    assert_eq!(expect_query(step).0, "/users/me/threads/-Nold");
    let (_, step) = next(s, ok("{}", 200));
    match step {
        Step::Finish(Ok(reply)) => {
            assert_eq!(reply.body, "{\"thread_id\":\"-Nold\"}");
            assert_eq!(reply.code, 200);
        },
        _ => panic!("expected the reply"),
    }
}

#[test]
fn create_thread_errors() {
    let (s, _) = take_action(&request("create_thread", "{\"message\":{},\"user_ids\":[\"a\",3]}"), "me");
    let (_, step) = next(s, Event::Decoded(Some(msg("me"))));
    assert!(matches!(step, Step::Abort));
    let (s, _) = take_action(&request("create_thread", "{\"message\":{},\"user_ids\":[]}"), "me");
    let (s, _) = next(s, Event::Decoded(Some(msg("me"))));
    let (s, _) = next(s, ok("null", 200));
    let (_, step) = next(s, ok("[1]", 200));
    assert!(matches!(step, Step::Finish(Err(ServerError::ReqNotJSON))));
    let (s, _) = take_action(&request("create_thread", "{\"message\":{},\"user_ids\":[]}"), "me");
    let (s, _) = next(s, Event::Decoded(Some(msg("me"))));
    let (s, _) = next(s, ok("null", 200));
    let (_, step) = next(s, ok("{\"id\":1}", 200));
    assert!(matches!(step, Step::Abort));
    // stored conversations that are no object, or no JSON
    let (s, _) = take_action(&request("create_thread", "{\"message\":{},\"user_ids\":[\"a\"]}"), "me");
    let (s, _) = next(s, Event::Decoded(Some(msg("me"))));
    let (_, step) = next(s, ok("[1]", 200));
    assert!(matches!(step, Step::Finish(Err(ServerError::ReqNotJSON))));
    let (s, _) = take_action(&request("create_thread", "{\"message\":{},\"user_ids\":[\"a\"]}"), "me");
    let (s, _) = next(s, Event::Decoded(Some(msg("me"))));
    let (_, step) = next(s, ok("{\"t\":", 200));
    assert!(matches!(step, Step::Abort));
    let (s, _) = take_action(&request("create_thread", "{\"message\":{}}"), "me");
    let (_, step) = next(s, Event::Decoded(Some(msg("me"))));
    assert!(matches!(step, Step::Finish(Err(ServerError::DatabaseFormatErr))));
}

#[test]
fn get_user_threads_flow() {
    let req = request("get_user_threads", "{\"user_id\":\"test_user_id\",\"start_index\":0,\"end_index\":1}");
    let (s, step) = take_action(&req, "me");
    match step {
        Step::Query(r) => {
            assert_eq!(r.path, "/users/test_user_id/threads");
            assert!(matches!(r.method, DbMethod::Get));
        },
        _ => panic!("expected a database request"),
    }
    let (_, step) = next(s, ok("{\"t\":{\"timestamp\":10},\"u\":{\"timestamp\":4}}", 200));
    match step {
        Step::Finish(Ok(reply)) => {
            assert_eq!(reply.action, "get_user_threads");
            assert_eq!(reply.body, "[{\"t\":{\"timestamp\":10}}]");
            assert_eq!(reply.code, 200);
        },
        _ => panic!("expected the reply"),
    }
}

#[test]
fn get_user_threads_arguments() {
    let (_, step) = take_action(&request("get_user_threads", "{\"start_index\":0,\"end_index\":1}"), "me");
    assert!(matches!(step, Step::Finish(Err(ServerError::DatabaseFormatErr))));
    let (_, step) = take_action(&request("get_user_threads", "{\"user_id\":5,\"start_index\":0,\"end_index\":1}"), "me");
    assert!(matches!(step, Step::Abort));
    let (_, step) = take_action(&request("get_user_threads", "{\"user_id\":\"u\",\"start_index\":-1,\"end_index\":1}"), "me");
    assert!(matches!(step, Step::Abort));
    let (_, step) = take_action(&request("get_user_threads", "{\"user_id\":\"u\",\"start_index\":3,\"end_index\":1}"), "me");
    assert!(matches!(step, Step::Abort));
    let (_, step) = take_action(&request("get_user_threads", "{\"user_id\":\"u\",\"start_index\":3}"), "me");
    assert!(matches!(step, Step::Finish(Err(ServerError::DatabaseFormatErr))));
}

#[test]
fn get_thread_messages_unknown_thread_is_404() {
    let req = request("get_thread_messages", "{\"thread_id\":\"nope\",\"start_index\":0,\"end_index\":2}");
    let (s, step) = take_action(&req, "me");
    match step {
        Step::Query(r) => {
            assert_eq!(r.path, "/threads/nope/message_ids");
            assert!(matches!(r.method, DbMethod::Get));
        },
        _ => panic!("expected a database request"),
    }
    let (_, step) = next(s, ok("null", 200));
    match step {
        Step::Finish(Ok(reply)) => {
            assert_eq!(reply.body, "Invalid Thread Id");
            assert_eq!(reply.code, 404);
        },
        _ => panic!("expected the reply"),
    }
}

#[test]
fn get_thread_messages_sorted_and_errors() {
    let req = request("get_thread_messages", "{\"thread_id\":\"t\",\"start_index\":0,\"end_index\":2}");
    let (s, _) = take_action(&req, "me");
    let (_, step) = next(s, ok("{\"a\":{\"timestamp\":1},\"b\":{\"timestamp\":2}}", 200));
    match step {
        Step::Finish(Ok(reply)) => assert_eq!(reply.body, "[{\"timestamp\":2},{\"timestamp\":1}]"),
        _ => panic!("expected the reply"),
    }
    let (s, _) = take_action(&req, "me");
    let (_, step) = next(s, Event::Answer(Err(ServerError::NetworkErr("down".to_string()))));
    assert!(matches!(step, Step::Finish(Err(ServerError::NetworkErr(_)))));
    let (s, _) = take_action(&req, "me");
    assert!(!s.accepts(&Event::Delivered(Ok(()))));
    let (_, step) = next(s, ok("garbage", 200));
    assert!(matches!(step, Step::Abort));
}

#[test]
fn reply_codes() {
    assert_eq!(status_code(200), 200);
    assert_eq!(status_code(400), 400);
    assert_eq!(status_code(404), 500);
    assert_eq!(status_code(201), 500);
}

#[test]
fn quotes_are_removed() {
    assert_eq!(strip_quotes("\"-Nabc\""), "-Nabc");
    assert_eq!(strip_quotes("a\"b\"\"c"), "abc");
    assert_eq!(strip_quotes(""), "");
}

#[test]
fn get_user_threads_of_user_without_threads_is_empty_list() {
    let req = request("get_user_threads", "{\"user_id\":\"new\",\"start_index\":0,\"end_index\":5}");
    let (s, _) = take_action(&req, "new");
    let (_, step) = next(s, ok("null", 200));
    match step {
        Step::Finish(Ok(reply)) => {
            assert_eq!(reply.body, "[]");
            assert_eq!(reply.code, 200);
        },
        _ => panic!("expected the reply"),
    }
}

#[test]
fn get_user_threads_later_page() {
    let req = request("get_user_threads", "{\"user_id\":\"u\",\"start_index\":1,\"end_index\":3}");
    let (s, _) = take_action(&req, "u");
    let (_, step) = next(s, ok("{\"a\":{\"timestamp\":1},\"b\":{\"timestamp\":3},\"c\":{\"timestamp\":2}}", 200));
    match step {
        Step::Finish(Ok(reply)) => assert_eq!(reply.body, "[{\"c\":{\"timestamp\":2}},{\"a\":{\"timestamp\":1}}]"),
        _ => panic!("expected the reply"),
    }
}

#[test]
fn get_thread_messages_later_page() {
    let req = request("get_thread_messages", "{\"thread_id\":\"t\",\"start_index\":1,\"end_index\":3}");
    let (s, _) = take_action(&req, "me");
    let stored = "{\"m1\":{\"timestamp\":10},\"m2\":{\"timestamp\":30},\"m3\":{\"timestamp\":20},\"m4\":{\"timestamp\":40}}";
    // oldest first: 10, 20, 30, 40; positions 1 and 2, newest first
    let (_, step) = next(s, ok(stored, 200));
    match step {
        Step::Finish(Ok(reply)) => assert_eq!(reply.body, "[{\"timestamp\":30},{\"timestamp\":20}]"),
        _ => panic!("expected the reply"),
    }
}
