use rust_messenger::db::{DbMethod, Response};
use rust_messenger::error::ServerError;
use rust_messenger::json::Json;
use rust_messenger::protocol::find_thread_for;
use rust_messenger::threads::{
    build_thread_json, create_thread_request, get_thread_messages_outcome,
    get_thread_messages_request, get_thread_user_ids_outcome, get_thread_user_ids_request,
    get_threads_request, newest_first_values, sort_thread_messages, sort_thread_messages_checked,
    thread_messages_page_checked, thread_window, user_ids_to_str,
};

fn ids(v: &[&str]) -> Vec<String> {
    v.iter().map(|s| s.to_string()).collect()
}

#[test]
fn user_ids_to_str_lists_as_json() {
    assert_eq!(user_ids_to_str(&ids(&["a", "b"])), "[\"a\", \"b\"]");
    assert_eq!(user_ids_to_str(&ids(&[])), "[]");
    assert_eq!(user_ids_to_str(&ids(&["x"])), "[\"x\"]");
    assert_eq!(user_ids_to_str(&ids(&["a\"b"])), "[\"a\\\"b\"]");
    assert_eq!(user_ids_to_str(&ids(&["t\tb\\", "\u{1f}"])), "[\"t\\tb\\\\\", \"\\u001f\"]");
}

#[test]
fn user_ids_read_back() {
    let list = ids(&["a\"b", "c\\d", "e f", "\u{7}"]);
    let parsed = Json::parse(&user_ids_to_str(&list)).unwrap();
    match parsed {
        Json::Array(items) => {
            let back: Vec<String> = items
                .into_iter()
                .map(|i| match i {
                    Json::Str(t) => t,
                    _ => panic!("an id is no string"),
                })
                .collect();
            assert_eq!(back, list);
        },
        _ => panic!("not a list"),
    }
}

#[test]
fn build_thread_json_record() {
    assert_eq!(build_thread_json(&ids(&["u1", "u2"])), "{\"user_ids\": [\"u1\", \"u2\"]}");
}

#[test]
fn create_thread_request_pushes_record() {
    let req = create_thread_request(&ids(&["u1", "u2"]));
    assert_eq!(req.path, "/threads");
    match req.method {
        DbMethod::Push(body) => assert_eq!(body, "{\"user_ids\": [\"u1\", \"u2\"]}"),
        _ => panic!("not a push"),
    }
}

#[test]
fn get_thread_requests() {
    let req = get_thread_user_ids_request("test_thread_id");
    assert_eq!(req.path, "/threads/test_thread_id/user_ids");
    assert!(matches!(req.method, DbMethod::Get));
    let req = get_thread_messages_request("test_thread_id");
    assert_eq!(req.path, "/threads/test_thread_id/message_ids");
    assert!(matches!(req.method, DbMethod::Get));
    let req = get_threads_request();
    assert_eq!(req.path, "/threads");
    assert!(matches!(req.method, DbMethod::Get));
}

fn answer(body: &str) -> Result<Response, ServerError> {
    Ok(Response { body: body.to_string(), code: 200 })
}

fn members(text: &str) -> Vec<(String, Json)> {
    match Json::parse(text).unwrap() {
        Json::Object(ms) => ms,
        _ => panic!("expected an object"),
    }
}

fn rendered(v: &[Json]) -> Vec<String> {
    v.iter().map(|e| e.render()).collect()
}

#[test]
fn thread_outcomes_of_null() {
    let out = get_thread_user_ids_outcome(answer("null"));
    assert!(matches!(out, Err(ServerError::InvalidThreadId)));
    let out = get_thread_user_ids_outcome(answer("[\"a\"]"));
    assert_eq!(out.ok().unwrap().body, "[\"a\"]");
    let out = get_thread_messages_outcome(answer("null"), 0, 2).unwrap();
    assert!(matches!(out, Err(ServerError::InvalidThreadId)));
    assert!(get_thread_messages_outcome(answer("{"), 0, 2).is_none());
}

#[test]
fn get_thread_test() {
    let req = get_thread_messages_request("test_thread_id");
    assert_eq!(req.path, "/threads/test_thread_id/message_ids");
    let stored = "{\"m0\":{\"contents\":\"fake data\",\"timestamp\":10,\"user_id\":0},\
                   \"m1\":{\"contents\":\"fake data\",\"timestamp\":128,\"user_id\":1}}";
    let res = get_thread_messages_outcome(answer(stored), 0, 2).unwrap();
    assert_eq!(
        res.ok().unwrap().body,
        "[\
        {\"contents\":\"fake data\",\"timestamp\":128,\"user_id\":1},\
        {\"contents\":\"fake data\",\"timestamp\":10,\"user_id\":0}\
        ]"
    )
}

#[test]
fn thread_messages_page_by_position() {
    // oldest first: b (1), c (2), a (3), d (4)
    let stored = "{\"a\":{\"timestamp\":3},\"b\":{\"timestamp\":1},\"c\":{\"timestamp\":2},\"d\":{\"timestamp\":4}}";
    let out = get_thread_messages_outcome(answer(stored), 1, 3).unwrap().ok().unwrap();
    assert_eq!(out.body, "[{\"timestamp\":3},{\"timestamp\":2}]");
    let out = get_thread_messages_outcome(answer(stored), 0, 1).unwrap().ok().unwrap();
    assert_eq!(out.body, "[{\"timestamp\":1}]");
    let out = get_thread_messages_outcome(answer(stored), 2, 100).unwrap().ok().unwrap();
    assert_eq!(out.body, "[{\"timestamp\":4},{\"timestamp\":3}]");
    let out = get_thread_messages_outcome(answer(stored), 4, 6).unwrap().ok().unwrap();
    assert_eq!(out.body, "[]");
    let out = thread_messages_page_checked(stored, 0, 4).unwrap().ok().unwrap();
    assert_eq!(out.body, "[{\"timestamp\":4},{\"timestamp\":3},{\"timestamp\":2},{\"timestamp\":1}]");
    assert!(matches!(thread_messages_page_checked("[]", 0, 1), Some(Err(ServerError::ReqNotJSON))));
}

#[test]
fn thread_window_and_newest_first_values() {
    let ms = members("{\"p\":{\"timestamp\":5,\"n\":1},\"q\":{\"timestamp\":5,\"n\":2},\"r\":{\"timestamp\":2}}");
    // oldest first: r, p, q (equal timestamps keep their stored order)
    let w = thread_window(&ms, 0, 2).unwrap();
    assert_eq!(rendered(&w), vec!["{\"n\":1,\"timestamp\":5}".to_string(), "{\"timestamp\":2}".to_string()]);
    let w = thread_window(&ms, 1, 3).unwrap();
    assert_eq!(
        rendered(&w),
        vec!["{\"n\":1,\"timestamp\":5}".to_string(), "{\"n\":2,\"timestamp\":5}".to_string()]
    );
    let all = newest_first_values(&ms).unwrap();
    assert_eq!(
        rendered(&all),
        vec![
            "{\"n\":1,\"timestamp\":5}".to_string(),
            "{\"n\":2,\"timestamp\":5}".to_string(),
            "{\"timestamp\":2}".to_string(),
        ]
    );
    let bad = members("{\"p\":{\"timestamp\":5},\"q\":{\"timestamp\":\"late\"}}");
    assert!(thread_window(&bad, 0, 1).is_none());
    assert!(newest_first_values(&bad).is_none());
}

#[test]
fn find_thread_for_matches_the_set_of_users() {
    let ms = members(
        "{\"t1\":{\"user_ids\":[\"a\",\"b\",\"c\"]},\"t2\":{\"user_ids\":[\"b\",\"a\"]},\"t3\":{\"message_ids\":{}}}",
    );
    assert_eq!(find_thread_for(&ms, &ids(&["a", "b"])), Some("t2".to_string()));
    assert_eq!(find_thread_for(&ms, &ids(&["c", "b", "a"])), Some("t1".to_string()));
    assert_eq!(find_thread_for(&ms, &ids(&["a"])), None);
    assert_eq!(find_thread_for(&ms, &ids(&["a", "b", "d"])), None);
}

#[test]
fn sort_thread_messages_newest_first() {
    let res = sort_thread_messages(
        "{\"m1\":{\"contents\":\"fake data\",\"timestamp\":10,\"user_id\":0},\
          \"m2\":{\"contents\":\"fake data\",\"timestamp\":128,\"user_id\":1}}"
            .to_string(),
    );
    assert_eq!(
        res.ok().unwrap().body,
        "[\
        {\"contents\":\"fake data\",\"timestamp\":128,\"user_id\":1},\
        {\"contents\":\"fake data\",\"timestamp\":10,\"user_id\":0}\
        ]"
    );
}

#[test]
fn sort_thread_messages_special_cases() {
    assert!(matches!(sort_thread_messages("\"text\"".to_string()), Err(ServerError::ReqNotJSON)));
    assert!(sort_thread_messages_checked("{").is_none());
    assert!(sort_thread_messages_checked("{\"a\":{\"timestamp\":-1},\"b\":{\"timestamp\":2}}").is_none());
}
