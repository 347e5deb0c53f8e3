use rust_messenger::db::{DbMethod, Response};
use rust_messenger::error::ServerError;
use rust_messenger::json::Json;
use rust_messenger::message::Message;
use rust_messenger::users::{
    get_user_outcome, get_user_request, get_user_threads_outcome, get_user_threads_request,
    newest_first_entries, sort_user_threads, sort_user_threads_checked, update_user_threads_request,
    user_threads_page_checked,
};

#[test]
fn sort_user_threads_test() {
    let res = sort_user_threads(
        "{\"test_thread_id\":\
            {\"contents\":\"well hello there\",\
            \"read\":true,\
            \"timestamp\":5,\
            \"user_id\":\"test_user_id_2\"},\
          \"test_thread_id_2\":\
            {\"contents\":\"This Is A Test Message\",\
            \"read\":false,\
            \"timestamp\":100,\
            \"user_id\":\"test_user_id_2\"}}".to_string()
    );

    let sorted = "[{\"test_thread_id_2\":\
                        {\"contents\":\"This Is A Test Message\",\
                        \"read\":false,\
                        \"timestamp\":100,\
                        \"user_id\":\"test_user_id_2\"}},\
                    {\"test_thread_id\":\
                        {\"contents\":\"well hello there\",\
                        \"read\":true,\
                        \"timestamp\":5,\
                        \"user_id\":\"test_user_id_2\"}}]".to_string();

    assert_eq!(res.ok().unwrap().body, sorted)
}

#[test]
fn sort_user_threads_keeps_ties_in_key_order() {
    let res = sort_user_threads(
        "{\"b\":{\"timestamp\":7},\"a\":{\"timestamp\":7},\"c\":{\"timestamp\":9}}".to_string(),
    );
    let r = res.ok().unwrap();
    assert_eq!(r.body, "[{\"c\":{\"timestamp\":9}},{\"a\":{\"timestamp\":7}},{\"b\":{\"timestamp\":7}}]");
    assert_eq!(r.code, 200);
}

#[test]
fn sort_user_threads_rejects_non_object() {
    let res = sort_user_threads("[1, 2]".to_string());
    assert!(matches!(res, Err(ServerError::ReqNotJSON)));
}

#[test]
fn sort_user_threads_gives_up_on_bad_input() {
    assert!(sort_user_threads_checked("not json").is_none());
    assert!(sort_user_threads_checked("{\"a\":{\"timestamp\":1},\"b\":{}}").is_none());
    // a single conversation is never compared, so it needs no timestamp
    let single = sort_user_threads_checked("{\"a\":{\"x\":1}}").unwrap().ok().unwrap();
    assert_eq!(single.body, "[{\"a\":{\"x\":1}}]");
    let empty = sort_user_threads_checked("{}").unwrap().ok().unwrap();
    assert_eq!(empty.body, "[]");
}

#[test]
fn get_user_request_path() {
    let req = get_user_request("test_user_id");
    assert_eq!(req.path, "/users/test_user_id");
    assert!(matches!(req.method, DbMethod::Get));
}

#[test]
fn get_user_outcome_null_is_invalid_user() {
    let out = get_user_outcome(Ok(Response { body: "null".to_string(), code: 200 }));
    assert!(matches!(out, Err(ServerError::InvalidUserId)));
    let out = get_user_outcome(Ok(Response { body: "{\"username\":\"T\"}".to_string(), code: 200 }));
    assert_eq!(out.ok().unwrap().body, "{\"username\":\"T\"}");
    let out = get_user_outcome(Err(ServerError::UrlIsNotHTTPS));
    assert!(matches!(out, Err(ServerError::UrlIsNotHTTPS)));
}

#[test]
fn get_user_threads_request_reads_all() {
    let req = get_user_threads_request("test_user_id");
    assert_eq!(req.path, "/users/test_user_id/threads");
    assert!(matches!(req.method, DbMethod::Get));
}

fn answer(body: &str) -> Result<Response, ServerError> {
    Ok(Response { body: body.to_string(), code: 200 })
}

#[test]
fn get_user_threads_outcome_cases() {
    let out = get_user_threads_outcome(answer("null"), 0, 3).unwrap().ok().unwrap();
    assert_eq!(out.body, "[]");
    assert_eq!(out.code, 200);
    let out = get_user_threads_outcome(answer("{\"t1\":{\"timestamp\":1},\"t2\":{\"timestamp\":2}}"), 0, 2)
        .unwrap()
        .ok()
        .unwrap();
    assert_eq!(out.body, "[{\"t2\":{\"timestamp\":2}},{\"t1\":{\"timestamp\":1}}]");
    assert!(get_user_threads_outcome(answer("oops"), 0, 1).is_none());
    assert!(matches!(get_user_threads_outcome(answer("[1]"), 0, 1), Some(Err(ServerError::ReqNotJSON))));
    assert!(matches!(
        get_user_threads_outcome(Err(ServerError::NetworkErr("down".to_string())), 0, 1),
        Some(Err(ServerError::NetworkErr(_)))
    ));
}

#[test]
fn get_user_threads_pages_by_position() {
    let three = "{\"a\":{\"timestamp\":5},\"b\":{\"timestamp\":9},\"c\":{\"timestamp\":1}}";
    // newest first: b, a, c
    let out = get_user_threads_outcome(answer(three), 1, 2).unwrap().ok().unwrap();
    assert_eq!(out.body, "[{\"a\":{\"timestamp\":5}}]");
    let out = get_user_threads_outcome(answer(three), 1, 10).unwrap().ok().unwrap();
    assert_eq!(out.body, "[{\"a\":{\"timestamp\":5}},{\"c\":{\"timestamp\":1}}]");
    let out = get_user_threads_outcome(answer(three), 0, 1).unwrap().ok().unwrap();
    assert_eq!(out.body, "[{\"b\":{\"timestamp\":9}}]");
    let out = get_user_threads_outcome(answer(three), 2, 2).unwrap().ok().unwrap();
    assert_eq!(out.body, "[]");
    let out = get_user_threads_outcome(answer(three), 7, 9).unwrap().ok().unwrap();
    assert_eq!(out.body, "[]");
    let page = user_threads_page_checked(three, 0, 3).unwrap().ok().unwrap();
    assert_eq!(page.body, "[{\"b\":{\"timestamp\":9}},{\"a\":{\"timestamp\":5}},{\"c\":{\"timestamp\":1}}]");
}

#[test]
fn get_user_threads_test() {
    let req = get_user_threads_request("test_user_id");
    assert_eq!(req.path, "/users/test_user_id/threads");
    let stored = "{\"test_thread_id\":\
                    {\"contents\":\"Look! I sent you a message.\",\
                     \"read\":false,\
                     \"timestamp\":10,\
                     \"user_id\":\"test_user_id\"}}";
    let res = get_user_threads_outcome(answer(stored), 0, 1).unwrap();
    assert_eq!(
        res.ok().unwrap().body,
        "[{\"test_thread_id\":\
            {\"contents\":\"Look! I sent you a message.\",\
             \"read\":false,\
             \"timestamp\":10,\
             \"user_id\":\"test_user_id\"}}]"
    )
}

#[test]
fn get_user_test() {
    let req = get_user_request("test_user_id");
    assert_eq!(req.path, "/users/test_user_id");
    let stored = "{\"email\":\"test@test.com\",\
                   \"threads\":\
                      {\"test_thread_id\":\
                         {\"contents\":\"Look! I sent you a message.\",\
                         \"read\":false,\
                         \"timestamp\":10,\
                         \"user_id\":\"test_user_id\"}},\
                   \"username\":\"Test Name\"}";
    let res = get_user_outcome(answer(stored));
    assert_eq!(
        res.ok().unwrap().body,
        "{\"email\":\"test@test.com\",\
          \"threads\":\
             {\"test_thread_id\":\
                {\"contents\":\"Look! I sent you a message.\",\
                \"read\":false,\
                \"timestamp\":10,\
                \"user_id\":\"test_user_id\"}},\
          \"username\":\"Test Name\"}"
    )
}

#[test]
fn update_user_threads_test() {
    let new_message = Message {
        user_id: "test_user_id_2".to_owned(),
        timestamp: 100,
        contents: "This Is A Test Message".to_owned(),
        read: false,
    };
    let req = update_user_threads_request("test_user_id_2", "test_thread_id_2", &new_message);
    assert_eq!(req.path, "/users/test_user_id_2/threads/test_thread_id_2");
    match req.method {
        DbMethod::Update(body) => {
            assert_eq!(
                body,
                "{\"user_id\":\"test_user_id_2\", \"timestamp\":100, \"contents\":\"This Is A Test Message\", \"read\":false}"
            );
            // the stored record reads back as the record that the database
            // echoes for this update
            let echoed = "{\"user_id\":\"test_user_id_2\",\"timestamp\":100,\"contents\":\"This Is A Test Message\",\"read\":false}";
            assert_eq!(Json::parse(&body).unwrap().render(), Json::parse(echoed).unwrap().render());
        },
        _ => panic!("not an update"),
    }
}

#[test]
fn newest_first_entries_orders_members() {
    let parsed = Json::parse("{\"x\":{\"timestamp\":3},\"y\":{\"timestamp\":8},\"z\":{\"timestamp\":3}}").unwrap();
    let ms = match parsed {
        Json::Object(ms) => ms,
        _ => panic!("expected an object"),
    };
    let out = newest_first_entries(&ms).unwrap();
    let shown: Vec<String> = out.iter().map(|e| e.render()).collect();
    assert_eq!(
        shown,
        vec![
            "{\"y\":{\"timestamp\":8}}".to_string(),
            "{\"x\":{\"timestamp\":3}}".to_string(),
            "{\"z\":{\"timestamp\":3}}".to_string(),
        ]
    );
    let bad = match Json::parse("{\"x\":{\"timestamp\":3},\"y\":{}}").unwrap() {
        Json::Object(ms) => ms,
        _ => panic!("expected an object"),
    };
    assert!(newest_first_entries(&bad).is_none());
}
