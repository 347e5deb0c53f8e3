//! Users: where their data is stored, the requests that read and update
//! their conversation lists, and how those lists are ordered for display.
use vstd::prelude::*;
use vstd::string::*;
use crate::db::{is_null_body, null_text, opt_result_view, result_view, DbMethod, DbRequest, DbRequestView, MethodView, Response, ResponseView};
use crate::message::{lemma_user_record_reads_back, new_message_to_user_json, user_record, Message, MessageView};
use crate::error::ServerError;
use crate::json::{items_view, lemma_items_view, lemma_members_view, members_view, parsed_json, rendered_json, Json, JsonView};
use crate::recency::{lemma_newest_first_exists, lemma_page_is_n_through_m, recency_key, comparable, is_newest_first, member_keys, member_timestamps, newest_first, newest_first_order, page, page_bounds};

verus! {

/// Each member as an object of its own, newest first.
pub open spec fn newest_entries(ms: Seq<(Seq<char>, JsonView)>) -> Seq<JsonView> {
    let order = newest_first(member_keys(ms));
    Seq::new(order.len(), |k: int| JsonView::Object(seq![ms[order[k] as int]]))
}

/// Threads `start` through `end` of a user's conversations: that page of
/// the newest-first list of single-member objects.
pub open spec fn user_threads_entries(ms: Seq<(Seq<char>, JsonView)>, start: u32, end: u32) -> Seq<JsonView> {
    let all = newest_entries(ms);
    let b = page_bounds(all.len(), start, end);
    all.subrange(b.0, b.1)
}

/// The timestamp of a single-member object listed for a conversation.
pub open spec fn entry_key(e: JsonView) -> u64 {
    match e {
        JsonView::Object(m) => if m.len() > 0 { recency_key(m[0].1) } else { 0 },
        _ => 0,
    }
}

/// Law (pages of a user's conversations go from newest to oldest): each
/// entry on a page is one of the user's conversations, as an object of its
/// own; no conversation on a page is older than one on a later page; each
/// page lists its conversations newest first and holds `end - start` of
/// them wherever the list reaches `end`.
pub proof fn lemma_user_pages_newest_to_oldest(ms: Seq<(Seq<char>, JsonView)>, s1: u32, e1: u32, s2: u32, e2: u32)
    requires
        ms.len() < usize::MAX,
        s1 <= e1 <= s2 <= e2,
    ensures
        forall|k: int| 0 <= k < user_threads_entries(ms, s1, e1).len() ==> exists|c: int| 0 <= c < ms.len()
            && #[trigger] user_threads_entries(ms, s1, e1)[k] == JsonView::Object(seq![ms[c]]),
        forall|i: int, j: int| 0 <= i < user_threads_entries(ms, s1, e1).len() && 0 <= j < user_threads_entries(ms, s2, e2).len()
            ==> entry_key(#[trigger] user_threads_entries(ms, s1, e1)[i]) >= entry_key(#[trigger] user_threads_entries(ms, s2, e2)[j]),
        forall|x: int, y: int| 0 <= x < y < user_threads_entries(ms, s1, e1).len()
            ==> entry_key(#[trigger] user_threads_entries(ms, s1, e1)[x]) >= entry_key(#[trigger] user_threads_entries(ms, s1, e1)[y]),
        e1 <= ms.len() ==> user_threads_entries(ms, s1, e1).len() == e1 - s1,
{
    let keys = member_keys(ms);
    lemma_newest_first_exists(keys);
    let order = newest_first(keys);
    let all = newest_entries(ms);
    assert(all.len() == ms.len());
    lemma_page_is_n_through_m(ms.len(), s1, e1);
    lemma_page_is_n_through_m(ms.len(), s2, e2);
    let b1 = page_bounds(all.len(), s1, e1);
    let b2 = page_bounds(all.len(), s2, e2);
    let p1 = user_threads_entries(ms, s1, e1);
    let p2 = user_threads_entries(ms, s2, e2);
    assert forall|k: int| 0 <= k < p1.len() implies exists|c: int| 0 <= c < ms.len()
        && #[trigger] p1[k] == JsonView::Object(seq![ms[c]]) by {
        assert(p1[k] == all[b1.0 + k]);
        assert(order[b1.0 + k] < ms.len());
    }
    assert forall|i: int, j: int| 0 <= i < p1.len() && 0 <= j < p2.len()
        implies entry_key(#[trigger] p1[i]) >= entry_key(#[trigger] p2[j]) by {
        let a = b1.0 + i;
        let c = b2.0 + j;
        assert(p1[i] == all[a] && p2[j] == all[c]);
        assert(order[a] < ms.len() && order[c] < ms.len());
        assert(entry_key(all[a]) == keys[order[a] as int]);
        assert(entry_key(all[c]) == keys[order[c] as int]);
        if a < c {
            assert(keys[order[a] as int] >= keys[order[c] as int]);
        }
    }
    assert forall|x: int, y: int| 0 <= x < y < p1.len()
        implies entry_key(#[trigger] p1[x]) >= entry_key(#[trigger] p1[y]) by {
        let a = b1.0 + x;
        let c = b1.0 + y;
        assert(p1[x] == all[a] && p1[y] == all[c]);
        assert(order[a] < ms.len() && order[c] < ms.len());
        assert(entry_key(all[a]) == keys[order[a] as int]);
        assert(entry_key(all[c]) == keys[order[c] as int]);
        assert(keys[order[a] as int] >= keys[order[c] as int]);
    }
}

/// What the server makes of a user's conversations, as the database
/// returns them (an object keyed by thread id): one single-member object
/// per conversation, newest first, as a JSON array, with code 200;
/// `ReqNotJSON` where the text is JSON but no object; and nothing (`None`)
/// where the text is not JSON or two or more conversations are not all
/// timestamped, where the server gives up.
pub open spec fn user_threads_reply(text: Seq<char>) -> Option<Result<ResponseView, ServerError>> {
    match parsed_json(text) {
        None => None,
        Some(JsonView::Object(ms)) => if comparable(ms) {
            Some(Ok(ResponseView { body: rendered_json(JsonView::Array(newest_entries(ms))), code: 200 }))
        } else {
            None
        },
        Some(_) => Some(Err(ServerError::ReqNotJSON)),
    }
}

/// The members of an object, each as an object of its own, newest first;
/// `None` where they cannot be ordered.
pub fn newest_first_entries(ms: &Vec<(String, Json)>) -> (out: Option<Vec<Json>>)
    ensures
        out is None <==> !comparable(members_view(ms@)),
        out matches Some(v) ==> items_view(v@) == newest_entries(members_view(ms@)),
{
    let ghost mv = members_view(ms@);
    proof {
        lemma_members_view(ms@);
    }
    match member_timestamps(ms) {
        None => None,
        Some(keys) => {
            let order = newest_first_order(&keys);
            let ghost expected = newest_entries(mv);
            let mut out: Vec<Json> = Vec::new();
            let mut k: usize = 0;
            while k < order.len()
                invariant
                    0 <= k <= order.len(),
                    is_newest_first(keys@, order@),
                    order@ == newest_first(member_keys(mv)),
                    keys@.len() == ms@.len(),
                    mv == members_view(ms@),
                    mv.len() == ms@.len(),
                    forall|j: int| 0 <= j < ms@.len() ==> #[trigger] mv[j] == (ms@[j].0@, ms@[j].1.view()),
                    expected == newest_entries(mv),
                    out@.len() == k,
                    forall|j: int| 0 <= j < k ==> (#[trigger] out@[j]).view() == expected[j],
                decreases order.len() - k,
            {
                let o = order[k];
                proof {
                    assert(order@[k as int] < keys@.len());
                }
                let mut single: Vec<(String, Json)> = Vec::new();
                single.push((ms[o].0.clone(), ms[o].1.duplicate()));
                proof {
                    lemma_members_view(single@);
                    assert(members_view(single@) =~= seq![mv[o as int]]);
                }
                out.push(Json::Object(single));
                k = k + 1;
            }
            proof {
                lemma_items_view(out@);
                assert(items_view(out@) =~= expected);
            }
            Some(out)
        },
    }
}

/// Orders a user's conversations newest first; `None` where the server
/// gives up on them (see `user_threads_reply`).
pub fn sort_user_threads_checked(threads: &str) -> (reply: Option<Result<Response, ServerError>>)
    ensures
        opt_result_view(reply) == user_threads_reply(threads@),
{
    match Json::parse(threads) {
        None => None,
        Some(Json::Object(ms)) => match newest_first_entries(&ms) {
            None => None,
            Some(out) => {
                let body = Json::Array(out).render();
                Some(Ok(Response { body, code: 200 }))
            },
        },
        Some(_) => Some(Err(ServerError::ReqNotJSON)),
    }
}

/// What the server makes of a page of a user's conversations: the
/// conversations at positions `start` up to `end` of the newest-first list
/// (cut at its end), each as a single-member object, as a JSON array, with
/// code 200; `ReqNotJSON` where the text is JSON but no object; nothing
/// (`None`) where the server gives up (see `user_threads_reply`).
pub open spec fn user_threads_page(text: Seq<char>, start: u32, end: u32) -> Option<Result<ResponseView, ServerError>> {
    match parsed_json(text) {
        None => None,
        Some(JsonView::Object(ms)) => if comparable(ms) {
            Some(Ok(ResponseView { body: rendered_json(JsonView::Array(user_threads_entries(ms, start, end))), code: 200 }))
        } else {
            None
        },
        Some(_) => Some(Err(ServerError::ReqNotJSON)),
    }
}

/// Threads `start` through `end` of a user's conversations, newest first;
/// `None` where the server gives up on them.
pub fn user_threads_page_checked(threads: &str, start: u32, end: u32) -> (reply: Option<Result<Response, ServerError>>)
    requires
        start <= end,
    ensures
        opt_result_view(reply) == user_threads_page(threads@, start, end),
{
    match Json::parse(threads) {
        None => None,
        Some(Json::Object(ms)) => match newest_first_entries(&ms) {
            None => None,
            Some(all) => {
                let ghost av = items_view(all@);
                proof {
                    lemma_items_view(all@);
                }
                let (lo, hi) = page(all.len(), start, end);
                let mut out: Vec<Json> = Vec::new();
                let mut k: usize = lo;
                while k < hi
                    invariant
                        lo <= k <= hi <= all.len(),
                        av == items_view(all@),
                        av.len() == all@.len(),
                        forall|j: int| 0 <= j < all@.len() ==> #[trigger] av[j] == all@[j].view(),
                        out@.len() == k - lo,
                        forall|j: int| 0 <= j < k - lo ==> (#[trigger] out@[j]).view() == av[lo + j],
                    decreases hi - k,
                {
                    out.push(all[k].duplicate());
                    k = k + 1;
                }
                proof {
                    lemma_items_view(out@);
                    assert(items_view(out@) =~= av.subrange(lo as int, hi as int));
                }
                let body = Json::Array(out).render();
                Some(Ok(Response { body, code: 200 }))
            },
        },
        Some(_) => Some(Err(ServerError::ReqNotJSON)),
    }
}

/// Orders a user's conversations temporally, newest first, so that the
/// frontend can show them in a coherent order.
pub fn sort_user_threads(threads: String) -> (reply: Result<Response, ServerError>)
    requires
        user_threads_reply(threads@) is Some,
    ensures
        Some(result_view(reply)) == user_threads_reply(threads@),
{
    match sort_user_threads_checked(threads.as_str()) {
        Some(r) => r,
        None => vstd::pervasive::unreached(),
    }
}

/// Where a user is stored.
pub open spec fn user_path(user_id: Seq<char>) -> Seq<char> {
    "/users/"@ + user_id
}

/// Where a user's conversations are listed.
pub open spec fn user_threads_path(user_id: Seq<char>) -> Seq<char> {
    "/users/"@ + user_id + "/threads"@
}

/// Where a user's entry for one conversation is stored.
pub open spec fn user_thread_path(user_id: Seq<char>, thread_id: Seq<char>) -> Seq<char> {
    "/users/"@ + user_id + "/threads/"@ + thread_id
}

/// The request that reads a user.
pub open spec fn user_read(user_id: Seq<char>) -> DbRequestView {
    DbRequestView { path: user_path(user_id), method: MethodView::Get }
}

/// The request that reads all the conversations of a user.
pub open spec fn user_threads_read(user_id: Seq<char>) -> DbRequestView {
    DbRequestView { path: user_threads_path(user_id), method: MethodView::Get }
}

/// The request that records a new message in a user's entry for a
/// conversation.
pub open spec fn user_thread_update(user_id: Seq<char>, thread_id: Seq<char>, m: MessageView) -> DbRequestView {
    DbRequestView {
        path: user_thread_path(user_id, thread_id),
        method: MethodView::Update(user_record(m.user_id, m.timestamp, m.contents, m.read)),
    }
}

/// Law (every participant's entry carries the message as sent): the entry
/// written for a new message in the list of any user, sender or
/// recipient, is written at that user's entry for the conversation, is the
/// same for every user, and reads back as the message itself: its record is
/// the record of that message and of no other, `read` flag included.
pub proof fn lemma_entry_is_the_message(u1: Seq<char>, u2: Seq<char>, thread_id: Seq<char>, m: MessageView)
    ensures
        user_thread_update(u1, thread_id, m).path == user_thread_path(u1, thread_id),
        user_thread_update(u1, thread_id, m).method == user_thread_update(u2, thread_id, m).method,
        user_thread_update(u1, thread_id, m).method matches MethodView::Update(rec) && forall|m2: MessageView|
            #[trigger] user_record(m2.user_id, m2.timestamp, m2.contents, m2.read) == rec <==> m2 == m,
{
    let rec = user_record(m.user_id, m.timestamp, m.contents, m.read);
    assert forall|m2: MessageView|
        #[trigger] user_record(m2.user_id, m2.timestamp, m2.contents, m2.read) == rec <==> m2 == m by {
        if user_record(m2.user_id, m2.timestamp, m2.contents, m2.read) == rec {
            lemma_user_record_reads_back(m2, m);
        }
    }
}

/// What reading a user comes to: a user that the database does not hold is
/// `InvalidUserId`.
pub open spec fn user_outcome(answer: Result<ResponseView, ServerError>) -> Result<ResponseView, ServerError> {
    match answer {
        Err(e) => Err(e),
        Ok(r) => if r.body == null_text() { Err(ServerError::InvalidUserId) } else { Ok(r) },
    }
}

/// What reading a user's conversations comes to, for threads `start`
/// through `end`: a user with none has the empty list, `[]`; otherwise the
/// page of the newest-first list (`None` where the server gives up on it).
pub open spec fn user_threads_outcome(answer: Result<ResponseView, ServerError>, start: u32, end: u32) -> Option<Result<ResponseView, ServerError>> {
    match answer {
        Err(e) => Some(Err(e)),
        Ok(r) => if r.body == null_text() {
            Some(Ok(ResponseView { body: seq!['[', ']'], code: 200 }))
        } else {
            user_threads_page(r.body, start, end)
        },
    }
}

/// Retrieves a user (their email, username and conversations): the request.
pub fn get_user_request(user_id: &str) -> (request: DbRequest)
    ensures
        request@ == user_read(user_id@),
{
    let mut path = String::new();
    path.append("/users/");
    path.append(user_id);
    DbRequest { path, method: DbMethod::Get }
}

/// Retrieves a user: what the database's answer comes to.
pub fn get_user_outcome(answer: Result<Response, ServerError>) -> (outcome: Result<Response, ServerError>)
    ensures
        result_view(outcome) == user_outcome(result_view(answer)),
{
    match answer {
        Err(e) => Err(e),
        Ok(r) => if is_null_body(&r.body) { Err(ServerError::InvalidUserId) } else { Ok(r) },
    }
}

/// Retrieves the conversations of a user: the request, which reads them
/// all (the page is cut from the newest-first list).
pub fn get_user_threads_request(user_id: &str) -> (request: DbRequest)
    ensures
        request@ == user_threads_read(user_id@),
{
    let mut path = String::new();
    path.append("/users/");
    path.append(user_id);
    path.append("/threads");
    assert(path@ =~= user_threads_path(user_id@));
    DbRequest { path, method: DbMethod::Get }
}

/// Retrieves threads `start_index` through `end_index` of a user's
/// conversations: what the database's answer comes to; `None` where the
/// server gives up on it.
pub fn get_user_threads_outcome(answer: Result<Response, ServerError>, start_index: u32, end_index: u32) -> (outcome: Option<Result<Response, ServerError>>)
    requires
        start_index <= end_index,
    ensures
        opt_result_view(outcome) == user_threads_outcome(result_view(answer), start_index, end_index),
{
    match answer {
        Err(e) => Some(Err(e)),
        Ok(r) => if is_null_body(&r.body) {
            let empty: Vec<Json> = Vec::new();
            proof {
                assert(items_view(empty@) =~= Seq::<JsonView>::empty());
            }
            let body = Json::Array(empty).render();
            proof {
                assert(items_view(empty@).map_values(|i: JsonView| rendered_json(i)) =~= Seq::<Seq<char>>::empty());
                assert(body@ =~= seq!['[', ']']);
            }
            Some(Ok(Response { body, code: 200 }))
        } else {
            user_threads_page_checked(r.body.as_str(), start_index, end_index)
        },
    }
}

/// Updates a user's entry for a conversation with a new message; done for
/// the sender and for the receivers of the message: the request.
pub fn update_user_threads_request(user_id: &str, thread_id: &str, new_message: &Message) -> (request: DbRequest)
    ensures
        request@ == user_thread_update(user_id@, thread_id@, new_message@),
{
    let mut path = String::new();
    path.append("/users/");
    path.append(user_id);
    path.append("/threads/");
    path.append(thread_id);
    assert(path@ =~= user_thread_path(user_id@, thread_id@));
    DbRequest { path, method: DbMethod::Update(new_message_to_user_json(new_message)) }
}

} // verus!
