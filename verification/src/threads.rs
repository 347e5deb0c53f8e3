//! Conversations: where they are stored, the requests that read and write
//! them, and how their messages are ordered for display.
use vstd::prelude::*;
use vstd::string::*;
use crate::db::{is_null_body, null_text, opt_result_view, result_view, DbMethod, DbRequest, DbRequestView, MethodView, Response, ResponseView};
use crate::message::thread_messages_path;
use crate::error::ServerError;
use crate::json::{items_view, json_quoted, lemma_json_quoted_opens, lemma_json_quoted_prefix, lemma_items_view, lemma_members_view, members_view, parsed_json, rendered_json, Json, JsonView};
use crate::recency::{lemma_newest_first_exists, lemma_oldest_first_ascending, lemma_page_is_n_through_m, recency_key, comparable, flip, is_newest_first, member_keys, member_timestamps, newest_first, newest_first_order, oldest_first, page, page_bounds};

verus! {

/// The values of the members, newest first.
pub open spec fn newest_values(ms: Seq<(Seq<char>, JsonView)>) -> Seq<JsonView> {
    let order = newest_first(member_keys(ms));
    Seq::new(order.len(), |k: int| ms[order[k] as int].1)
}

/// What the server makes of the messages of a conversation, as the
/// database returns them (an object keyed by message id): the messages,
/// newest first, as a JSON array, with code 200; `ReqNotJSON` where the text
/// is JSON but no object; and nothing (`None`) where the text is not JSON or
/// two or more messages are not all timestamped, where the server gives up.
pub open spec fn thread_messages_reply(text: Seq<char>) -> Option<Result<ResponseView, ServerError>> {
    match parsed_json(text) {
        None => None,
        Some(JsonView::Object(ms)) => if comparable(ms) {
            Some(Ok(ResponseView { body: rendered_json(JsonView::Array(newest_values(ms))), code: 200 }))
        } else {
            None
        },
        Some(_) => Some(Err(ServerError::ReqNotJSON)),
    }
}

/// The values of the members of an object, newest first; `None` where they
/// cannot be ordered.
pub fn newest_first_values(ms: &Vec<(String, Json)>) -> (out: Option<Vec<Json>>)
    ensures
        out is None <==> !comparable(members_view(ms@)),
        out matches Some(v) ==> items_view(v@) == newest_values(members_view(ms@)),
{
    let ghost mv = members_view(ms@);
    proof {
        lemma_members_view(ms@);
    }
    match member_timestamps(ms) {
        None => None,
        Some(keys) => {
            let order = newest_first_order(&keys);
            let ghost expected = newest_values(mv);
            let mut out: Vec<Json> = Vec::new();
            let mut k: usize = 0;
            while k < order.len()
                invariant
                    0 <= k <= order.len(),
                    is_newest_first(keys@, order@),
                    order@ == newest_first(member_keys(mv)),
                    keys@.len() == ms@.len(),
                    mv == members_view(ms@),
                    mv.len() == ms@.len(),
                    forall|j: int| 0 <= j < ms@.len() ==> #[trigger] mv[j] == (ms@[j].0@, ms@[j].1.view()),
                    expected == newest_values(mv),
                    out@.len() == k,
                    forall|j: int| 0 <= j < k ==> (#[trigger] out@[j]).view() == expected[j],
                decreases order.len() - k,
            {
                let o = order[k];
                proof {
                    assert(order@[k as int] < keys@.len());
                }
                out.push(ms[o].1.duplicate());
                k = k + 1;
            }
            proof {
                lemma_items_view(out@);
                assert(items_view(out@) =~= expected);
            }
            Some(out)
        },
    }
}

/// Orders the messages of a conversation newest first; `None` where the
/// server gives up on them (see `thread_messages_reply`).
pub fn sort_thread_messages_checked(messages: &str) -> (reply: Option<Result<Response, ServerError>>)
    ensures
        opt_result_view(reply) == thread_messages_reply(messages@),
{
    match Json::parse(messages) {
        None => None,
        Some(Json::Object(ms)) => match newest_first_values(&ms) {
            None => None,
            Some(out) => {
                let body = Json::Array(out).render();
                Some(Ok(Response { body, code: 200 }))
            },
        },
        Some(_) => Some(Err(ServerError::ReqNotJSON)),
    }
}

/// Messages `start` through `end` of a conversation: the messages at those
/// positions of the conversation ordered oldest first (cut at its end),
/// then shown newest first (ties in stored order).
pub open spec fn window_values(ms: Seq<(Seq<char>, JsonView)>, start: u32, end: u32) -> Seq<JsonView> {
    let keys = member_keys(ms);
    let old = oldest_first(keys);
    let b = page_bounds(old.len(), start, end);
    let sel = old.subrange(b.0, b.1);
    let q = newest_first(Seq::new(sel.len(), |k: int| keys[sel[k] as int]));
    Seq::new(q.len(), |k: int| ms[sel[q[k] as int] as int].1)
}

/// The position in the oldest-first order of the `k`-th message shown on
/// the page from `start` to `end`.
spec fn window_pos(ms: Seq<(Seq<char>, JsonView)>, start: u32, end: u32, k: int) -> int {
    let keys = member_keys(ms);
    let old = oldest_first(keys);
    let b = page_bounds(old.len(), start, end);
    let sel = old.subrange(b.0, b.1);
    let q = newest_first(Seq::new(sel.len(), |j: int| keys[sel[j] as int]));
    b.0 + q[k] as int
}

proof fn lemma_window_facts(ms: Seq<(Seq<char>, JsonView)>, start: u32, end: u32)
    requires
        ms.len() < usize::MAX,
        start <= end,
    ensures
        ({
            let keys = member_keys(ms);
            let old = oldest_first(keys);
            let b = page_bounds(ms.len(), start, end);
            let w = window_values(ms, start, end);
            &&& w.len() == b.1 - b.0
            &&& forall|k: int| 0 <= k < w.len() ==> b.0 <= #[trigger] window_pos(ms, start, end, k) < b.1
                && recency_key(w[k]) == keys[old[window_pos(ms, start, end, k)] as int]
            &&& forall|x: int, y: int| 0 <= x < y < w.len() ==> recency_key(#[trigger] w[x]) >= recency_key(#[trigger] w[y])
        }),
{
    let keys = member_keys(ms);
    lemma_oldest_first_ascending(keys);
    let old = oldest_first(keys);
    lemma_page_is_n_through_m(ms.len(), start, end);
    let b = page_bounds(old.len(), start, end);
    let sel = old.subrange(b.0, b.1);
    let sk = Seq::new(sel.len(), |j: int| keys[sel[j] as int]);
    lemma_newest_first_exists(sk);
    let q = newest_first(sk);
    let w = window_values(ms, start, end);
    assert(w.len() == q.len());
    assert forall|k: int| 0 <= k < w.len() implies b.0 <= #[trigger] window_pos(ms, start, end, k) < b.1
        && recency_key(w[k]) == keys[old[window_pos(ms, start, end, k)] as int] by {
        assert(q[k] < sel.len());
        assert(sel[q[k] as int] == old[b.0 + q[k]]);
        assert(old[b.0 + q[k]] < keys.len());
    }
    assert forall|x: int, y: int| 0 <= x < y < w.len() implies recency_key(#[trigger] w[x]) >= recency_key(#[trigger] w[y]) by {
        assert(q[x] < sel.len() && q[y] < sel.len());
        assert(sk[q[x] as int] >= sk[q[y] as int]);
        assert(sel[q[x] as int] < keys.len() && sel[q[y] as int] < keys.len());
    }
}

/// Law (pages of a conversation go from oldest to newest): every message
/// on a page is no newer than any message on a later page, so the page
/// that starts at 0 holds the oldest messages; each page shows its messages
/// newest first, and holds `end - start` of them wherever the conversation
/// reaches `end`.
pub proof fn lemma_pages_oldest_to_newest(ms: Seq<(Seq<char>, JsonView)>, s1: u32, e1: u32, s2: u32, e2: u32)
    requires
        ms.len() < usize::MAX,
        s1 <= e1 <= s2 <= e2,
    ensures
        forall|i: int, j: int| 0 <= i < window_values(ms, s1, e1).len() && 0 <= j < window_values(ms, s2, e2).len()
            ==> recency_key(#[trigger] window_values(ms, s1, e1)[i]) <= recency_key(#[trigger] window_values(ms, s2, e2)[j]),
        forall|x: int, y: int| 0 <= x < y < window_values(ms, s1, e1).len()
            ==> recency_key(#[trigger] window_values(ms, s1, e1)[x]) >= recency_key(#[trigger] window_values(ms, s1, e1)[y]),
        e1 <= ms.len() ==> window_values(ms, s1, e1).len() == e1 - s1,
{
    let keys = member_keys(ms);
    lemma_oldest_first_ascending(keys);
    let old = oldest_first(keys);
    lemma_window_facts(ms, s1, e1);
    lemma_window_facts(ms, s2, e2);
    lemma_page_is_n_through_m(ms.len(), s1, e1);
    lemma_page_is_n_through_m(ms.len(), s2, e2);
    let w1 = window_values(ms, s1, e1);
    let w2 = window_values(ms, s2, e2);
    assert forall|i: int, j: int| 0 <= i < w1.len() && 0 <= j < w2.len()
        implies recency_key(#[trigger] w1[i]) <= recency_key(#[trigger] w2[j]) by {
        let a = window_pos(ms, s1, e1, i);
        let c = window_pos(ms, s2, e2, j);
        assert(a < c);
    }
}

/// Messages `start` through `end` of a conversation's messages (see
/// `window_values`); `None` where they cannot be ordered.
pub fn thread_window(ms: &Vec<(String, Json)>, start: u32, end: u32) -> (out: Option<Vec<Json>>)
    requires
        start <= end,
    ensures
        out is None <==> !comparable(members_view(ms@)),
        out matches Some(v) ==> items_view(v@) == window_values(members_view(ms@), start, end),
{
    let ghost mv = members_view(ms@);
    proof {
        lemma_members_view(ms@);
    }
    match member_timestamps(ms) {
        None => None,
        Some(keys) => {
            let turned = flip(&keys);
            let old = newest_first_order(&turned);
            let ghost oldv = oldest_first(member_keys(mv));
            assert(old@ == oldv);
            let (lo, hi) = page(old.len(), start, end);
            let mut sel: Vec<usize> = Vec::new();
            let mut sel_keys: Vec<u64> = Vec::new();
            let mut k: usize = lo;
            while k < hi
                invariant
                    lo <= k <= hi <= old.len(),
                    is_newest_first(turned@, old@),
                    turned@.len() == keys@.len(),
                    keys@ == member_keys(mv),
                    keys@.len() == ms@.len(),
                    sel@ =~= old@.subrange(lo as int, k as int),
                    sel_keys@.len() == sel@.len(),
                    forall|j: int| 0 <= j < sel@.len() ==> #[trigger] sel_keys@[j] == keys@[sel@[j] as int],
                    forall|j: int| 0 <= j < sel@.len() ==> #[trigger] sel@[j] < ms@.len(),
                decreases hi - k,
            {
                let o = old[k];
                proof {
                    assert(old@[k as int] < turned@.len());
                }
                sel.push(o);
                sel_keys.push(keys[o]);
                k = k + 1;
            }
            let q = newest_first_order(&sel_keys);
            let ghost expected = window_values(mv, start, end);
            proof {
                assert(sel_keys@ =~= Seq::new(sel@.len(), |j: int| member_keys(mv)[sel@[j] as int]));
            }
            let mut out: Vec<Json> = Vec::new();
            let mut k: usize = 0;
            while k < q.len()
                invariant
                    0 <= k <= q.len(),
                    is_newest_first(sel_keys@, q@),
                    sel_keys@.len() == sel@.len(),
                    forall|j: int| 0 <= j < sel@.len() ==> #[trigger] sel@[j] < ms@.len(),
                    mv == members_view(ms@),
                    mv.len() == ms@.len(),
                    forall|j: int| 0 <= j < ms@.len() ==> #[trigger] mv[j] == (ms@[j].0@, ms@[j].1.view()),
                    expected == Seq::new(q@.len(), |j: int| mv[sel@[q@[j] as int] as int].1),
                    out@.len() == k,
                    forall|j: int| 0 <= j < k ==> (#[trigger] out@[j]).view() == expected[j],
                decreases q.len() - k,
            {
                let p = q[k];
                proof {
                    assert(q@[k as int] < sel_keys@.len());
                }
                let o = sel[p];
                out.push(ms[o].1.duplicate());
                k = k + 1;
            }
            proof {
                lemma_items_view(out@);
                assert(items_view(out@) =~= expected);
            }
            Some(out)
        },
    }
}

/// What the server makes of a page of a conversation's messages: messages
/// `start` through `end` (see `window_values`), as a JSON array, with code
/// 200; `ReqNotJSON` where the text is JSON but no object; nothing (`None`)
/// where the server gives up (see `thread_messages_reply`).
pub open spec fn thread_messages_page(text: Seq<char>, start: u32, end: u32) -> Option<Result<ResponseView, ServerError>> {
    match parsed_json(text) {
        None => None,
        Some(JsonView::Object(ms)) => if comparable(ms) {
            Some(Ok(ResponseView { body: rendered_json(JsonView::Array(window_values(ms, start, end))), code: 200 }))
        } else {
            None
        },
        Some(_) => Some(Err(ServerError::ReqNotJSON)),
    }
}

/// Messages `start` through `end` of a conversation; `None` where the
/// server gives up on them.
pub fn thread_messages_page_checked(messages: &str, start: u32, end: u32) -> (reply: Option<Result<Response, ServerError>>)
    requires
        start <= end,
    ensures
        opt_result_view(reply) == thread_messages_page(messages@, start, end),
{
    match Json::parse(messages) {
        None => None,
        Some(Json::Object(ms)) => match thread_window(&ms, start, end) {
            None => None,
            Some(out) => {
                let body = Json::Array(out).render();
                Some(Ok(Response { body, code: 200 }))
            },
        },
        Some(_) => Some(Err(ServerError::ReqNotJSON)),
    }
}

/// Orders the messages of a conversation newest first, as a JSON array.
pub fn sort_thread_messages(messages: String) -> (reply: Result<Response, ServerError>)
    requires
        thread_messages_reply(messages@) is Some,
    ensures
        Some(result_view(reply)) == thread_messages_reply(messages@),
{
    match sort_thread_messages_checked(messages.as_str()) {
        Some(r) => r,
        None => vstd::pervasive::unreached(),
    }
}

/// Where the participants of a conversation are listed.
pub open spec fn thread_users_path(thread_id: Seq<char>) -> Seq<char> {
    "/threads/"@ + thread_id + "/user_ids"@
}

/// The request that reads the participants of a conversation.
pub open spec fn thread_users_read(thread_id: Seq<char>) -> DbRequestView {
    DbRequestView { path: thread_users_path(thread_id), method: MethodView::Get }
}

/// The request that reads all the messages of a conversation.
pub open spec fn thread_messages_read(thread_id: Seq<char>) -> DbRequestView {
    DbRequestView { path: thread_messages_path(thread_id), method: MethodView::Get }
}

/// The ids as JSON strings, separated by a comma and a space.
pub open spec fn joined_ids(ids: Seq<Seq<char>>) -> Seq<char>
    decreases ids.len(),
{
    if ids.len() == 0 {
        Seq::empty()
    } else if ids.len() == 1 {
        json_quoted(ids[0])
    } else {
        joined_ids(ids.subrange(0, ids.len() - 1)) + ", "@ + json_quoted(ids[ids.len() - 1])
    }
}

/// The joined ids, read from the front: the first id, then the others
/// behind a comma and a space.
proof fn lemma_joined_ids_front(ids: Seq<Seq<char>>)
    requires
        ids.len() >= 2,
    ensures
        joined_ids(ids) == json_quoted(ids[0]) + ", "@ + joined_ids(ids.drop_first()),
    decreases ids.len(),
{
    reveal_strlit(", ");
    let init = ids.subrange(0, ids.len() - 1);
    let rest = ids.drop_first();
    assert(joined_ids(ids) == joined_ids(init) + ", "@ + json_quoted(ids[ids.len() - 1]));
    if ids.len() == 2 {
        assert(joined_ids(init) == json_quoted(init[0]));
        assert(joined_ids(rest) == json_quoted(rest[0]));
        assert(joined_ids(ids) =~= json_quoted(ids[0]) + ", "@ + joined_ids(rest));
    } else {
        lemma_joined_ids_front(init);
        assert(init.drop_first() =~= rest.subrange(0, rest.len() - 1));
        assert(rest[rest.len() - 1] == ids[ids.len() - 1]);
        assert(joined_ids(rest) == joined_ids(rest.subrange(0, rest.len() - 1)) + ", "@ + json_quoted(rest[rest.len() - 1]));
        assert(joined_ids(ids) =~= json_quoted(ids[0]) + ", "@ + joined_ids(rest));
    }
}

proof fn lemma_joined_ids_prefix(a: Seq<Seq<char>>, b: Seq<Seq<char>>)
    requires
        joined_ids(a) + seq![']'] == joined_ids(b) + seq![']'],
    ensures
        a == b,
    decreases a.len(),
{
    reveal_strlit(", ");
    let la = joined_ids(a) + seq![']'];
    let lb = joined_ids(b) + seq![']'];
    if a.len() == 0 {
        if b.len() > 0 {
            lemma_json_quoted_opens(b[0]);
            if b.len() >= 2 {
                lemma_joined_ids_front(b);
            }
            assert(lb[0] == '"');
            assert(la[0] == ']');
        }
        assert(a =~= b);
    } else if b.len() == 0 {
        lemma_json_quoted_opens(a[0]);
        if a.len() >= 2 {
            lemma_joined_ids_front(a);
        }
        assert(la[0] == '"');
        assert(lb[0] == ']');
    } else {
        let ra = if a.len() == 1 { seq![']'] } else { ", "@ + joined_ids(a.drop_first()) + seq![']'] };
        let rb = if b.len() == 1 { seq![']'] } else { ", "@ + joined_ids(b.drop_first()) + seq![']'] };
        if a.len() >= 2 {
            lemma_joined_ids_front(a);
        }
        if b.len() >= 2 {
            lemma_joined_ids_front(b);
        }
        assert(la =~= json_quoted(a[0]) + ra);
        assert(lb =~= json_quoted(b[0]) + rb);
        lemma_json_quoted_prefix(a[0], b[0], ra, rb);
        if a.len() == 1 && b.len() >= 2 {
            assert(ra[0] == ']' && rb[0] == ',');
        } else if b.len() == 1 && a.len() >= 2 {
            assert(rb[0] == ']' && ra[0] == ',');
        } else if a.len() >= 2 {
            assert(joined_ids(a.drop_first()) + seq![']'] =~= ra.subrange(2, ra.len() as int));
            assert(joined_ids(b.drop_first()) + seq![']'] =~= rb.subrange(2, rb.len() as int));
            lemma_joined_ids_prefix(a.drop_first(), b.drop_first());
        }
        assert(a =~= seq![a[0]] + a.drop_first());
        assert(b =~= seq![b[0]] + b.drop_first());
    }
}

/// Law (a list of ids reads back): the JSON list of a conversation's ids
/// determines the ids, each id and their order.
pub proof fn lemma_id_list_reads_back(a: Seq<Seq<char>>, b: Seq<Seq<char>>)
    requires
        id_list(a) == id_list(b),
    ensures
        a == b,
{
    reveal_strlit("[");
    reveal_strlit("]");
    let la = id_list(a);
    let lb = id_list(b);
    assert(joined_ids(a) + seq![']'] =~= la.subrange(1, la.len() as int));
    assert(joined_ids(b) + seq![']'] =~= lb.subrange(1, lb.len() as int));
    lemma_joined_ids_prefix(a, b);
}

/// The list of ids as a JSON array of strings: `["a", "b"]`.
pub open spec fn id_list(ids: Seq<Seq<char>>) -> Seq<char> {
    "["@ + joined_ids(ids) + "]"@
}

/// The record of a new conversation: `{"user_ids": ["a", "b"]}`.
pub open spec fn conversation_record(ids: Seq<Seq<char>>) -> Seq<char> {
    "{\"user_ids\": "@ + id_list(ids) + "}"@
}

/// The texts of a list of strings.
pub open spec fn texts(v: Seq<String>) -> Seq<Seq<char>> {
    v.map_values(|s: String| s@)
}

/// Where conversations are stored.
pub open spec fn threads_path() -> Seq<char> {
    "/threads"@
}

/// The request that reads all conversations.
pub open spec fn threads_read() -> DbRequestView {
    DbRequestView { path: threads_path(), method: MethodView::Get }
}

/// The request that creates a conversation between the given users.
pub open spec fn thread_push(ids: Seq<Seq<char>>) -> DbRequestView {
    DbRequestView { path: threads_path(), method: MethodView::Push(conversation_record(ids)) }
}

/// What reading the participants of a conversation comes to: a
/// conversation that the database does not hold is `InvalidThreadId`.
pub open spec fn thread_users_outcome(answer: Result<ResponseView, ServerError>) -> Result<ResponseView, ServerError> {
    match answer {
        Err(e) => Err(e),
        Ok(r) => if r.body == null_text() { Err(ServerError::InvalidThreadId) } else { Ok(r) },
    }
}

/// What reading messages `start` through `end` of a conversation comes to:
/// a conversation that the database does not hold is `InvalidThreadId`;
/// otherwise the page (`None` where the server gives up on it).
pub open spec fn thread_messages_outcome(answer: Result<ResponseView, ServerError>, start: u32, end: u32) -> Option<Result<ResponseView, ServerError>> {
    match answer {
        Err(e) => Some(Err(e)),
        Ok(r) => if r.body == null_text() {
            Some(Err(ServerError::InvalidThreadId))
        } else {
            thread_messages_page(r.body, start, end)
        },
    }
}

/// Writes the ids as a JSON array of strings, `["a", "b"]`, each id
/// escaped by serde_json.
pub fn user_ids_to_str(user_ids: &Vec<String>) -> (list: String)
    ensures
        list@ == id_list(texts(user_ids@)),
{
    let ghost ids = texts(user_ids@);
    let mut joined = String::new();
    let mut i: usize = 0;
    while i < user_ids.len()
        invariant
            0 <= i <= user_ids.len(),
            ids == texts(user_ids@),
            ids.len() == user_ids@.len(),
            joined@ == joined_ids(ids.subrange(0, i as int)),
        decreases user_ids.len() - i,
    {
        let quoted = Json::Str(user_ids[i].clone()).render();
        proof {
            let next = ids.subrange(0, i + 1);
            assert(next.subrange(0, i as int) =~= ids.subrange(0, i as int));
            assert(next[i as int] == user_ids@[i as int]@);
        }
        if i > 0 {
            joined.append(", ");
        }
        joined.append(quoted.as_str());
        proof {
            assert(joined@ =~= joined_ids(ids.subrange(0, i + 1)));
        }
        i = i + 1;
    }
    proof {
        assert(ids.subrange(0, user_ids.len() as int) =~= ids);
    }
    let mut list = String::new();
    list.append("[");
    list.append(joined.as_str());
    list.append("]");
    list
}

/// Writes the record of a new conversation between the given users.
pub fn build_thread_json(user_ids: &Vec<String>) -> (record: String)
    ensures
        record@ == conversation_record(texts(user_ids@)),
{
    let mut record = String::new();
    record.append("{\"user_ids\": ");
    let list = user_ids_to_str(user_ids);
    record.append(list.as_str());
    record.append("}");
    record
}

/// Reads the participants of a conversation: the request.
pub fn get_thread_user_ids_request(thread_id: &str) -> (request: DbRequest)
    ensures
        request@ == thread_users_read(thread_id@),
{
    let mut path = String::new();
    path.append("/threads/");
    path.append(thread_id);
    path.append("/user_ids");
    assert(path@ =~= thread_users_path(thread_id@));
    DbRequest { path, method: DbMethod::Get }
}

/// Reads the participants of a conversation: what the database's answer
/// comes to.
pub fn get_thread_user_ids_outcome(answer: Result<Response, ServerError>) -> (outcome: Result<Response, ServerError>)
    ensures
        result_view(outcome) == thread_users_outcome(result_view(answer)),
{
    match answer {
        Err(e) => Err(e),
        Ok(r) => if is_null_body(&r.body) { Err(ServerError::InvalidThreadId) } else { Ok(r) },
    }
}

/// Reads the messages of a conversation: the request, which reads them all
/// (the page is cut from the oldest-first list).
pub fn get_thread_messages_request(thread_id: &str) -> (request: DbRequest)
    ensures
        request@ == thread_messages_read(thread_id@),
{
    DbRequest { path: crate::message::messages_path(thread_id), method: DbMethod::Get }
}

/// Reads messages `start_index` through `end_index` of a conversation: what
/// the database's answer comes to; `None` where the server gives up on it.
pub fn get_thread_messages_outcome(answer: Result<Response, ServerError>, start_index: u32, end_index: u32) -> (outcome: Option<Result<Response, ServerError>>)
    requires
        start_index <= end_index,
    ensures
        opt_result_view(outcome) == thread_messages_outcome(result_view(answer), start_index, end_index),
{
    match answer {
        Err(e) => Some(Err(e)),
        Ok(r) => if is_null_body(&r.body) {
            Some(Err(ServerError::InvalidThreadId))
        } else {
            thread_messages_page_checked(r.body.as_str(), start_index, end_index)
        },
    }
}

/// Reads all conversations, to find one between given users: the request.
pub fn get_threads_request() -> (request: DbRequest)
    ensures
        request@ == threads_read(),
{
    let mut path = String::new();
    path.append("/threads");
    DbRequest { path, method: DbMethod::Get }
}

/// Creates a conversation between the given users: the request that adds
/// its record to the conversations.
pub fn create_thread_request(user_ids: &Vec<String>) -> (request: DbRequest)
    ensures
        request@ == thread_push(texts(user_ids@)),
{
    let mut path = String::new();
    path.append("/threads");
    DbRequest { path, method: DbMethod::Push(build_thread_json(user_ids)) }
}

} // verus!
