//! Interprets requests from the frontend and decides the corresponding
//! actions according to the action protocol.
//!
//! Serving a request alternates decisions with outside work: database
//! requests, decoding a message, delivering a live update to a connected
//! user. A `Session` makes the decisions: `take_action` starts one and says
//! what to do first (a `Step`); the caller does it and hands the outcome
//! back (an `Event`) to `Session::resume`, which says what to do next,
//! until the step is `Finish` (the reply or the error) or `Abort` (the
//! request is malformed in a way that the server does not survive).
use vstd::prelude::*;
use vstd::string::*;
use crate::db::{result_view, DbRequest, DbRequestView, Response, ResponseView};
use crate::error::ServerError;
use crate::json::{items_view, json_quoted, lemma_json_quoted_plain, plain_json_char, lemma_items_view, lemma_members_view, member, members_view, opt_ref_view, parsed_json, rendered_json, Json, JsonView};
use crate::message::{create_message_request, message_push, Message, MessageView};
use crate::text::{push_char, str_eq};
use crate::threads::{
    create_thread_request, get_thread_messages_outcome, get_thread_messages_request,
    get_thread_user_ids_outcome, get_thread_user_ids_request, thread_messages_outcome,
    thread_messages_read, thread_push, thread_users_outcome, thread_users_read, texts,
    get_threads_request, threads_read,
};
use crate::users::{
    get_user_threads_outcome, get_user_threads_request, update_user_threads_request,
    user_thread_update, user_threads_outcome, user_threads_read,
};

verus! {

/// The answer to the frontend: the action that was requested, a body that
/// is empty when the client needs no further information (else it holds
/// message contents), and a code that tells success from error.
pub struct Reply {
    pub action: String,
    pub body: String,
    pub code: u32,
}

/// A request from the frontend: the action asked for and its arguments.
pub struct Request {
    pub body: Json,
    pub action: String,
}

/// The model of a reply.
pub struct ReplyView {
    pub action: Seq<char>,
    pub body: Seq<char>,
    pub code: u32,
}

/// The model of a request.
pub struct RequestView {
    pub body: JsonView,
    pub action: Seq<char>,
}

impl Reply {
    pub open spec fn view(&self) -> ReplyView {
        ReplyView { action: self.action@, body: self.body@, code: self.code }
    }
}

impl Request {
    pub open spec fn view(&self) -> RequestView {
        RequestView { body: self.body@, action: self.action@ }
    }
}

/// An argument of a request: absent, present with the expected type, or
/// present with another type.
pub enum Field<T> {
    Missing,
    Present(T),
    Malformed,
}

/// A text argument (`get(key)` then `as_str`).
pub open spec fn text_arg(body: JsonView, key: Seq<char>) -> Field<Seq<char>> {
    match body.get(key) {
        None => Field::Missing,
        Some(v) => match v.as_text() {
            Some(s) => Field::Present(s),
            None => Field::Malformed,
        },
    }
}

/// An index argument (`get(key)` then `as_u64`, cut to 32 bits).
pub open spec fn index_arg(body: JsonView, key: Seq<char>) -> Field<u32> {
    match body.get(key) {
        None => Field::Missing,
        Some(v) => match v.as_u64() {
            Some(n) => Field::Present(n as u32),
            None => Field::Malformed,
        },
    }
}

/// Every item is a text.
pub open spec fn all_texts(items: Seq<JsonView>) -> bool {
    forall|i: int| 0 <= i < items.len() ==> (#[trigger] items[i]).as_text() is Some
}

/// The texts of items that are all texts.
pub open spec fn item_texts(items: Seq<JsonView>) -> Seq<Seq<char>> {
    Seq::new(items.len(), |i: int| items[i].as_text().unwrap())
}

/// A list-of-texts argument (`get(key)`, `as_array`, then `as_str` on each).
pub open spec fn text_list_arg(body: JsonView, key: Seq<char>) -> Field<Seq<Seq<char>>> {
    match body.get(key) {
        None => Field::Missing,
        Some(JsonView::Array(items)) => if all_texts(items) {
            Field::Present(item_texts(items))
        } else {
            Field::Malformed
        },
        Some(_) => Field::Malformed,
    }
}

/// The model of a text argument.
pub open spec fn text_field_view(f: Field<String>) -> Field<Seq<char>> {
    match f {
        Field::Missing => Field::Missing,
        Field::Present(s) => Field::Present(s@),
        Field::Malformed => Field::Malformed,
    }
}

/// The model of a list-of-texts argument.
pub open spec fn list_field_view(f: Field<Vec<String>>) -> Field<Seq<Seq<char>>> {
    match f {
        Field::Missing => Field::Missing,
        Field::Present(v) => Field::Present(texts(v@)),
        Field::Malformed => Field::Malformed,
    }
}

/// Reads a text argument of a request.
pub fn text_field(body: &Json, key: &str) -> (f: Field<String>)
    ensures
        text_field_view(f) == text_arg(body@, key@),
{
    match body.get(key) {
        None => Field::Missing,
        Some(Json::Str(s)) => Field::Present(s.clone()),
        Some(_) => Field::Malformed,
    }
}

/// Reads an index argument of a request.
pub fn index_field(body: &Json, key: &str) -> (f: Field<u32>)
    ensures
        f == index_arg(body@, key@),
{
    match body.get(key) {
        None => Field::Missing,
        Some(Json::Number(crate::json::JsonNumber::Unsigned(n))) => Field::Present(*n as u32),
        Some(_) => Field::Malformed,
    }
}

/// Reads a list-of-texts argument of a request.
pub fn text_list_field(body: &Json, key: &str) -> (f: Field<Vec<String>>)
    ensures
        list_field_view(f) == text_list_arg(body@, key@),
{
    match body.get(key) {
        None => Field::Missing,
        Some(Json::Array(items)) => {
            proof {
                lemma_items_view(items@);
            }
            let ghost iv = items_view(items@);
            assert(body@.get(key@) == Some(JsonView::Array(iv)));
            let mut out: Vec<String> = Vec::new();
            let mut i: usize = 0;
            while i < items.len()
                invariant
                    0 <= i <= items.len(),
                    iv == items_view(items@),
                    body@.get(key@) == Some(JsonView::Array(iv)),
                    iv.len() == items@.len(),
                    forall|k: int| 0 <= k < items@.len() ==> #[trigger] iv[k] == items@[k].view(),
                    out@.len() == i,
                    forall|k: int| 0 <= k < i ==> (#[trigger] iv[k]).as_text() is Some,
                    forall|k: int| 0 <= k < i ==> (#[trigger] out@[k])@ == iv[k].as_text().unwrap(),
                decreases items.len() - i,
            {
                match &items[i] {
                    Json::Str(s) => {
                        out.push(s.clone());
                    },
                    _ => {
                        proof {
                            assert(iv[i as int].as_text() is None);
                        }
                        return Field::Malformed;
                    },
                }
                i = i + 1;
            }
            proof {
                assert(texts(out@) =~= item_texts(iv));
            }
            Field::Present(out)
        },
        Some(_) => Field::Malformed,
    }
}

/// Whether a list names a user.
fn lists_user(list: &Vec<String>, user: &String) -> (found: bool)
    ensures
        found == texts(list@).contains(user@),
{
    let ghost t = texts(list@);
    let mut i: usize = 0;
    while i < list.len()
        invariant
            0 <= i <= list.len(),
            t == texts(list@),
            t.len() == list@.len(),
            forall|k: int| 0 <= k < i ==> t[k] != user@,
        decreases list.len() - i,
    {
        if str_eq(list[i].as_str(), user.as_str()) {
            proof {
                assert(t[i as int] == user@);
            }
            return true;
        }
        i = i + 1;
    }
    false
}

/// Whether every user of `a` is named in `b`.
fn all_listed(a: &Vec<String>, b: &Vec<String>) -> (all: bool)
    ensures
        all == (forall|x: Seq<char>| texts(a@).contains(x) ==> texts(b@).contains(x)),
{
    let ghost ta = texts(a@);
    let mut i: usize = 0;
    while i < a.len()
        invariant
            0 <= i <= a.len(),
            ta == texts(a@),
            ta.len() == a@.len(),
            forall|k: int| 0 <= k < i ==> texts(b@).contains(#[trigger] ta[k]),
        decreases a.len() - i,
    {
        if !lists_user(b, &a[i]) {
            proof {
                assert(ta.contains(ta[i as int]));
            }
            return false;
        }
        i = i + 1;
    }
    proof {
        assert forall|x: Seq<char>| ta.contains(x) implies texts(b@).contains(x) by {
            let k = choose|k: int| 0 <= k < ta.len() && ta[k] == x;
            assert(texts(b@).contains(ta[k]));
        }
    }
    true
}

/// The first position from `i` on of a conversation between exactly these
/// users, as `find_thread` finds it.
proof fn lemma_find_skip(ms: Seq<(Seq<char>, JsonView)>, ids: Seq<Seq<char>>, i: int)
    requires
        0 <= i <= ms.len(),
        forall|j: int| 0 <= j < i ==> !holds_users(#[trigger] ms[j].1, ids),
    ensures
        find_thread(ms, ids) == find_thread(ms.subrange(i, ms.len() as int), ids),
    decreases i,
{
    if i > 0 {
        let rest = ms.subrange(1, ms.len() as int);
        assert forall|j: int| 0 <= j < i - 1 implies !holds_users(#[trigger] rest[j].1, ids) by {
            assert(rest[j] == ms[j + 1]);
        }
        lemma_find_skip(rest, ids, i - 1);
        assert(rest.subrange(i - 1, rest.len() as int) =~= ms.subrange(i, ms.len() as int));
    } else {
        assert(ms.subrange(0, ms.len() as int) =~= ms);
    }
}

/// The id of the first stored conversation between exactly these users.
pub fn find_thread_for(ms: &Vec<(String, Json)>, ids: &Vec<String>) -> (found: Option<String>)
    ensures
        match found {
            Some(t) => find_thread(members_view(ms@), texts(ids@)) == Some(t@),
            None => find_thread(members_view(ms@), texts(ids@)) is None,
        },
{
    proof {
        lemma_members_view(ms@);
    }
    let ghost mv = members_view(ms@);
    let ghost tids = texts(ids@);
    let mut i: usize = 0;
    while i < ms.len()
        invariant
            0 <= i <= ms.len(),
            mv == members_view(ms@),
            tids == texts(ids@),
            mv.len() == ms@.len(),
            forall|k: int| 0 <= k < ms@.len() ==> #[trigger] mv[k] == (ms@[k].0@, ms@[k].1.view()),
            forall|j: int| 0 <= j < i ==> !holds_users(#[trigger] mv[j].1, tids),
        decreases ms.len() - i,
    {
        let matches = match text_list_field(&ms[i].1, "user_ids") {
            Field::Present(listed) => all_listed(&listed, ids) && all_listed(ids, &listed),
            _ => false,
        };
        proof {
            assert(mv[i as int].1 == ms@[i as int].1.view());
        }
        if matches {
            proof {
                lemma_find_skip(mv, tids, i as int);
                let sub = mv.subrange(i as int, mv.len() as int);
                assert(sub[0] == mv[i as int]);
                assert(holds_users(mv[i as int].1, tids));
            }
            return Some(ms[i].0.clone());
        }
        i = i + 1;
    }
    proof {
        lemma_find_skip(mv, tids, i as int);
    }
    None
}

/// The text without its double quotes (`str::replace(text, "\"", "")`).
pub open spec fn without_quotes(s: Seq<char>) -> Seq<char>
    decreases s.len(),
{
    if s.len() == 0 {
        Seq::empty()
    } else if s[s.len() - 1] == '"' {
        without_quotes(s.subrange(0, s.len() - 1))
    } else {
        without_quotes(s.subrange(0, s.len() - 1)).push(s[s.len() - 1])
    }
}

/// Removing the quotes from two texts one after the other removes them
/// from the whole.
proof fn lemma_without_quotes_concat(a: Seq<char>, b: Seq<char>)
    ensures
        without_quotes(a + b) == without_quotes(a) + without_quotes(b),
    decreases b.len(),
{
    if b.len() == 0 {
        assert(a + b =~= a);
        assert(without_quotes(a) + without_quotes(b) =~= without_quotes(a));
    } else {
        let ab = a + b;
        let bi = b.subrange(0, b.len() - 1);
        assert(ab.subrange(0, ab.len() - 1) =~= a + bi);
        assert(ab[ab.len() - 1] == b[b.len() - 1]);
        lemma_without_quotes_concat(a, bi);
        if b[b.len() - 1] == '"' {
        } else {
            assert(without_quotes(ab) =~= without_quotes(a) + without_quotes(b));
        }
    }
}

/// Law (removing the quotes keeps everything else): a text without double
/// quotes comes out as it is; a text with quotes comes out without them.
pub proof fn lemma_without_quotes_keeps_the_rest(s: Seq<char>)
    ensures
        (forall|i: int| 0 <= i < s.len() ==> #[trigger] s[i] != '"') ==> without_quotes(s) == s,
        forall|i: int| 0 <= i < without_quotes(s).len() ==> #[trigger] without_quotes(s)[i] != '"',
    decreases s.len(),
{
    if s.len() > 0 {
        let init = s.subrange(0, s.len() - 1);
        lemma_without_quotes_keeps_the_rest(init);
        if forall|i: int| 0 <= i < s.len() ==> #[trigger] s[i] != '"' {
            assert forall|i: int| 0 <= i < init.len() implies #[trigger] init[i] != '"' by {
                assert(init[i] == s[i]);
            }
            assert(s[s.len() - 1] != '"');
            assert(init.push(s[s.len() - 1]) =~= s);
        }
        let w = without_quotes(s);
        if s[s.len() - 1] != '"' {
            assert forall|i: int| 0 <= i < w.len() implies #[trigger] w[i] != '"' by {
                if i < w.len() - 1 {
                    assert(w[i] == without_quotes(init)[i]);
                }
            }
        }
    }
}

/// Law (the new conversation's id is the database's push name): the name
/// that the database gives a pushed record, a JSON string of plain
/// characters, comes out of its JSON text with the quotes removed and
/// nothing else changed.
pub proof fn lemma_push_name_is_the_id(t: Seq<char>)
    requires
        forall|i: int| 0 <= i < t.len() ==> plain_json_char(#[trigger] t[i]),
    ensures
        without_quotes(json_quoted(t)) == t,
{
    lemma_json_quoted_plain(t);
    lemma_without_quotes_concat(seq!['"'] + t, seq!['"']);
    lemma_without_quotes_concat(seq!['"'], t);
    assert(without_quotes(seq!['"']) == without_quotes(seq!['"'].subrange(0, 0)));
    assert(without_quotes(Seq::<char>::empty()) == Seq::<char>::empty());
    lemma_without_quotes_keeps_the_rest(t);
    assert(without_quotes(seq!['"']) + without_quotes(t) + without_quotes(seq!['"']) =~= t);
}

/// Removes the double quotes from a text.
pub fn strip_quotes(text: &str) -> (out: String)
    ensures
        out@ == without_quotes(text@),
{
    let n = text.unicode_len();
    let mut out = String::new();
    let mut i: usize = 0;
    while i < n
        invariant
            0 <= i <= n,
            n == text@.len(),
            out@ == without_quotes(text@.subrange(0, i as int)),
        decreases n - i,
    {
        let c = text.get_char(i);
        proof {
            let next = text@.subrange(0, i + 1);
            assert(next.subrange(0, i as int) =~= text@.subrange(0, i as int));
            assert(next[i as int] == c);
        }
        if c != '"' {
            push_char(&mut out, c);
        }
        i = i + 1;
    }
    proof {
        assert(text@.subrange(0, n as int) =~= text@);
    }
    out
}

/// The code of a reply, from the status of the database's answer: 200 for
/// OK, 400 for a bad request, 500 for anything else.
pub open spec fn reply_code(status: u32) -> u32 {
    if status == 200 {
        200
    } else if status == 400 {
        400
    } else {
        500
    }
}

/// The code of a reply, from the status of the database's answer.
pub fn status_code(status: u32) -> (code: u32)
    ensures
        code == reply_code(status),
        code == 200 || code == 400 || code == 500,
{
    if status == 200 {
        200
    } else if status == 400 {
        400
    } else {
        500
    }
}

/// What the caller is to do next.
pub enum Step {
    /// Make this database request; answer with `Event::Answer`.
    Query(DbRequest),
    /// Decode this JSON text as a `Message`; answer with `Event::Decoded`.
    Decode(String),
    /// If the user with this id is connected, send them this reply; answer
    /// with `Event::Delivered`.
    Notify(String, Reply),
    /// The request is served: this is the reply, or the error.
    Finish(Result<Reply, ServerError>),
    /// The request is malformed in a way that the server does not survive.
    Abort,
}

/// What came of a step.
pub enum Event {
    /// The database's answer.
    Answer(Result<Response, ServerError>),
    /// The decoded message, or `None` where the text is no message.
    Decoded(Option<Message>),
    /// The reply was sent or the user is not connected (`Ok`), or sending
    /// failed (`Err`, with the failure's description).
    Delivered(Result<(), String>),
}

/// The message being sent and where.
pub struct Delivery {
    pub msg: Message,
    pub thread_id: String,
    pub m_text: String,
}

/// Where a session stands.
pub enum Stage {
    SendDecoding { m_text: String, thread_arg: Field<String> },
    SendListing { d: Delivery },
    SendPosting { d: Delivery, users: Vec<Json> },
    SendUpdating { d: Delivery, code: u32, users: Vec<Json>, next: usize },
    SendNotifying { d: Delivery, code: u32, users: Vec<Json>, next: usize },
    CreateDecoding { m_text: String, ids_arg: Field<Vec<String>> },
    CreateChecking { msg: Message, ids: Vec<String> },
    CreatePushing { msg: Message, ids: Vec<String> },
    CreatePosting { msg: Message, ids: Vec<String>, thread: String },
    CreateUpdating { msg: Message, ids: Vec<String>, thread: String, next: usize },
    Listing { start: u32, end: u32 },
    Reading { start: u32, end: u32 },
    Done,
}

/// The state of serving one request for one connected user.
pub struct Session {
    stage: Stage,
    action: String,
    sender: String,
}

/// The model of a step.
pub enum StepView {
    Query(DbRequestView),
    Decode(Seq<char>),
    Notify(Seq<char>, ReplyView),
    Finish(Result<ReplyView, ServerError>),
    Abort,
}

/// The model of an event.
pub enum EventView {
    Answer(Result<ResponseView, ServerError>),
    Decoded(Option<MessageView>),
    Delivered(Result<(), String>),
}

/// The model of a delivery.
pub struct DeliveryView {
    pub msg: MessageView,
    pub thread_id: Seq<char>,
    pub m_text: Seq<char>,
}

/// The model of a stage.
pub enum StageView {
    SendDecoding { m_text: Seq<char>, thread_arg: Field<Seq<char>> },
    SendListing { d: DeliveryView },
    SendPosting { d: DeliveryView, users: Seq<JsonView> },
    SendUpdating { d: DeliveryView, code: u32, users: Seq<JsonView>, next: nat },
    SendNotifying { d: DeliveryView, code: u32, users: Seq<JsonView>, next: nat },
    CreateDecoding { m_text: Seq<char>, ids_arg: Field<Seq<Seq<char>>> },
    CreateChecking { msg: MessageView, ids: Seq<Seq<char>> },
    CreatePushing { msg: MessageView, ids: Seq<Seq<char>> },
    CreatePosting { msg: MessageView, ids: Seq<Seq<char>>, thread: Seq<char> },
    CreateUpdating { msg: MessageView, ids: Seq<Seq<char>>, thread: Seq<char>, next: nat },
    Listing { start: u32, end: u32 },
    Reading { start: u32, end: u32 },
    Done,
}

/// The model of a session.
pub struct SessionView {
    pub stage: StageView,
    pub action: Seq<char>,
    pub sender: Seq<char>,
}

/// The model of a reply or an error.
pub open spec fn reply_result_view(r: Result<Reply, ServerError>) -> Result<ReplyView, ServerError> {
    match r {
        Ok(reply) => Ok(reply.view()),
        Err(e) => Err(e),
    }
}

/// The model of a message that may be missing.
pub open spec fn message_opt_view(m: Option<Message>) -> Option<MessageView> {
    match m {
        Some(msg) => Some(msg.view()),
        None => None,
    }
}

impl Step {
    pub open spec fn view(&self) -> StepView {
        match self {
            Step::Query(r) => StepView::Query(r@),
            Step::Decode(t) => StepView::Decode(t@),
            Step::Notify(u, r) => StepView::Notify(u@, r@),
            Step::Finish(r) => StepView::Finish(reply_result_view(*r)),
            Step::Abort => StepView::Abort,
        }
    }
}

impl Event {
    pub open spec fn view(&self) -> EventView {
        match self {
            Event::Answer(a) => EventView::Answer(result_view(*a)),
            Event::Decoded(m) => EventView::Decoded(message_opt_view(*m)),
            Event::Delivered(d) => EventView::Delivered(*d),
        }
    }
}

impl Delivery {
    pub open spec fn view(&self) -> DeliveryView {
        DeliveryView { msg: self.msg@, thread_id: self.thread_id@, m_text: self.m_text@ }
    }
}

impl Stage {
    pub open spec fn view(&self) -> StageView {
        match self {
            Stage::SendDecoding { m_text, thread_arg } => StageView::SendDecoding { m_text: m_text@, thread_arg: text_field_view(*thread_arg) },
            Stage::SendListing { d } => StageView::SendListing { d: d@ },
            Stage::SendPosting { d, users } => StageView::SendPosting { d: d@, users: items_view(users@) },
            Stage::SendUpdating { d, code, users, next } => StageView::SendUpdating { d: d@, code: *code, users: items_view(users@), next: *next as nat },
            Stage::SendNotifying { d, code, users, next } => StageView::SendNotifying { d: d@, code: *code, users: items_view(users@), next: *next as nat },
            Stage::CreateDecoding { m_text, ids_arg } => StageView::CreateDecoding { m_text: m_text@, ids_arg: list_field_view(*ids_arg) },
            Stage::CreateChecking { msg, ids } => StageView::CreateChecking { msg: msg@, ids: texts(ids@) },
            Stage::CreatePushing { msg, ids } => StageView::CreatePushing { msg: msg@, ids: texts(ids@) },
            Stage::CreatePosting { msg, ids, thread } => StageView::CreatePosting { msg: msg@, ids: texts(ids@), thread: thread@ },
            Stage::CreateUpdating { msg, ids, thread, next } => StageView::CreateUpdating { msg: msg@, ids: texts(ids@), thread: thread@, next: *next as nat },
            Stage::Listing { start, end } => StageView::Listing { start: *start, end: *end },
            Stage::Reading { start, end } => StageView::Reading { start: *start, end: *end },
            Stage::Done => StageView::Done,
        }
    }
}

impl Session {
    pub closed spec fn view(&self) -> SessionView {
        SessionView { stage: self.stage@, action: self.action@, sender: self.sender@ }
    }
}

/// The body of a live update: `{"thread_id":"..", "message": ..}`.
pub open spec fn update_body(thread_id: Seq<char>, m_text: Seq<char>) -> Seq<char> {
    "{\"thread_id\":\""@ + thread_id + "\", \"message\": "@ + m_text + "}"@
}

/// The live update that tells a connected participant of a new message.
pub open spec fn live_update(thread_id: Seq<char>, m_text: Seq<char>) -> ReplyView {
    ReplyView { action: "receive_message"@, body: update_body(thread_id, m_text), code: 200 }
}

/// The body of the reply to a new conversation: `{"thread_id":".."}`.
pub open spec fn created_body(thread: Seq<char>) -> Seq<char> {
    "{\"thread_id\":\""@ + thread + "\"}"@
}

/// The characters of a text up to its first double quote.
pub open spec fn up_to_quote(s: Seq<char>) -> Seq<char>
    decreases s.len(),
{
    if s.len() == 0 || s[0] == '"' {
        Seq::empty()
    } else {
        seq![s[0]] + up_to_quote(s.drop_first())
    }
}

/// The conversation that a JSON text names first: the string value that
/// follows an opening `{"thread_id":"`, read up to its closing quote.
pub open spec fn named_thread(body: Seq<char>) -> Option<Seq<char>> {
    let key = "{\"thread_id\":\""@;
    if body.len() >= key.len() && body.subrange(0, key.len() as int) == key {
        Some(up_to_quote(body.subrange(key.len() as int, body.len() as int)))
    } else {
        None
    }
}

/// A text without double quotes, read up to the quote that follows it,
/// gives back the text.
proof fn lemma_up_to_quote(t: Seq<char>, rest: Seq<char>)
    requires
        forall|i: int| 0 <= i < t.len() ==> #[trigger] t[i] != '"',
    ensures
        up_to_quote(t + seq!['"'] + rest) == t,
    decreases t.len(),
{
    let all = t + seq!['"'] + rest;
    if t.len() == 0 {
        assert(all[0] == '"');
        assert(t =~= Seq::<char>::empty());
    } else {
        let tail = t.drop_first();
        assert forall|i: int| 0 <= i < tail.len() implies #[trigger] tail[i] != '"' by {
            assert(tail[i] == t[i + 1]);
        }
        lemma_up_to_quote(tail, rest);
        assert(all.drop_first() =~= tail + seq!['"'] + rest);
        assert(all[0] == t[0]);
        assert(t =~= seq![t[0]] + tail);
    }
}

/// Law (a live update names the conversation of the message): for a
/// conversation id without double quotes, the live update about a message
/// sent to it, and the reply to its creation, name exactly that
/// conversation.
pub proof fn lemma_updates_name_the_conversation(thread_id: Seq<char>, m_text: Seq<char>)
    requires
        forall|i: int| 0 <= i < thread_id.len() ==> #[trigger] thread_id[i] != '"',
    ensures
        named_thread(update_body(thread_id, m_text)) == Some(thread_id),
        named_thread(live_update(thread_id, m_text).body) == Some(thread_id),
        named_thread(created_body(thread_id)) == Some(thread_id),
{
    reveal_strlit("{\"thread_id\":\"");
    reveal_strlit("\", \"message\": ");
    reveal_strlit("\"}");
    reveal_strlit("}");
    let key = "{\"thread_id\":\""@;
    let u = update_body(thread_id, m_text);
    let after_u = "\", \"message\": "@.drop_first() + m_text + "}"@;
    assert(u =~= key + (thread_id + seq!['"'] + after_u));
    assert(u.subrange(0, key.len() as int) =~= key);
    assert(u.subrange(key.len() as int, u.len() as int) =~= thread_id + seq!['"'] + after_u);
    lemma_up_to_quote(thread_id, after_u);
    let c = created_body(thread_id);
    let after_c = seq!['}'];
    assert(c =~= key + (thread_id + seq!['"'] + after_c));
    assert(c.subrange(0, key.len() as int) =~= key);
    assert(c.subrange(key.len() as int, c.len() as int) =~= thread_id + seq!['"'] + after_c);
    lemma_up_to_quote(thread_id, after_c);
}

/// The session at another stage.
pub open spec fn with_stage(s: SessionView, stage: StageView) -> SessionView {
    SessionView { stage, ..s }
}

/// The session is done, with this reply or error.
pub open spec fn finish(s: SessionView, r: Result<ReplyView, ServerError>) -> (SessionView, StepView) {
    (with_stage(s, StageView::Done), StepView::Finish(r))
}

/// The session is done: the request is not survived.
pub open spec fn abort(s: SessionView) -> (SessionView, StepView) {
    (with_stage(s, StageView::Done), StepView::Abort)
}

/// The reply of a served request.
pub open spec fn reply_to(s: SessionView, body: Seq<char>, status: u32) -> ReplyView {
    ReplyView { action: s.action, body, code: reply_code(status) }
}

/// Sending a message: the update for participant `k`, or the reply once
/// every participant is updated.
pub open spec fn send_next(s: SessionView, d: DeliveryView, code: u32, users: Seq<JsonView>, k: nat) -> (SessionView, StepView) {
    if k >= users.len() {
        finish(s, Ok(reply_to(s, Seq::empty(), code)))
    } else {
        match users[k as int].as_text() {
            None => abort(s),
            Some(u) => (
                with_stage(s, StageView::SendUpdating { d, code, users, next: k }),
                StepView::Query(user_thread_update(u, d.thread_id, d.msg)),
            ),
        }
    }
}

/// Creating a conversation: the update for participant `k`, then the one
/// for the sender.
pub open spec fn create_next(s: SessionView, msg: MessageView, ids: Seq<Seq<char>>, thread: Seq<char>, k: nat) -> (SessionView, StepView) {
    (
        with_stage(s, StageView::CreateUpdating { msg, ids, thread, next: k }),
        StepView::Query(user_thread_update(if k < ids.len() { ids[k as int] } else { msg.user_id }, thread, msg)),
    )
}

/// Two lists name the same users.
pub open spec fn same_members(a: Seq<Seq<char>>, b: Seq<Seq<char>>) -> bool {
    forall|x: Seq<char>| a.contains(x) <==> b.contains(x)
}

/// A conversation record lists exactly these users.
pub open spec fn holds_users(record: JsonView, ids: Seq<Seq<char>>) -> bool {
    match text_list_arg(record, "user_ids"@) {
        Field::Present(listed) => same_members(listed, ids),
        _ => false,
    }
}

/// The id of the first stored conversation between exactly these users.
pub open spec fn find_thread(ms: Seq<(Seq<char>, JsonView)>, ids: Seq<Seq<char>>) -> Option<Seq<char>>
    decreases ms.len(),
{
    if ms.len() == 0 {
        None
    } else if holds_users(ms[0].1, ids) {
        Some(ms[0].0)
    } else {
        find_thread(ms.subrange(1, ms.len() as int), ids)
    }
}

/// The first step of sending a message.
pub open spec fn begin_send(s: SessionView, body: JsonView) -> (SessionView, StepView) {
    match body.get("message"@) {
        None => finish(s, Err(ServerError::DatabaseFormatErr)),
        Some(m) => (
            with_stage(s, StageView::SendDecoding { m_text: rendered_json(m), thread_arg: text_arg(body, "thread_id"@) }),
            StepView::Decode(rendered_json(m)),
        ),
    }
}

/// The first step of creating a conversation.
pub open spec fn begin_create(s: SessionView, body: JsonView) -> (SessionView, StepView) {
    match body.get("message"@) {
        None => finish(s, Err(ServerError::DatabaseFormatErr)),
        Some(m) => (
            with_stage(s, StageView::CreateDecoding { m_text: rendered_json(m), ids_arg: text_list_arg(body, "user_ids"@) }),
            StepView::Decode(rendered_json(m)),
        ),
    }
}

/// The first step of a read of a range: the id argument, then the two
/// indices, then the request (a range that ends before it starts is not
/// survived).
pub open spec fn begin_range(s: SessionView, body: JsonView, id_key: Seq<char>, threads: bool) -> (SessionView, StepView) {
    match text_arg(body, id_key) {
        Field::Missing => finish(s, Err(ServerError::DatabaseFormatErr)),
        Field::Malformed => abort(s),
        Field::Present(id) => match index_arg(body, "start_index"@) {
            Field::Missing => finish(s, Err(ServerError::DatabaseFormatErr)),
            Field::Malformed => abort(s),
            Field::Present(start) => match index_arg(body, "end_index"@) {
                Field::Missing => finish(s, Err(ServerError::DatabaseFormatErr)),
                Field::Malformed => abort(s),
                Field::Present(end) => if end < start {
                    abort(s)
                } else if threads {
                    (with_stage(s, StageView::Reading { start, end }), StepView::Query(thread_messages_read(id)))
                } else {
                    (with_stage(s, StageView::Listing { start, end }), StepView::Query(user_threads_read(id)))
                },
            },
        },
    }
}

/// A fresh session for the request of the user `id`.
pub open spec fn fresh(req: RequestView, id: Seq<char>) -> SessionView {
    SessionView { stage: StageView::Done, action: req.action, sender: id }
}

/// The first step of serving a request: by its action.
pub open spec fn begin(req: RequestView, id: Seq<char>) -> (SessionView, StepView) {
    let s = fresh(req, id);
    if req.action == "send_message"@ {
        begin_send(s, req.body)
    } else if req.action == "create_thread"@ {
        begin_create(s, req.body)
    } else if req.action == "get_user_threads"@ {
        begin_range(s, req.body, "user_id"@, false)
    } else if req.action == "get_thread_messages"@ {
        begin_range(s, req.body, "thread_id"@, true)
    } else {
        finish(s, Err(ServerError::BadRequest))
    }
}

/// The event that a session waits for.
pub open spec fn awaits(s: SessionView, e: EventView) -> bool {
    match s.stage {
        StageView::SendDecoding { .. } | StageView::CreateDecoding { .. } => e is Decoded,
        StageView::SendNotifying { .. } => e is Delivered,
        StageView::Done => false,
        _ => e is Answer,
    }
}

/// The next step of a session, from the outcome of the last one.
pub open spec fn advance(s: SessionView, e: EventView) -> (SessionView, StepView) {
    match s.stage {
        StageView::SendDecoding { m_text, thread_arg } => match e {
            EventView::Decoded(Some(msg)) => match thread_arg {
                Field::Missing => finish(s, Err(ServerError::DatabaseFormatErr)),
                Field::Malformed => abort(s),
                Field::Present(tid) => {
                    let d = DeliveryView { msg, thread_id: tid, m_text };
                    (with_stage(s, StageView::SendListing { d }), StepView::Query(thread_users_read(tid)))
                },
            },
            _ => finish(s, Err(ServerError::DatabaseFormatErr)),
        },
        StageView::SendListing { d } => match e {
            EventView::Answer(a) => match thread_users_outcome(a) {
                Err(err) => finish(s, Err(err)),
                Ok(r) => match parsed_json(r.body) {
                    None => abort(s),
                    Some(JsonView::Array(users)) => (
                        with_stage(s, StageView::SendPosting { d, users }),
                        StepView::Query(message_push(d.thread_id, d.msg)),
                    ),
                    Some(_) => finish(s, Err(ServerError::DatabaseFormatErr)),
                },
            },
            _ => abort(s),
        },
        StageView::SendPosting { d, users } => match e {
            EventView::Answer(Ok(r)) => send_next(s, d, r.code, users, 0),
            EventView::Answer(Err(err)) => finish(s, Err(err)),
            _ => abort(s),
        },
        StageView::SendUpdating { d, code, users, next } => match e {
            EventView::Answer(Ok(_)) => {
                let u = users[next as int].as_text().unwrap();
                if u != s.sender {
                    (
                        with_stage(s, StageView::SendNotifying { d, code, users, next }),
                        StepView::Notify(u, live_update(d.thread_id, d.m_text)),
                    )
                } else {
                    send_next(s, d, code, users, next + 1)
                }
            },
            EventView::Answer(Err(err)) => finish(s, Err(err)),
            _ => abort(s),
        },
        StageView::SendNotifying { d, code, users, next } => match e {
            EventView::Delivered(Ok(())) => send_next(s, d, code, users, next + 1),
            EventView::Delivered(Err(f)) => finish(s, Err(ServerError::SendMessageErr(f))),
            _ => abort(s),
        },
        StageView::CreateDecoding { m_text, ids_arg } => match e {
            EventView::Decoded(Some(msg)) => match ids_arg {
                Field::Missing => finish(s, Err(ServerError::DatabaseFormatErr)),
                Field::Malformed => abort(s),
                Field::Present(ids) => (
                    with_stage(s, StageView::CreateChecking { msg, ids }),
                    StepView::Query(threads_read()),
                ),
            },
            _ => finish(s, Err(ServerError::DatabaseFormatErr)),
        },
        StageView::CreateChecking { msg, ids } => match e {
            EventView::Answer(Ok(r)) => if r.body == crate::db::null_text() {
                (with_stage(s, StageView::CreatePushing { msg, ids }), StepView::Query(thread_push(ids)))
            } else {
                match parsed_json(r.body) {
                    None => abort(s),
                    Some(JsonView::Object(ms)) => match find_thread(ms, ids) {
                        Some(thread) => (
                            with_stage(s, StageView::CreatePosting { msg, ids, thread }),
                            StepView::Query(message_push(thread, msg)),
                        ),
                        None => (with_stage(s, StageView::CreatePushing { msg, ids }), StepView::Query(thread_push(ids))),
                    },
                    Some(_) => finish(s, Err(ServerError::ReqNotJSON)),
                }
            },
            EventView::Answer(Err(err)) => finish(s, Err(err)),
            _ => abort(s),
        },
        StageView::CreatePushing { msg, ids } => match e {
            EventView::Answer(Ok(r)) => match parsed_json(r.body) {
                None => abort(s),
                Some(JsonView::Object(ms)) => match member(ms, "name"@) {
                    None => abort(s),
                    Some(v) => {
                        let thread = without_quotes(rendered_json(v));
                        (
                            with_stage(s, StageView::CreatePosting { msg, ids, thread }),
                            StepView::Query(message_push(thread, msg)),
                        )
                    },
                },
                Some(_) => finish(s, Err(ServerError::ReqNotJSON)),
            },
            EventView::Answer(Err(err)) => finish(s, Err(err)),
            _ => abort(s),
        },
        StageView::CreatePosting { msg, ids, thread } => match e {
            EventView::Answer(Ok(_)) => create_next(s, msg, ids, thread, 0),
            EventView::Answer(Err(err)) => finish(s, Err(err)),
            _ => abort(s),
        },
        StageView::CreateUpdating { msg, ids, thread, next } => match e {
            EventView::Answer(Ok(r)) => if next < ids.len() {
                create_next(s, msg, ids, thread, next + 1)
            } else {
                finish(s, Ok(reply_to(s, created_body(thread), r.code)))
            },
            EventView::Answer(Err(err)) => finish(s, Err(err)),
            _ => abort(s),
        },
        StageView::Listing { start, end } => match e {
            EventView::Answer(a) => match user_threads_outcome(a, start, end) {
                None => abort(s),
                Some(Err(err)) => finish(s, Err(err)),
                Some(Ok(r)) => finish(s, Ok(reply_to(s, r.body, r.code))),
            },
            _ => abort(s),
        },
        StageView::Reading { start, end } => match e {
            EventView::Answer(a) => match thread_messages_outcome(a, start, end) {
                None => abort(s),
                Some(Err(ServerError::InvalidThreadId)) => finish(s, Ok(ReplyView { action: s.action, body: "Invalid Thread Id"@, code: 404 })),
                Some(Err(err)) => finish(s, Err(err)),
                Some(Ok(r)) => finish(s, Ok(reply_to(s, r.body, r.code))),
            },
            _ => abort(s),
        },
        StageView::Done => abort(s),
    }
}

/// A session that waits for an event is well formed: the participant that
/// an update or a live update is for is a text, and the counters stay in
/// their lists.
pub open spec fn well_formed(s: SessionView) -> bool {
    match s.stage {
        StageView::SendUpdating { users, next, .. } | StageView::SendNotifying { users, next, .. } =>
            next < users.len() && users[next as int].as_text() is Some,
        StageView::CreateUpdating { ids, next, .. } => next <= ids.len(),
        StageView::Listing { start, end } | StageView::Reading { start, end } => start <= end,
        _ => true,
    }
}

/// Law: serving a request keeps the session well formed, whatever comes of
/// each step.
pub proof fn lemma_advance_well_formed(s: SessionView, e: EventView)
    requires
        well_formed(s),
        awaits(s, e),
    ensures
        well_formed(advance(s, e).0),
{
}

/// Law: a request starts a well-formed session.
pub proof fn lemma_begin_well_formed(req: RequestView, id: Seq<char>)
    ensures
        well_formed(begin(req, id).0),
{
}

fn done(action: String, sender: String, step: Step) -> (next: (Session, Step))
    ensures
        next.0@ == (SessionView { stage: StageView::Done, action: action@, sender: sender@ }),
        next.1 == step,
{
    (Session { stage: Stage::Done, action, sender }, step)
}

fn empty_text() -> (t: String)
    ensures
        t@ == Seq::<char>::empty(),
{
    String::new()
}

/// Sending a message: the update for participant `k`, or the reply.
fn send_step(action: String, sender: String, d: Delivery, code: u32, users: Vec<Json>, k: usize, Ghost(s): Ghost<SessionView>)
    -> (next: (Session, Step))
    requires
        s.action == action@,
        s.sender == sender@,
        k <= users.len(),
    ensures
        (next.0@, next.1@) == send_next(s, d@, code, items_view(users@), k as nat),
        well_formed(next.0@),
{
    proof {
        lemma_items_view(users@);
    }
    if k >= users.len() {
        let body = empty_text();
        let reply = Reply { action: action.clone(), body, code: status_code(code) };
        done(action, sender, Step::Finish(Ok(reply)))
    } else {
        match &users[k] {
            Json::Str(u) => {
                let req = update_user_threads_request(u.as_str(), d.thread_id.as_str(), &d.msg);
                (Session { stage: Stage::SendUpdating { d, code, users, next: k }, action, sender }, Step::Query(req))
            },
            _ => done(action, sender, Step::Abort),
        }
    }
}

/// Creating a conversation: the update for participant `k`, or for the
/// sender once the participants are done.
fn create_step(action: String, sender: String, msg: Message, ids: Vec<String>, thread: String, k: usize, Ghost(s): Ghost<SessionView>)
    -> (next: (Session, Step))
    requires
        s.action == action@,
        s.sender == sender@,
        k <= ids.len(),
    ensures
        (next.0@, next.1@) == create_next(s, msg@, texts(ids@), thread@, k as nat),
        well_formed(next.0@),
{
    let req = if k < ids.len() {
        update_user_threads_request(ids[k].as_str(), thread.as_str(), &msg)
    } else {
        update_user_threads_request(msg.user_id.as_str(), thread.as_str(), &msg)
    };
    (Session { stage: Stage::CreateUpdating { msg, ids, thread, next: k }, action, sender }, Step::Query(req))
}

fn live_update_reply(thread_id: &str, m_text: &str) -> (reply: Reply)
    ensures
        reply@ == live_update(thread_id@, m_text@),
{
    let mut action = String::new();
    action.append("receive_message");
    let mut body = String::new();
    body.append("{\"thread_id\":\"");
    body.append(thread_id);
    body.append("\", \"message\": ");
    body.append(m_text);
    body.append("}");
    assert(body@ =~= update_body(thread_id@, m_text@));
    Reply { action, body, code: 200 }
}

fn created_reply_body(thread: &str) -> (body: String)
    ensures
        body@ == created_body(thread@),
{
    let mut body = String::new();
    body.append("{\"thread_id\":\"");
    body.append(thread);
    body.append("\"}");
    assert(body@ =~= created_body(thread@));
    body
}

/// Sends a new message to a conversation: decodes it, appends it to the
/// conversation, updates every participant's entry, and sends a live update
/// to each connected participant other than the sender. The first step.
pub fn action_send_message(request: &Request, id: &str) -> (first: (Session, Step))
    ensures
        (first.0@, first.1@) == begin_send(fresh(request@, id@), request@.body),
        well_formed(first.0@),
{
    let action = request.action.clone();
    let sender = id.to_string();
    match request.body.get("message") {
        None => done(action, sender, Step::Finish(Err(ServerError::DatabaseFormatErr))),
        Some(m) => {
            let m_text = m.render();
            let thread = text_field(&request.body, "thread_id");
            let decode = m_text.clone();
            (Session { stage: Stage::SendDecoding { m_text, thread_arg: thread }, action, sender }, Step::Decode(decode))
        },
    }
}

/// Creates a conversation between users and sends its first message:
/// decodes the message, creates the conversation, appends the message,
/// and updates the entries of the participants and of the sender. The
/// first step.
pub fn action_create_thread(request: &Request, id: &str) -> (first: (Session, Step))
    ensures
        (first.0@, first.1@) == begin_create(fresh(request@, id@), request@.body),
        well_formed(first.0@),
{
    let action = request.action.clone();
    let sender = id.to_string();
    match request.body.get("message") {
        None => done(action, sender, Step::Finish(Err(ServerError::DatabaseFormatErr))),
        Some(m) => {
            let m_text = m.render();
            let ids = text_list_field(&request.body, "user_ids");
            let decode = m_text.clone();
            (Session { stage: Stage::CreateDecoding { m_text, ids_arg: ids }, action, sender }, Step::Decode(decode))
        },
    }
}

fn range_step(request: &Request, id: &str, id_key: &str, threads: bool) -> (first: (Session, Step))
    ensures
        (first.0@, first.1@) == begin_range(fresh(request@, id@), request@.body, id_key@, threads),
        well_formed(first.0@),
{
    let action = request.action.clone();
    let sender = id.to_string();
    match text_field(&request.body, id_key) {
        Field::Missing => done(action, sender, Step::Finish(Err(ServerError::DatabaseFormatErr))),
        Field::Malformed => done(action, sender, Step::Abort),
        Field::Present(key) => match index_field(&request.body, "start_index") {
            Field::Missing => done(action, sender, Step::Finish(Err(ServerError::DatabaseFormatErr))),
            Field::Malformed => done(action, sender, Step::Abort),
            Field::Present(start) => match index_field(&request.body, "end_index") {
                Field::Missing => done(action, sender, Step::Finish(Err(ServerError::DatabaseFormatErr))),
                Field::Malformed => done(action, sender, Step::Abort),
                Field::Present(end) => if end < start {
                    done(action, sender, Step::Abort)
                } else if threads {
                    let req = get_thread_messages_request(key.as_str());
                    (Session { stage: Stage::Reading { start, end }, action, sender }, Step::Query(req))
                } else {
                    let req = get_user_threads_request(key.as_str());
                    (Session { stage: Stage::Listing { start, end }, action, sender }, Step::Query(req))
                },
            },
        },
    }
}

/// Lists a range of a user's conversations, newest first. The first step.
pub fn action_get_user_threads(request: &Request, id: &str) -> (first: (Session, Step))
    ensures
        (first.0@, first.1@) == begin_range(fresh(request@, id@), request@.body, "user_id"@, false),
        well_formed(first.0@),
{
    range_step(request, id, "user_id", false)
}

/// Lists a range of the messages of a conversation, newest first; an
/// unknown conversation is answered with code 404. The first step.
pub fn action_get_thread_messages(request: &Request, id: &str) -> (first: (Session, Step))
    ensures
        (first.0@, first.1@) == begin_range(fresh(request@, id@), request@.body, "thread_id"@, true),
        well_formed(first.0@),
{
    range_step(request, id, "thread_id", true)
}

/// Starts serving the request of the connected user `id`, by its action;
/// an unknown action is a `BadRequest`.
pub fn take_action(request: &Request, id: &str) -> (first: (Session, Step))
    ensures
        (first.0@, first.1@) == begin(request@, id@),
        well_formed(first.0@),
{
    let action = request.action.as_str();
    if str_eq(action, "send_message") {
        action_send_message(request, id)
    } else if str_eq(action, "create_thread") {
        action_create_thread(request, id)
    } else if str_eq(action, "get_user_threads") {
        action_get_user_threads(request, id)
    } else if str_eq(action, "get_thread_messages") {
        action_get_thread_messages(request, id)
    } else {
        done(request.action.clone(), id.to_string(), Step::Finish(Err(ServerError::BadRequest)))
    }
}

impl Session {
    /// Whether the session waits for this event.
    pub fn accepts(&self, event: &Event) -> (b: bool)
        ensures
            b == awaits(self@, event@),
    {
        match (&self.stage, event) {
            (Stage::SendDecoding { .. }, Event::Decoded(_)) => true,
            (Stage::CreateDecoding { .. }, Event::Decoded(_)) => true,
            (Stage::SendDecoding { .. }, _) => false,
            (Stage::CreateDecoding { .. }, _) => false,
            (Stage::SendNotifying { .. }, Event::Delivered(_)) => true,
            (Stage::SendNotifying { .. }, _) => false,
            (Stage::Done, _) => false,
            (_, Event::Answer(_)) => true,
            (_, _) => false,
        }
    }

    /// The next step, from what came of the last one.
    pub fn resume(self, event: Event) -> (next: (Session, Step))
        requires
            well_formed(self@),
            awaits(self@, event@),
        ensures
            (next.0@, next.1@) == advance(self@, event@),
            well_formed(next.0@),
    {
        let ghost s = self@;
        let Session { stage, action, sender } = self;
        match stage {
            Stage::SendDecoding { m_text, thread_arg } => match event {
                Event::Decoded(Some(msg)) => match thread_arg {
                    Field::Missing => done(action, sender, Step::Finish(Err(ServerError::DatabaseFormatErr))),
                    Field::Malformed => done(action, sender, Step::Abort),
                    Field::Present(tid) => {
                        let req = get_thread_user_ids_request(tid.as_str());
                        let d = Delivery { msg, thread_id: tid, m_text };
                        (Session { stage: Stage::SendListing { d }, action, sender }, Step::Query(req))
                    },
                },
                _ => done(action, sender, Step::Finish(Err(ServerError::DatabaseFormatErr))),
            },
            Stage::SendListing { d } => match event {
                Event::Answer(a) => match get_thread_user_ids_outcome(a) {
                    Err(err) => done(action, sender, Step::Finish(Err(err))),
                    Ok(r) => match Json::parse(r.body.as_str()) {
                        None => done(action, sender, Step::Abort),
                        Some(Json::Array(users)) => {
                            let req = create_message_request(d.thread_id.as_str(), &d.msg);
                            (Session { stage: Stage::SendPosting { d, users }, action, sender }, Step::Query(req))
                        },
                        Some(_) => done(action, sender, Step::Finish(Err(ServerError::DatabaseFormatErr))),
                    },
                },
                _ => done(action, sender, Step::Abort),
            },
            Stage::SendPosting { d, users } => match event {
                Event::Answer(Ok(r)) => send_step(action, sender, d, r.code, users, 0, Ghost(s)),
                Event::Answer(Err(err)) => done(action, sender, Step::Finish(Err(err))),
                _ => done(action, sender, Step::Abort),
            },
            Stage::SendUpdating { d, code, users, next } => match event {
                Event::Answer(Ok(_)) => {
                    proof {
                        lemma_items_view(users@);
                        assert(s.stage == StageView::SendUpdating { d: d@, code, users: items_view(users@), next: next as nat });
                        assert(well_formed(s));
                    }
                    assert(next < users.len());
                    let to_notify = match &users[next] {
                        Json::Str(u) => if str_eq(u.as_str(), sender.as_str()) { None } else { Some(u.clone()) },
                        _ => None,
                    };
                    match to_notify {
                        Some(u) => {
                            let reply = live_update_reply(d.thread_id.as_str(), d.m_text.as_str());
                            (Session { stage: Stage::SendNotifying { d, code, users, next }, action, sender }, Step::Notify(u, reply))
                        },
                        None => send_step(action, sender, d, code, users, next + 1, Ghost(s)),
                    }
                },
                Event::Answer(Err(err)) => done(action, sender, Step::Finish(Err(err))),
                _ => done(action, sender, Step::Abort),
            },
            Stage::SendNotifying { d, code, users, next } => match event {
                Event::Delivered(Ok(())) => {
                    proof {
                        lemma_items_view(users@);
                        assert(s.stage == StageView::SendNotifying { d: d@, code, users: items_view(users@), next: next as nat });
                        assert(well_formed(s));
                    }
                    assert(next < users.len());
                    send_step(action, sender, d, code, users, next + 1, Ghost(s))
                },
                Event::Delivered(Err(f)) => done(action, sender, Step::Finish(Err(ServerError::SendMessageErr(f)))),
                _ => done(action, sender, Step::Abort),
            },
            Stage::CreateDecoding { m_text, ids_arg } => match event {
                Event::Decoded(Some(msg)) => match ids_arg {
                    Field::Missing => done(action, sender, Step::Finish(Err(ServerError::DatabaseFormatErr))),
                    Field::Malformed => done(action, sender, Step::Abort),
                    Field::Present(ids) => {
                        let req = get_threads_request();
                        (Session { stage: Stage::CreateChecking { msg, ids }, action, sender }, Step::Query(req))
                    },
                },
                _ => done(action, sender, Step::Finish(Err(ServerError::DatabaseFormatErr))),
            },
            Stage::CreateChecking { msg, ids } => match event {
                Event::Answer(Ok(r)) => if crate::db::is_null_body(&r.body) {
                    let req = create_thread_request(&ids);
                    (Session { stage: Stage::CreatePushing { msg, ids }, action, sender }, Step::Query(req))
                } else {
                    match Json::parse(r.body.as_str()) {
                        None => done(action, sender, Step::Abort),
                        Some(Json::Object(ms)) => match find_thread_for(&ms, &ids) {
                            Some(thread) => {
                                let req = create_message_request(thread.as_str(), &msg);
                                (Session { stage: Stage::CreatePosting { msg, ids, thread }, action, sender }, Step::Query(req))
                            },
                            None => {
                                let req = create_thread_request(&ids);
                                (Session { stage: Stage::CreatePushing { msg, ids }, action, sender }, Step::Query(req))
                            },
                        },
                        Some(_) => done(action, sender, Step::Finish(Err(ServerError::ReqNotJSON))),
                    }
                },
                Event::Answer(Err(err)) => done(action, sender, Step::Finish(Err(err))),
                _ => done(action, sender, Step::Abort),
            },
            Stage::CreatePushing { msg, ids } => match event {
                Event::Answer(Ok(r)) => match Json::parse(r.body.as_str()) {
                    None => done(action, sender, Step::Abort),
                    Some(parsed) => {
                        match &parsed {
                            Json::Object(_) => {
                                match parsed.get("name") {
                                    None => done(action, sender, Step::Abort),
                                    Some(v) => {
                                        let rendered = v.render();
                                        let thread = strip_quotes(rendered.as_str());
                                        let req = create_message_request(thread.as_str(), &msg);
                                        (Session { stage: Stage::CreatePosting { msg, ids, thread }, action, sender }, Step::Query(req))
                                    },
                                }
                            },
                            _ => done(action, sender, Step::Finish(Err(ServerError::ReqNotJSON))),
                        }
                    },
                },
                Event::Answer(Err(err)) => done(action, sender, Step::Finish(Err(err))),
                _ => done(action, sender, Step::Abort),
            },
            Stage::CreatePosting { msg, ids, thread } => match event {
                Event::Answer(Ok(_)) => create_step(action, sender, msg, ids, thread, 0, Ghost(s)),
                Event::Answer(Err(err)) => done(action, sender, Step::Finish(Err(err))),
                _ => done(action, sender, Step::Abort),
            },
            Stage::CreateUpdating { msg, ids, thread, next } => match event {
                Event::Answer(Ok(r)) => if next < ids.len() {
                    create_step(action, sender, msg, ids, thread, next + 1, Ghost(s))
                } else {
                    let body = created_reply_body(thread.as_str());
                    let reply = Reply { action: action.clone(), body, code: status_code(r.code) };
                    done(action, sender, Step::Finish(Ok(reply)))
                },
                Event::Answer(Err(err)) => done(action, sender, Step::Finish(Err(err))),
                _ => done(action, sender, Step::Abort),
            },
            Stage::Listing { start, end } => {
                proof {
                    assert(s.stage == StageView::Listing { start, end });
                    assert(well_formed(s));
                }
                match event {
                    Event::Answer(a) => match get_user_threads_outcome(a, start, end) {
                        None => done(action, sender, Step::Abort),
                        Some(Err(err)) => done(action, sender, Step::Finish(Err(err))),
                        Some(Ok(r)) => {
                            let reply = Reply { action: action.clone(), body: r.body, code: status_code(r.code) };
                            done(action, sender, Step::Finish(Ok(reply)))
                        },
                    },
                    _ => done(action, sender, Step::Abort),
                }
            },
            Stage::Reading { start, end } => {
                proof {
                    assert(s.stage == StageView::Reading { start, end });
                    assert(well_formed(s));
                }
                match event {
                    Event::Answer(a) => match get_thread_messages_outcome(a, start, end) {
                        None => done(action, sender, Step::Abort),
                        Some(Err(ServerError::InvalidThreadId)) => {
                            let mut body = String::new();
                            body.append("Invalid Thread Id");
                            let reply = Reply { action: action.clone(), body, code: 404 };
                            done(action, sender, Step::Finish(Ok(reply)))
                        },
                        Some(Err(err)) => done(action, sender, Step::Finish(Err(err))),
                        Some(Ok(r)) => {
                            let reply = Reply { action: action.clone(), body: r.body, code: status_code(r.code) };
                            done(action, sender, Step::Finish(Ok(reply)))
                        },
                    },
                    _ => done(action, sender, Step::Abort),
                }
            },
            Stage::Done => done(action, sender, Step::Abort),
        }
    }
}

/// The steps that a session takes on a sequence of events, one step per
/// event, up to the first event that it does not wait for.
pub open spec fn run(s: SessionView, events: Seq<EventView>) -> Seq<StepView>
    decreases events.len(),
{
    if events.len() == 0 || !awaits(s, events[0]) {
        Seq::empty()
    } else {
        let next = advance(s, events[0]);
        seq![next.1] + run(next.0, events.subrange(1, events.len() as int))
    }
}

/// A step and the steps that follow it on a sequence of events.
pub open spec fn steps_from(first: (SessionView, StepView), events: Seq<EventView>) -> Seq<StepView> {
    seq![first.1] + run(first.0, events)
}

/// The events of a delivery that goes well from participant `k` on: each
/// update is stored and each live update is delivered.
pub open spec fn deliveries(users: Seq<JsonView>, sender: Seq<char>, ok: ResponseView, k: nat) -> Seq<EventView>
    decreases users.len() - k,
{
    if k >= users.len() {
        Seq::empty()
    } else {
        let rest = deliveries(users, sender, ok, k + 1);
        if users[k as int].as_text().unwrap() != sender {
            seq![EventView::Answer(Ok(ok)), EventView::Delivered(Ok(()))] + rest
        } else {
            seq![EventView::Answer(Ok(ok))] + rest
        }
    }
}

/// The steps of a delivery from participant `k` on: the update of each
/// participant's entry, each followed, for everyone but the sender, by a
/// live update.
pub open spec fn fan_out(d: DeliveryView, users: Seq<JsonView>, sender: Seq<char>, k: nat) -> Seq<StepView>
    decreases users.len() - k,
{
    if k >= users.len() {
        Seq::empty()
    } else {
        let u = users[k as int].as_text().unwrap();
        let rest = fan_out(d, users, sender, k + 1);
        if u != sender {
            seq![StepView::Query(user_thread_update(u, d.thread_id, d.msg)), StepView::Notify(u, live_update(d.thread_id, d.m_text))] + rest
        } else {
            seq![StepView::Query(user_thread_update(u, d.thread_id, d.msg))] + rest
        }
    }
}

/// Law (messages are delivered): once the participants of a conversation
/// are known, sending a message updates the entry of every participant, in
/// order, and sends a live update to every participant but the sender;
/// then it replies with the code of the stored message.
pub proof fn lemma_delivery(s: SessionView, d: DeliveryView, code: u32, users: Seq<JsonView>, ok: ResponseView, k: nat)
    requires
        all_texts(users),
        k <= users.len(),
    ensures
        steps_from(send_next(s, d, code, users, k), deliveries(users, s.sender, ok, k))
            == fan_out(d, users, s.sender, k) + seq![StepView::Finish(Ok(reply_to(s, Seq::empty(), code)))],
    decreases users.len() - k,
{
    let events = deliveries(users, s.sender, ok, k);
    if k >= users.len() {
        assert(run(send_next(s, d, code, users, k).0, events) =~= Seq::<StepView>::empty());
        assert(fan_out(d, users, s.sender, k) =~= Seq::<StepView>::empty());
        assert(steps_from(send_next(s, d, code, users, k), events)
            =~= seq![StepView::Finish(Ok(reply_to(s, Seq::empty(), code)))]);
    } else {
        let u = users[k as int].as_text().unwrap();
        let s1 = send_next(s, d, code, users, k).0;
        let rest = deliveries(users, s.sender, ok, k + 1);
        let a = EventView::Answer(Ok(ok));
        assert(s1 == with_stage(s, StageView::SendUpdating { d, code, users, next: k }));
        if u != s.sender {
            let s2 = with_stage(s, StageView::SendNotifying { d, code, users, next: k });
            let tail = seq![EventView::Delivered(Ok(()))] + rest;
            assert(events =~= seq![a] + tail);
            assert(events.subrange(1, events.len() as int) =~= tail);
            assert(tail.subrange(1, tail.len() as int) =~= rest);
            assert(advance(s1, a) == (s2, StepView::Notify(u, live_update(d.thread_id, d.m_text))));
            let next = send_next(s2, d, code, users, k + 1);
            assert(advance(s2, EventView::Delivered(Ok(()))) == next);
            assert(run(s2, tail) == seq![next.1] + run(next.0, rest));
            lemma_delivery(s2, d, code, users, ok, k + 1);
            assert(reply_to(s2, Seq::empty(), code) == reply_to(s, Seq::empty(), code));
            assert(run(s1, events) == seq![StepView::Notify(u, live_update(d.thread_id, d.m_text))] + run(s2, tail));
            assert(steps_from(send_next(s, d, code, users, k), events)
                =~= fan_out(d, users, s.sender, k) + seq![StepView::Finish(Ok(reply_to(s, Seq::empty(), code)))]);
        } else {
            assert(events =~= seq![a] + rest);
            assert(events.subrange(1, events.len() as int) =~= rest);
            let next = send_next(s1, d, code, users, k + 1);
            assert(advance(s1, a) == next);
            lemma_delivery(s1, d, code, users, ok, k + 1);
            assert(reply_to(s1, Seq::empty(), code) == reply_to(s, Seq::empty(), code));
            assert(steps_from(send_next(s, d, code, users, k), events)
                =~= fan_out(d, users, s.sender, k) + seq![StepView::Finish(Ok(reply_to(s, Seq::empty(), code)))]);
        }
    }
}

/// Law (messages are delivered, from the request on): a `send_message`
/// request whose message decodes, whose conversation lists its participants
/// and whose message is stored, goes: decode the message, read the
/// participants, store the message in the conversation, update every
/// participant and send a live update to everyone but the sender, and reply
/// with the code of the stored message.
pub proof fn lemma_send_message_delivers(
    req: RequestView,
    id: Seq<char>,
    m: JsonView,
    tid: Seq<char>,
    msg: MessageView,
    listed: ResponseView,
    stored: ResponseView,
    users: Seq<JsonView>,
    ok: ResponseView,
)
    requires
        req.action == "send_message"@,
        req.body.get("message"@) == Some(m),
        text_arg(req.body, "thread_id"@) == Field::Present(tid),
        listed.body != crate::db::null_text(),
        parsed_json(listed.body) == Some(JsonView::Array(users)),
        all_texts(users),
    ensures
        ({
            let d = DeliveryView { msg, thread_id: tid, m_text: rendered_json(m) };
            steps_from(
                begin(req, id),
                seq![EventView::Decoded(Some(msg)), EventView::Answer(Ok(listed)), EventView::Answer(Ok(stored))]
                    + deliveries(users, id, ok, 0),
            ) == seq![
                StepView::Decode(rendered_json(m)),
                StepView::Query(thread_users_read(tid)),
                StepView::Query(message_push(tid, msg)),
            ] + fan_out(d, users, id, 0) + seq![StepView::Finish(Ok(ReplyView { action: req.action, body: Seq::empty(), code: reply_code(stored.code) }))]
        }),
{
    let d = DeliveryView { msg, thread_id: tid, m_text: rendered_json(m) };
    let s0 = fresh(req, id);
    let rest = deliveries(users, id, ok, 0);
    let e0 = EventView::Decoded(Some(msg));
    let e1 = EventView::Answer(Ok(listed));
    let e2 = EventView::Answer(Ok(stored));
    let events = seq![e0, e1, e2] + rest;
    let b = begin(req, id);
    assert(b == begin_send(s0, req.body));
    let s1 = with_stage(s0, StageView::SendDecoding { m_text: rendered_json(m), thread_arg: Field::Present(tid) });
    assert(b == (s1, StepView::Decode(rendered_json(m))));
    let s2 = with_stage(s1, StageView::SendListing { d });
    assert(advance(s1, e0) == (s2, StepView::Query(thread_users_read(tid))));
    assert(thread_users_outcome(Ok(listed)) == Ok::<ResponseView, ServerError>(listed));
    let s3 = with_stage(s2, StageView::SendPosting { d, users });
    assert(advance(s2, e1) == (s3, StepView::Query(message_push(tid, msg))));
    let n = send_next(s3, d, stored.code, users, 0);
    assert(advance(s3, e2) == n);
    assert(events.subrange(1, events.len() as int) =~= seq![e1, e2] + rest);
    assert((seq![e1, e2] + rest).subrange(1, (seq![e1, e2] + rest).len() as int) =~= seq![e2] + rest);
    assert((seq![e2] + rest).subrange(1, (seq![e2] + rest).len() as int) =~= rest);
    assert(run(s3, seq![e2] + rest) == seq![n.1] + run(n.0, rest));
    assert(run(s2, seq![e1, e2] + rest) == seq![StepView::Query(message_push(tid, msg))] + run(s3, seq![e2] + rest));
    assert(run(s1, events) == seq![StepView::Query(thread_users_read(tid))] + run(s2, seq![e1, e2] + rest));
    lemma_delivery(s3, d, stored.code, users, ok, 0);
    assert(reply_to(s3, Seq::empty(), stored.code) == ReplyView { action: req.action, body: Seq::empty(), code: reply_code(stored.code) });
    assert(steps_from(b, events) =~= seq![
        StepView::Decode(rendered_json(m)),
        StepView::Query(thread_users_read(tid)),
        StepView::Query(message_push(tid, msg)),
    ] + fan_out(d, users, id, 0) + seq![StepView::Finish(Ok(ReplyView { action: req.action, body: Seq::empty(), code: reply_code(stored.code) }))]);
}

/// Law (no message to an unknown conversation): a `send_message` request
/// for a conversation that the database does not hold reads its
/// participants and answers `InvalidThreadId`; the message is not stored and
/// no one is sent anything.
pub proof fn lemma_unknown_conversation_not_stored(
    req: RequestView,
    id: Seq<char>,
    m: JsonView,
    tid: Seq<char>,
    msg: MessageView,
    listed: ResponseView,
    later: Seq<EventView>,
)
    requires
        req.action == "send_message"@,
        req.body.get("message"@) == Some(m),
        text_arg(req.body, "thread_id"@) == Field::Present(tid),
        listed.body == crate::db::null_text(),
    ensures
        steps_from(begin(req, id), seq![EventView::Decoded(Some(msg)), EventView::Answer(Ok(listed))] + later)
            == seq![
                StepView::Decode(rendered_json(m)),
                StepView::Query(thread_users_read(tid)),
                StepView::Finish(Err(ServerError::InvalidThreadId)),
            ],
{
    let d = DeliveryView { msg, thread_id: tid, m_text: rendered_json(m) };
    let s0 = fresh(req, id);
    let e0 = EventView::Decoded(Some(msg));
    let e1 = EventView::Answer(Ok(listed));
    let events = seq![e0, e1] + later;
    let b = begin(req, id);
    assert(b == begin_send(s0, req.body));
    let s1 = with_stage(s0, StageView::SendDecoding { m_text: rendered_json(m), thread_arg: Field::Present(tid) });
    let s2 = with_stage(s1, StageView::SendListing { d });
    assert(advance(s1, e0) == (s2, StepView::Query(thread_users_read(tid))));
    let s3 = with_stage(s2, StageView::Done);
    assert(advance(s2, e1) == (s3, StepView::Finish(Err(ServerError::InvalidThreadId))));
    assert(events.subrange(1, events.len() as int) =~= seq![e1] + later);
    assert((seq![e1] + later).subrange(1, (seq![e1] + later).len() as int) =~= later);
    assert(run(s3, later) =~= Seq::<StepView>::empty());
    assert(run(s2, seq![e1] + later) == seq![StepView::Finish(Err(ServerError::InvalidThreadId))] + run(s3, later));
    assert(run(s1, events) == seq![StepView::Query(thread_users_read(tid))] + run(s2, seq![e1] + later));
    assert(steps_from(b, events) =~= seq![
        StepView::Decode(rendered_json(m)),
        StepView::Query(thread_users_read(tid)),
        StepView::Finish(Err(ServerError::InvalidThreadId)),
    ]);
}

/// The answers of the database when every update of a new conversation's
/// entries is stored: `n` times `ok`, then `last` for the sender's entry.
pub open spec fn confirmations(n: nat, ok: ResponseView, last: ResponseView) -> Seq<EventView> {
    Seq::new(n, |i: int| EventView::Answer(Ok(ok))).push(EventView::Answer(Ok(last)))
}

/// The updates of the entries of a new conversation from participant `k`
/// on: every listed participant in order, then the sender.
pub open spec fn entry_updates(msg: MessageView, ids: Seq<Seq<char>>, thread: Seq<char>, k: nat) -> Seq<StepView>
    decreases ids.len() - k,
{
    if k >= ids.len() {
        seq![StepView::Query(user_thread_update(msg.user_id, thread, msg))]
    } else {
        seq![StepView::Query(user_thread_update(ids[k as int], thread, msg))] + entry_updates(msg, ids, thread, k + 1)
    }
}

/// Law (a new conversation reaches everyone in it): once the first message
/// of a new conversation is stored, the entry of every listed participant
/// is updated, in order, then the sender's; the reply names the
/// conversation, with the code of the sender's update.
pub proof fn lemma_conversation_entries(s: SessionView, msg: MessageView, ids: Seq<Seq<char>>, thread: Seq<char>, ok: ResponseView, last: ResponseView, k: nat)
    requires
        k <= ids.len(),
    ensures
        steps_from(create_next(s, msg, ids, thread, k), confirmations((ids.len() - k) as nat, ok, last))
            == entry_updates(msg, ids, thread, k) + seq![StepView::Finish(Ok(reply_to(s, created_body(thread), last.code)))],
    decreases ids.len() - k,
{
    let n = (ids.len() - k) as nat;
    let events = confirmations(n, ok, last);
    let first = create_next(s, msg, ids, thread, k);
    if k == ids.len() {
        assert(events =~= seq![EventView::Answer(Ok(last))]);
        assert(events.subrange(1, events.len() as int) =~= Seq::<EventView>::empty());
        assert(run(first.0, events) == seq![StepView::Finish(Ok(reply_to(s, created_body(thread), last.code)))]
            + run(with_stage(s, StageView::Done), Seq::<EventView>::empty()));
        assert(steps_from(first, events) =~= entry_updates(msg, ids, thread, k)
            + seq![StepView::Finish(Ok(reply_to(s, created_body(thread), last.code)))]);
    } else {
        let rest = confirmations((n - 1) as nat, ok, last);
        assert(events =~= seq![EventView::Answer(Ok(ok))] + rest);
        assert(events.subrange(1, events.len() as int) =~= rest);
        let next = create_next(first.0, msg, ids, thread, k + 1);
        assert(advance(first.0, EventView::Answer(Ok(ok))) == next);
        lemma_conversation_entries(first.0, msg, ids, thread, ok, last, k + 1);
        assert(reply_to(first.0, created_body(thread), last.code) == reply_to(s, created_body(thread), last.code));
        assert(run(first.0, events) == seq![next.1] + run(next.0, rest));
        assert(steps_from(first, events) =~= entry_updates(msg, ids, thread, k)
            + seq![StepView::Finish(Ok(reply_to(s, created_body(thread), last.code)))]);
    }
}

/// The database holds no conversation between exactly these users: it holds
/// no conversations at all, or none of those it lists is between them.
pub open spec fn no_conversation_between(listing: ResponseView, ids: Seq<Seq<char>>) -> bool {
    ||| listing.body == crate::db::null_text()
    ||| listing.body != crate::db::null_text() && (parsed_json(listing.body) matches Some(JsonView::Object(all))
            && find_thread(all, ids) is None)
}

/// Law (a new conversation reaches everyone in it, from the request on): a
/// `create_thread` request whose message decodes, for users between whom
/// the database holds no conversation, goes: decode the message, look for a
/// conversation between them, create one, store the message in it, update
/// the entry of every listed participant and then the sender's, and reply
/// with the conversation's id.
pub proof fn lemma_create_thread_reaches_everyone(
    req: RequestView,
    id: Seq<char>,
    m: JsonView,
    ids: Seq<Seq<char>>,
    msg: MessageView,
    listing: ResponseView,
    created: ResponseView,
    members: Seq<(Seq<char>, JsonView)>,
    name: JsonView,
    posted: ResponseView,
    ok: ResponseView,
    last: ResponseView,
)
    requires
        req.action == "create_thread"@,
        req.body.get("message"@) == Some(m),
        text_list_arg(req.body, "user_ids"@) == Field::Present(ids),
        no_conversation_between(listing, ids),
        parsed_json(created.body) == Some(JsonView::Object(members)),
        member(members, "name"@) == Some(name),
    ensures
        ({
            let thread = without_quotes(rendered_json(name));
            steps_from(
                begin(req, id),
                seq![
                    EventView::Decoded(Some(msg)),
                    EventView::Answer(Ok(listing)),
                    EventView::Answer(Ok(created)),
                    EventView::Answer(Ok(posted)),
                ] + confirmations(ids.len(), ok, last),
            ) == seq![
                StepView::Decode(rendered_json(m)),
                StepView::Query(threads_read()),
                StepView::Query(thread_push(ids)),
                StepView::Query(message_push(thread, msg)),
            ] + entry_updates(msg, ids, thread, 0)
                + seq![StepView::Finish(Ok(ReplyView { action: req.action, body: created_body(thread), code: reply_code(last.code) }))]
        }),
{
    reveal_strlit("send_message");
    reveal_strlit("create_thread");
    assert("create_thread"@.len() == 13);
    assert("send_message"@.len() == 12);
    assert(req.action != "send_message"@);
    let thread = without_quotes(rendered_json(name));
    let s0 = fresh(req, id);
    let rest = confirmations(ids.len(), ok, last);
    let e0 = EventView::Decoded(Some(msg));
    let e1 = EventView::Answer(Ok(listing));
    let e2 = EventView::Answer(Ok(created));
    let e3 = EventView::Answer(Ok(posted));
    let t3 = seq![e3] + rest;
    let t2 = seq![e2] + t3;
    let t1 = seq![e1] + t2;
    let events = seq![e0] + t1;
    let b = begin(req, id);
    assert(b == begin_create(s0, req.body));
    let s1 = with_stage(s0, StageView::CreateDecoding { m_text: rendered_json(m), ids_arg: Field::Present(ids) });
    assert(b == (s1, StepView::Decode(rendered_json(m))));
    let s2 = with_stage(s1, StageView::CreateChecking { msg, ids });
    assert(advance(s1, e0) == (s2, StepView::Query(threads_read())));
    let s3 = with_stage(s2, StageView::CreatePushing { msg, ids });
    assert(advance(s2, e1) == (s3, StepView::Query(thread_push(ids))));
    let s4 = with_stage(s3, StageView::CreatePosting { msg, ids, thread });
    assert(advance(s3, e2) == (s4, StepView::Query(message_push(thread, msg))));
    let n = create_next(s4, msg, ids, thread, 0);
    assert(advance(s4, e3) == n);
    assert(events.subrange(1, events.len() as int) =~= t1);
    assert(t1.subrange(1, t1.len() as int) =~= t2);
    assert(t2.subrange(1, t2.len() as int) =~= t3);
    assert(t3.subrange(1, t3.len() as int) =~= rest);
    assert(run(s4, t3) == seq![n.1] + run(n.0, rest));
    assert(run(s3, t2) == seq![StepView::Query(message_push(thread, msg))] + run(s4, t3));
    assert(run(s2, t1) == seq![StepView::Query(thread_push(ids))] + run(s3, t2));
    assert(run(s1, events) == seq![StepView::Query(threads_read())] + run(s2, t1));
    lemma_conversation_entries(s4, msg, ids, thread, ok, last, 0);
    assert(seq![e0, e1, e2, e3] + rest =~= events);
    assert(steps_from(b, events) =~= seq![
        StepView::Decode(rendered_json(m)),
        StepView::Query(threads_read()),
        StepView::Query(thread_push(ids)),
        StepView::Query(message_push(thread, msg)),
    ] + entry_updates(msg, ids, thread, 0)
        + seq![StepView::Finish(Ok(ReplyView { action: req.action, body: created_body(thread), code: reply_code(last.code) }))]);
}

/// Law (a conversation is created only if none exists): a `create_thread`
/// request for users between whom the database already holds a
/// conversation stores the message in that conversation, creates none,
/// updates the entry of every listed participant and then the sender's, and
/// replies with that conversation's id.
pub proof fn lemma_existing_conversation_is_reused(
    req: RequestView,
    id: Seq<char>,
    m: JsonView,
    ids: Seq<Seq<char>>,
    msg: MessageView,
    listing: ResponseView,
    all: Seq<(Seq<char>, JsonView)>,
    thread: Seq<char>,
    posted: ResponseView,
    ok: ResponseView,
    last: ResponseView,
)
    requires
        req.action == "create_thread"@,
        req.body.get("message"@) == Some(m),
        text_list_arg(req.body, "user_ids"@) == Field::Present(ids),
        listing.body != crate::db::null_text(),
        parsed_json(listing.body) == Some(JsonView::Object(all)),
        find_thread(all, ids) == Some(thread),
    ensures
        steps_from(
            begin(req, id),
            seq![EventView::Decoded(Some(msg)), EventView::Answer(Ok(listing)), EventView::Answer(Ok(posted))]
                + confirmations(ids.len(), ok, last),
        ) == seq![
            StepView::Decode(rendered_json(m)),
            StepView::Query(threads_read()),
            StepView::Query(message_push(thread, msg)),
        ] + entry_updates(msg, ids, thread, 0)
            + seq![StepView::Finish(Ok(ReplyView { action: req.action, body: created_body(thread), code: reply_code(last.code) }))],
{
    reveal_strlit("send_message");
    reveal_strlit("create_thread");
    assert("create_thread"@.len() == 13);
    assert("send_message"@.len() == 12);
    assert(req.action != "send_message"@);
    let s0 = fresh(req, id);
    let rest = confirmations(ids.len(), ok, last);
    let e0 = EventView::Decoded(Some(msg));
    let e1 = EventView::Answer(Ok(listing));
    let e2 = EventView::Answer(Ok(posted));
    let events = seq![e0, e1, e2] + rest;
    let b = begin(req, id);
    assert(b == begin_create(s0, req.body));
    let s1 = with_stage(s0, StageView::CreateDecoding { m_text: rendered_json(m), ids_arg: Field::Present(ids) });
    assert(b == (s1, StepView::Decode(rendered_json(m))));
    let s2 = with_stage(s1, StageView::CreateChecking { msg, ids });
    assert(advance(s1, e0) == (s2, StepView::Query(threads_read())));
    let s3 = with_stage(s2, StageView::CreatePosting { msg, ids, thread });
    assert(advance(s2, e1) == (s3, StepView::Query(message_push(thread, msg))));
    let n = create_next(s3, msg, ids, thread, 0);
    assert(advance(s3, e2) == n);
    assert(events.subrange(1, events.len() as int) =~= seq![e1, e2] + rest);
    assert((seq![e1, e2] + rest).subrange(1, (seq![e1, e2] + rest).len() as int) =~= seq![e2] + rest);
    assert((seq![e2] + rest).subrange(1, (seq![e2] + rest).len() as int) =~= rest);
    assert(run(s3, seq![e2] + rest) == seq![n.1] + run(n.0, rest));
    assert(run(s2, seq![e1, e2] + rest) == seq![StepView::Query(message_push(thread, msg))] + run(s3, seq![e2] + rest));
    assert(run(s1, events) == seq![StepView::Query(threads_read())] + run(s2, seq![e1, e2] + rest));
    lemma_conversation_entries(s3, msg, ids, thread, ok, last, 0);
    assert(steps_from(b, events) =~= seq![
        StepView::Decode(rendered_json(m)),
        StepView::Query(threads_read()),
        StepView::Query(message_push(thread, msg)),
    ] + entry_updates(msg, ids, thread, 0)
        + seq![StepView::Finish(Ok(ReplyView { action: req.action, body: created_body(thread), code: reply_code(last.code) }))]);
}

/// Law: reading the messages of a conversation that the database does not
/// hold is answered with code 404 and the text "Invalid Thread Id".
pub proof fn lemma_unknown_thread_is_404(s: SessionView, answer: ResponseView, start: u32, end: u32)
    requires
        s.stage == (StageView::Reading { start, end }),
        answer.body == crate::db::null_text(),
    ensures
        advance(s, EventView::Answer(Ok(answer))).1
            == StepView::Finish(Ok(ReplyView { action: s.action, body: "Invalid Thread Id"@, code: 404 })),
{
}

/// Law: a user with no conversations has the empty list, `[]`, with code
/// 200.
pub proof fn lemma_no_threads_is_empty_list(s: SessionView, answer: ResponseView, start: u32, end: u32)
    requires
        s.stage == (StageView::Listing { start, end }),
        answer.body == crate::db::null_text(),
    ensures
        advance(s, EventView::Answer(Ok(answer))).1
            == StepView::Finish(Ok(ReplyView { action: s.action, body: seq!['[', ']'], code: 200 })),
{
}

/// Law: a request whose action is none of the four is a `BadRequest`, and
/// nothing is asked of the database.
pub proof fn lemma_unknown_action(req: RequestView, id: Seq<char>)
    requires
        req.action != "send_message"@,
        req.action != "create_thread"@,
        req.action != "get_user_threads"@,
        req.action != "get_thread_messages"@,
    ensures
        begin(req, id).1 == StepView::Finish(Err(ServerError::BadRequest)),
{
}

} // verus!
