//! Messages and the JSON records that the database stores for them.
use vstd::prelude::*;
use vstd::string::*;
use crate::db::{DbMethod, DbRequest, DbRequestView, MethodView};
use crate::json::{json_quoted, lemma_json_quoted_prefix, Json};
use crate::text::{append_bool, append_decimal, bool_text, decimal, lemma_decimal_prefix};

verus! {

/// A message: the user who sent it, when it was sent, its text, and
/// whether it has been read.
pub struct Message {
    pub user_id: String,
    pub timestamp: usize,
    pub contents: String,
    pub read: bool,
}

/// The mathematical model of a message.
pub struct MessageView {
    pub user_id: Seq<char>,
    pub timestamp: nat,
    pub contents: Seq<char>,
    pub read: bool,
}

impl Message {
    pub open spec fn view(&self) -> MessageView {
        MessageView {
            user_id: self.user_id@,
            timestamp: self.timestamp as nat,
            contents: self.contents@,
            read: self.read,
        }
    }
}

/// The record of a message in a user's list of conversations: all four
/// fields, written as `{"user_id":.., "timestamp":.., "contents":.., "read":..}`,
/// the two texts as JSON strings.
pub open spec fn user_record(user_id: Seq<char>, timestamp: nat, contents: Seq<char>, read: bool) -> Seq<char> {
    "{\"user_id\":"@ + json_quoted(user_id) + ", \"timestamp\":"@ + decimal(timestamp)
        + ", \"contents\":"@ + json_quoted(contents) + ", \"read\":"@ + bool_text(read) + "}"@
}

/// The record of a message in a conversation: sender, time and text,
/// written as `{"user_id":.., "timestamp":.., "contents":..}`, the two texts
/// as JSON strings.
pub open spec fn thread_record(user_id: Seq<char>, timestamp: nat, contents: Seq<char>) -> Seq<char> {
    "{\"user_id\":"@ + json_quoted(user_id) + ", \"timestamp\":"@ + decimal(timestamp)
        + ", \"contents\":"@ + json_quoted(contents) + "}"@
}

/// Law (a user's record reads back as the message): the record of a
/// message in a user's list of conversations determines the message; two
/// messages with the same record are the same message.
#[verifier::rlimit(40)]
pub proof fn lemma_user_record_reads_back(m1: MessageView, m2: MessageView)
    requires
        user_record(m1.user_id, m1.timestamp, m1.contents, m1.read)
            == user_record(m2.user_id, m2.timestamp, m2.contents, m2.read),
    ensures
        m1 == m2,
{
    reveal_strlit("{\"user_id\":");
    reveal_strlit(", \"timestamp\":");
    reveal_strlit(", \"contents\":");
    reveal_strlit(", \"read\":");
    reveal_strlit("}");
    let head = "{\"user_id\":"@;
    let at_time = ", \"timestamp\":"@;
    let at_text = ", \"contents\":"@;
    let at_read = ", \"read\":"@;
    let tail = "}"@;
    let x1 = user_record(m1.user_id, m1.timestamp, m1.contents, m1.read);
    let x2 = user_record(m2.user_id, m2.timestamp, m2.contents, m2.read);
    let t1 = at_read + bool_text(m1.read) + tail;
    let t2 = at_read + bool_text(m2.read) + tail;
    let s1 = at_text.drop_first() + json_quoted(m1.contents) + t1;
    let s2 = at_text.drop_first() + json_quoted(m2.contents) + t2;
    let r1 = at_time + decimal(m1.timestamp) + seq![','] + s1;
    let r2 = at_time + decimal(m2.timestamp) + seq![','] + s2;
    assert(x1 =~= head + (json_quoted(m1.user_id) + r1));
    assert(x2 =~= head + (json_quoted(m2.user_id) + r2));
    assert(json_quoted(m1.user_id) + r1 =~= x1.subrange(head.len() as int, x1.len() as int));
    assert(json_quoted(m2.user_id) + r2 =~= x2.subrange(head.len() as int, x2.len() as int));
    lemma_json_quoted_prefix(m1.user_id, m2.user_id, r1, r2);
    assert(decimal(m1.timestamp) + seq![','] + s1 =~= r1.subrange(at_time.len() as int, r1.len() as int));
    assert(decimal(m2.timestamp) + seq![','] + s2 =~= r2.subrange(at_time.len() as int, r2.len() as int));
    lemma_decimal_prefix(m1.timestamp, m2.timestamp, ',', s1, s2);
    let n = at_text.drop_first().len() as int;
    assert(json_quoted(m1.contents) + t1 =~= s1.subrange(n, s1.len() as int));
    assert(json_quoted(m2.contents) + t2 =~= s2.subrange(n, s2.len() as int));
    lemma_json_quoted_prefix(m1.contents, m2.contents, t1, t2);
    assert(bool_text(m1.read) =~= t1.subrange(at_read.len() as int, t1.len() - 1));
    assert(bool_text(m2.read) =~= t2.subrange(at_read.len() as int, t2.len() - 1));
    assert(m1.read == m2.read);
}

/// Law (a conversation's record reads back as the message): the record of
/// a message in a conversation determines its sender, time and text.
pub proof fn lemma_thread_record_reads_back(m1: MessageView, m2: MessageView)
    requires
        thread_record(m1.user_id, m1.timestamp, m1.contents) == thread_record(m2.user_id, m2.timestamp, m2.contents),
    ensures
        m1.user_id == m2.user_id,
        m1.timestamp == m2.timestamp,
        m1.contents == m2.contents,
{
    reveal_strlit("{\"user_id\":");
    reveal_strlit(", \"timestamp\":");
    reveal_strlit(", \"contents\":");
    reveal_strlit("}");
    let head = "{\"user_id\":"@;
    let at_time = ", \"timestamp\":"@;
    let at_text = ", \"contents\":"@;
    let tail = "}"@;
    let x1 = thread_record(m1.user_id, m1.timestamp, m1.contents);
    let x2 = thread_record(m2.user_id, m2.timestamp, m2.contents);
    let s1 = at_text.drop_first() + json_quoted(m1.contents) + tail;
    let s2 = at_text.drop_first() + json_quoted(m2.contents) + tail;
    let r1 = at_time + decimal(m1.timestamp) + seq![','] + s1;
    let r2 = at_time + decimal(m2.timestamp) + seq![','] + s2;
    assert(x1 =~= head + (json_quoted(m1.user_id) + r1));
    assert(x2 =~= head + (json_quoted(m2.user_id) + r2));
    assert(json_quoted(m1.user_id) + r1 =~= x1.subrange(head.len() as int, x1.len() as int));
    assert(json_quoted(m2.user_id) + r2 =~= x2.subrange(head.len() as int, x2.len() as int));
    lemma_json_quoted_prefix(m1.user_id, m2.user_id, r1, r2);
    assert(decimal(m1.timestamp) + seq![','] + s1 =~= r1.subrange(at_time.len() as int, r1.len() as int));
    assert(decimal(m2.timestamp) + seq![','] + s2 =~= r2.subrange(at_time.len() as int, r2.len() as int));
    lemma_decimal_prefix(m1.timestamp, m2.timestamp, ',', s1, s2);
    let n = at_text.drop_first().len() as int;
    assert(json_quoted(m1.contents) + tail =~= s1.subrange(n, s1.len() as int));
    assert(json_quoted(m2.contents) + tail =~= s2.subrange(n, s2.len() as int));
    lemma_json_quoted_prefix(m1.contents, m2.contents, tail, tail);
}

/// Appends a text to `out` as a JSON string, escaped by serde_json.
fn append_quoted(out: &mut String, text: &String)
    ensures
        final(out)@ == old(out)@ + json_quoted(text@),
{
    let quoted = Json::Str(text.clone()).render();
    out.append(quoted.as_str());
}

/// Converts a message into the JSON text stored in the users table.
pub fn new_message_to_user_json(new_message: &Message) -> (json: String)
    ensures
        json@ == user_record(new_message.user_id@, new_message.timestamp as nat,
            new_message.contents@, new_message.read),
{
    let mut out = String::new();
    out.append("{\"user_id\":");
    append_quoted(&mut out, &new_message.user_id);
    out.append(", \"timestamp\":");
    append_decimal(&mut out, new_message.timestamp as u64);
    out.append(", \"contents\":");
    append_quoted(&mut out, &new_message.contents);
    out.append(", \"read\":");
    append_bool(&mut out, new_message.read);
    out.append("}");
    assert(out@ =~= user_record(new_message.user_id@, new_message.timestamp as nat,
        new_message.contents@, new_message.read));
    out
}

/// Converts a message into the JSON text stored in the threads table.
pub fn new_message_to_thread_json(new_message: &Message) -> (json: String)
    ensures
        json@ == thread_record(new_message.user_id@, new_message.timestamp as nat,
            new_message.contents@),
{
    let mut out = String::new();
    out.append("{\"user_id\":");
    append_quoted(&mut out, &new_message.user_id);
    out.append(", \"timestamp\":");
    append_decimal(&mut out, new_message.timestamp as u64);
    out.append(", \"contents\":");
    append_quoted(&mut out, &new_message.contents);
    out.append("}");
    assert(out@ =~= thread_record(new_message.user_id@, new_message.timestamp as nat,
        new_message.contents@));
    out
}

/// Where the messages of a conversation are stored.
pub open spec fn thread_messages_path(thread_id: Seq<char>) -> Seq<char> {
    "/threads/"@ + thread_id + "/message_ids"@
}

/// The request that appends a message to a conversation.
pub open spec fn message_push(thread_id: Seq<char>, m: MessageView) -> DbRequestView {
    DbRequestView {
        path: thread_messages_path(thread_id),
        method: MethodView::Push(thread_record(m.user_id, m.timestamp, m.contents)),
    }
}

/// The path of a conversation's messages.
pub fn messages_path(thread_id: &str) -> (path: String)
    ensures
        path@ == thread_messages_path(thread_id@),
{
    let mut path = String::new();
    path.append("/threads/");
    path.append(thread_id);
    path.append("/message_ids");
    assert(path@ =~= thread_messages_path(thread_id@));
    path
}

/// Sends a new message to the conversation `thread_id`, which the user has
/// already started: the request that appends the message's record to the
/// conversation's messages. The database's answer is the outcome.
pub fn create_message_request(thread_id: &str, new_message: &Message) -> (request: DbRequest)
    ensures
        request@ == message_push(thread_id@, new_message@),
{
    DbRequest {
        path: messages_path(thread_id),
        method: DbMethod::Push(new_message_to_thread_json(new_message)),
    }
}

} // verus!
