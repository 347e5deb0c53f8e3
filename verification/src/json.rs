//! JSON values as plain data, with the two places where serde_json does
//! the work: reading JSON text into a value and writing a value as text.
use vstd::prelude::*;
use crate::text::{bool_text, decimal, digit_char, str_eq};

verus! {

/// A JSON number as serde_json keeps it: a non-negative integer, a negative
/// integer, or a floating-point number kept as the text serde_json writes
/// for it (a `Float` whose text is no JSON number is written as `null`).
pub enum JsonNumber {
    Unsigned(u64),
    Negative(i64),
    Float(String),
}

/// A JSON value held as plain values. The members of an object keep the
/// order in which serde_json hands them out (sorted by key, each key once).
pub enum Json {
    Null,
    Bool(bool),
    Number(JsonNumber),
    Str(String),
    Array(Vec<Json>),
    Object(Vec<(String, Json)>),
}

/// The mathematical model of a `JsonNumber`.
pub enum NumberView {
    Unsigned(u64),
    Negative(i64),
    Float(Seq<char>),
}

/// The mathematical model of a `Json` value.
pub enum JsonView {
    Null,
    Bool(bool),
    Number(NumberView),
    Str(Seq<char>),
    Array(Seq<JsonView>),
    Object(Seq<(Seq<char>, JsonView)>),
}

impl JsonNumber {
    pub open spec fn view(&self) -> NumberView {
        match self {
            JsonNumber::Unsigned(n) => NumberView::Unsigned(*n),
            JsonNumber::Negative(n) => NumberView::Negative(*n),
            JsonNumber::Float(t) => NumberView::Float(t@),
        }
    }
}

/// The models of a sequence of values.
pub open spec fn items_view(s: Seq<Json>) -> Seq<JsonView>
    decreases s,
{
    if s.len() == 0 {
        Seq::empty()
    } else {
        items_view(s.subrange(0, s.len() - 1)).push(s[s.len() - 1].view())
    }
}

/// The models of a sequence of object members.
pub open spec fn members_view(s: Seq<(String, Json)>) -> Seq<(Seq<char>, JsonView)>
    decreases s,
{
    if s.len() == 0 {
        Seq::empty()
    } else {
        members_view(s.subrange(0, s.len() - 1)).push((s[s.len() - 1].0@, s[s.len() - 1].1.view()))
    }
}

impl Json {
    pub open spec fn view(&self) -> JsonView
        decreases self,
    {
        match self {
            Json::Null => JsonView::Null,
            Json::Bool(b) => JsonView::Bool(*b),
            Json::Number(n) => JsonView::Number(n.view()),
            Json::Str(s) => JsonView::Str(s@),
            Json::Array(v) => JsonView::Array(items_view(v@)),
            Json::Object(m) => JsonView::Object(members_view(m@)),
        }
    }
}

pub proof fn lemma_items_view(s: Seq<Json>)
    ensures
        items_view(s).len() == s.len(),
        forall|i: int| 0 <= i < s.len() ==> #[trigger] items_view(s)[i] == s[i].view(),
    decreases s.len(),
{
    if s.len() > 0 {
        lemma_items_view(s.subrange(0, s.len() - 1));
    }
}

pub proof fn lemma_members_view(s: Seq<(String, Json)>)
    ensures
        members_view(s).len() == s.len(),
        forall|i: int| 0 <= i < s.len() ==> #[trigger] members_view(s)[i] == (s[i].0@, s[i].1.view()),
    decreases s.len(),
{
    if s.len() > 0 {
        lemma_members_view(s.subrange(0, s.len() - 1));
    }
}

/// The value of the first member named `key`, as serde_json's map lookup
/// finds it (its keys are unique).
pub open spec fn member(ms: Seq<(Seq<char>, JsonView)>, key: Seq<char>) -> Option<JsonView>
    decreases ms.len(),
{
    if ms.len() == 0 {
        None
    } else if ms[0].0 == key {
        Some(ms[0].1)
    } else {
        member(ms.subrange(1, ms.len() as int), key)
    }
}

/// A member lookup that skips members known not to match.
proof fn lemma_member_skip(ms: Seq<(Seq<char>, JsonView)>, key: Seq<char>, i: int)
    requires
        0 <= i <= ms.len(),
        forall|j: int| 0 <= j < i ==> ms[j].0 != key,
    ensures
        member(ms, key) == member(ms.subrange(i, ms.len() as int), key),
    decreases i,
{
    if i > 0 {
        let rest = ms.subrange(1, ms.len() as int);
        assert forall|j: int| 0 <= j < i - 1 implies rest[j].0 != key by {
            assert(rest[j] == ms[j + 1]);
        }
        lemma_member_skip(rest, key, i - 1);
        assert(rest.subrange(i - 1, rest.len() as int) =~= ms.subrange(i, ms.len() as int));
    } else {
        assert(ms.subrange(0, ms.len() as int) =~= ms);
    }
}

impl JsonView {
    /// `Value::get` with a key: the member of an object, nothing otherwise.
    pub open spec fn get(self, key: Seq<char>) -> Option<JsonView> {
        match self {
            JsonView::Object(ms) => member(ms, key),
            _ => None,
        }
    }

    /// `Value::as_str`.
    pub open spec fn as_text(self) -> Option<Seq<char>> {
        match self {
            JsonView::Str(s) => Some(s),
            _ => None,
        }
    }

    /// `Value::as_u64`: a non-negative integer that fits in 64 bits.
    pub open spec fn as_u64(self) -> Option<u64> {
        match self {
            JsonView::Number(NumberView::Unsigned(n)) => Some(n),
            _ => None,
        }
    }
}

/// The model of an optional value.
pub open spec fn opt_view(o: Option<Json>) -> Option<JsonView> {
    match o {
        Some(j) => Some(j.view()),
        None => None,
    }
}

/// The model of an optional borrowed value.
pub open spec fn opt_ref_view(o: Option<&Json>) -> Option<JsonView> {
    match o {
        Some(j) => Some(j.view()),
        None => None,
    }
}

/// What serde_json reads from a text: `None` where the text is not JSON.
pub uninterp spec fn parsed_json(text: Seq<char>) -> Option<JsonView>;

/// The compact text that serde_json writes for a value.
pub uninterp spec fn rendered_json(value: JsonView) -> Seq<char>;

#[verifier::external_type_specification]
#[verifier::external_body]
pub struct ExJsonValue(serde_json::Value);

/// Moves a serde_json value into the plain representation, node for node;
/// only the two serde_json wrappers below use it.
#[verifier::external_body]
fn value_to_json(v: serde_json::Value) -> Json {
    match v {
        serde_json::Value::Null => Json::Null,
        serde_json::Value::Bool(b) => Json::Bool(b),
        serde_json::Value::Number(n) => Json::Number(match (n.as_u64(), n.as_i64()) {
            (Some(u), _) => JsonNumber::Unsigned(u),
            (None, Some(i)) => JsonNumber::Negative(i),
            (None, None) => JsonNumber::Float(n.to_string()),
        }),
        serde_json::Value::String(s) => Json::Str(s),
        serde_json::Value::Array(a) => Json::Array(a.into_iter().map(value_to_json).collect()),
        serde_json::Value::Object(m) => Json::Object(m.into_iter().map(|(k, v)| (k, value_to_json(v))).collect()),
    }
}

/// Moves the plain representation back into a serde_json value, node for
/// node (a `Float` whose text does not read as a JSON number becomes
/// `null`); only the two serde_json wrappers below use it.
#[verifier::external_body]
fn json_to_value(j: &Json) -> serde_json::Value {
    match j {
        Json::Null => serde_json::Value::Null,
        Json::Bool(b) => serde_json::Value::Bool(*b),
        Json::Number(JsonNumber::Unsigned(u)) => serde_json::Value::from(*u),
        Json::Number(JsonNumber::Negative(i)) => serde_json::Value::from(*i),
        Json::Number(JsonNumber::Float(t)) => serde_json::from_str(t).unwrap_or(serde_json::Value::Null),
        Json::Str(s) => serde_json::Value::String(s.clone()),
        Json::Array(a) => serde_json::Value::Array(a.iter().map(json_to_value).collect()),
        Json::Object(m) => serde_json::Value::Object(m.iter().map(|(k, v)| (k.clone(), json_to_value(v))).collect()),
    }
}

/// `serde_json::from_str::<Value>`: reads a JSON text. The contract only
/// names the result: it depends on the text alone.
#[verifier::external_body]
fn read_json(text: &str) -> (value: Option<Json>)
    ensures
        opt_view(value) == parsed_json(text@),
{
    serde_json::from_str::<serde_json::Value>(text).ok().map(value_to_json)
}

/// Texts separated by commas.
pub open spec fn comma_joined(parts: Seq<Seq<char>>) -> Seq<char>
    decreases parts.len(),
{
    if parts.len() == 0 {
        Seq::empty()
    } else if parts.len() == 1 {
        parts[0]
    } else {
        comma_joined(parts.subrange(0, parts.len() - 1)) + seq![','] + parts[parts.len() - 1]
    }
}

/// The lower-case hexadecimal digit of a number below 16.
pub open spec fn hex_digit(d: nat) -> char {
    if d < 10 {
        digit_char(d)
    } else if d == 10 {
        'a'
    } else if d == 11 {
        'b'
    } else if d == 12 {
        'c'
    } else if d == 13 {
        'd'
    } else if d == 14 {
        'e'
    } else {
        'f'
    }
}

/// How a character is written inside a JSON string: the quote and the
/// backslash behind a backslash, the control characters as their short
/// escape (`\b`, `\t`, `\n`, `\f`, `\r`) or as `\u00` and two hexadecimal
/// digits, every other character as it is.
pub open spec fn escaped_char(c: char) -> Seq<char> {
    if c == '"' {
        seq!['\\', '"']
    } else if c == '\\' {
        seq!['\\', '\\']
    } else if (c as u32) == 8 {
        seq!['\\', 'b']
    } else if c == '\t' {
        seq!['\\', 't']
    } else if c == '\n' {
        seq!['\\', 'n']
    } else if (c as u32) == 12 {
        seq!['\\', 'f']
    } else if c == '\r' {
        seq!['\\', 'r']
    } else if (c as u32) < 32 {
        seq!['\\', 'u', '0', '0', hex_digit((c as u32) as nat / 16), hex_digit((c as u32) as nat % 16)]
    } else {
        seq![c]
    }
}

/// The characters of a string, each written as inside a JSON string.
pub open spec fn json_escaped(s: Seq<char>) -> Seq<char>
    decreases s.len(),
{
    if s.len() == 0 {
        Seq::empty()
    } else {
        escaped_char(s[0]) + json_escaped(s.drop_first())
    }
}

/// A string written as a JSON string: escaped, between double quotes.
pub closed spec fn json_quoted(s: Seq<char>) -> Seq<char> {
    seq!['"'] + json_escaped(s) + seq!['"']
}

/// The first character of a written character tells whether it was
/// escaped; the escape tells the character.
proof fn lemma_escaped_char_prefix(x: char, y: char, r: Seq<char>, t: Seq<char>)
    requires
        escaped_char(x) + r == escaped_char(y) + t,
    ensures
        x == y,
{
    let ex = escaped_char(x);
    let ey = escaped_char(y);
    let all = ex + r;
    assert(all[0] == ex[0] && all[0] == ey[0]);
    if ex[0] != '\\' {
        assert(ey[0] != '\\');
    } else {
        assert(ex.len() >= 2 && ey.len() >= 2);
        assert(all[1] == ex[1] && all[1] == ey[1]);
        if ex[1] == 'u' {
            assert(ex.len() == 6 && ey.len() == 6);
            assert(all[4] == ex[4] && all[4] == ey[4]);
            assert(all[5] == ex[5] && all[5] == ey[5]);
            let xn = (x as u32) as nat;
            let yn = (y as u32) as nat;
            assert(xn / 16 < 16 && yn / 16 < 16);
            assert(xn / 16 == yn / 16);
            assert(xn % 16 == yn % 16);
            assert(xn == yn);
        }
    }
}

/// A written character is never a bare double quote.
proof fn lemma_escaped_char_no_quote(c: char)
    ensures
        escaped_char(c).len() >= 1,
        escaped_char(c)[0] != '"',
{
}

proof fn lemma_json_escaped_prefix(a: Seq<char>, b: Seq<char>, r: Seq<char>, t: Seq<char>)
    requires
        json_escaped(a) + seq!['"'] + r == json_escaped(b) + seq!['"'] + t,
    ensures
        a == b,
        r == t,
    decreases a.len(),
{
    let la = json_escaped(a) + seq!['"'] + r;
    let lb = json_escaped(b) + seq!['"'] + t;
    if a.len() == 0 {
        if b.len() > 0 {
            lemma_escaped_char_no_quote(b[0]);
            assert(lb[0] == escaped_char(b[0])[0]);
            assert(la[0] == '"');
        }
        assert(a =~= b);
        assert(r =~= la.subrange(1, la.len() as int));
        assert(t =~= lb.subrange(1, lb.len() as int));
    } else if b.len() == 0 {
        lemma_escaped_char_no_quote(a[0]);
        assert(la[0] == escaped_char(a[0])[0]);
        assert(lb[0] == '"');
    } else {
        let ra = json_escaped(a.drop_first()) + seq!['"'] + r;
        let rb = json_escaped(b.drop_first()) + seq!['"'] + t;
        assert(la =~= escaped_char(a[0]) + ra);
        assert(lb =~= escaped_char(b[0]) + rb);
        lemma_escaped_char_prefix(a[0], b[0], ra, rb);
        let n = escaped_char(a[0]).len();
        assert(ra =~= la.subrange(n as int, la.len() as int));
        assert(rb =~= lb.subrange(n as int, lb.len() as int));
        lemma_json_escaped_prefix(a.drop_first(), b.drop_first(), r, t);
        assert(a =~= seq![a[0]] + a.drop_first());
        assert(b =~= seq![b[0]] + b.drop_first());
    }
}

/// A JSON string starts with a double quote.
pub proof fn lemma_json_quoted_opens(s: Seq<char>)
    ensures
        json_quoted(s).len() >= 2,
        json_quoted(s)[0] == '"',
{
}

/// A character that a JSON string holds as it is: printable, neither the
/// double quote nor the backslash.
pub open spec fn plain_json_char(c: char) -> bool {
    (c as u32) >= 32 && c != '"' && c != '\\'
}

/// A text of plain characters is written as a JSON string just by putting
/// it between double quotes.
pub proof fn lemma_json_quoted_plain(t: Seq<char>)
    requires
        forall|i: int| 0 <= i < t.len() ==> plain_json_char(#[trigger] t[i]),
    ensures
        json_quoted(t) == seq!['"'] + t + seq!['"'],
{
    lemma_json_escaped_plain(t);
}

proof fn lemma_json_escaped_plain(t: Seq<char>)
    requires
        forall|i: int| 0 <= i < t.len() ==> plain_json_char(#[trigger] t[i]),
    ensures
        json_escaped(t) == t,
    decreases t.len(),
{
    if t.len() > 0 {
        assert(plain_json_char(t[0]));
        assert(escaped_char(t[0]) == seq![t[0]]);
        let rest = t.drop_first();
        assert forall|i: int| 0 <= i < rest.len() implies plain_json_char(#[trigger] rest[i]) by {
            assert(rest[i] == t[i + 1]);
        }
        lemma_json_escaped_plain(rest);
        assert(t =~= seq![t[0]] + rest);
    }
}

/// Law (a JSON string reads back): a text written as a JSON string ends at
/// its closing quote and gives back the text, whatever follows it; two
/// texts written as the same JSON string are the same text.
pub proof fn lemma_json_quoted_prefix(a: Seq<char>, b: Seq<char>, r: Seq<char>, t: Seq<char>)
    requires
        json_quoted(a) + r == json_quoted(b) + t,
    ensures
        a == b,
        r == t,
{
    let la = json_quoted(a) + r;
    let lb = json_quoted(b) + t;
    assert(json_escaped(a) + seq!['"'] + r =~= la.subrange(1, la.len() as int));
    assert(json_escaped(b) + seq!['"'] + t =~= lb.subrange(1, lb.len() as int));
    lemma_json_escaped_prefix(a, b, r, t);
}

/// `Value::to_string`: writes a value as compact JSON text. The result is
/// named: it depends on the value alone. Of the compact format the contract
/// states the plain cases: `null`, the booleans, non-negative integers in
/// decimal, a string escaped between double quotes (`json_quoted`, as
/// serde_json's `format_escaped_str` writes it), and an array as its items'
/// texts between brackets, separated by commas; it leaves unsaid how
/// negative and floating-point numbers are written, and how objects are
/// written.
#[verifier::external_body]
fn write_json(value: &Json) -> (text: String)
    ensures
        text@ == rendered_json(value@),
        value@ == JsonView::Null ==> text@ == seq!['n', 'u', 'l', 'l'],
        value@ matches JsonView::Bool(b) ==> text@ == bool_text(b),
        value@ matches JsonView::Number(NumberView::Unsigned(n)) ==> text@ == decimal(n as nat),
        value@ matches JsonView::Str(t) ==> text@ == json_quoted(t),
        value@ matches JsonView::Array(items) ==> text@
            == seq!['['] + comma_joined(items.map_values(|i: JsonView| rendered_json(i))) + seq![']'],
{
    json_to_value(value).to_string()
}

impl Json {
    /// Reads a JSON text; `None` where the text is not JSON.
    pub fn parse(text: &str) -> (value: Option<Json>)
        ensures
            opt_view(value) == parsed_json(text@),
    {
        read_json(text)
    }

    /// Writes the value as compact JSON text.
    pub fn render(&self) -> (text: String)
        ensures
            text@ == rendered_json(self@),
            self@ == JsonView::Null ==> text@ == seq!['n', 'u', 'l', 'l'],
            self@ matches JsonView::Bool(b) ==> text@ == bool_text(b),
            self@ matches JsonView::Number(NumberView::Unsigned(n)) ==> text@ == decimal(n as nat),
            self@ matches JsonView::Str(t) ==> text@ == json_quoted(t),
            self@ matches JsonView::Array(items) ==> text@
                == seq!['['] + comma_joined(items.map_values(|i: JsonView| rendered_json(i))) + seq![']'],
    {
        write_json(self)
    }

    /// The member named `key` of an object; nothing for other values.
    pub fn get(&self, key: &str) -> (found: Option<&Json>)
        ensures
            opt_ref_view(found) == self@.get(key@),
    {
        match self {
            Json::Object(ms) => {
                proof {
                    lemma_members_view(ms@);
                }
                let ghost mv = members_view(ms@);
                assert(self@ == JsonView::Object(mv));
                let mut i: usize = 0;
                while i < ms.len()
                    invariant
                        0 <= i <= ms.len(),
                        mv == members_view(ms@),
                        self@ == JsonView::Object(mv),
                        mv.len() == ms@.len(),
                        forall|k: int| 0 <= k < ms@.len() ==> #[trigger] mv[k] == (ms@[k].0@, ms@[k].1.view()),
                        forall|j: int| 0 <= j < i ==> mv[j].0 != key@,
                    decreases ms.len() - i,
                {
                    if str_eq(ms[i].0.as_str(), key) {
                        proof {
                            lemma_member_skip(mv, key@, i as int);
                            let sub = mv.subrange(i as int, mv.len() as int);
                            assert(sub[0] == mv[i as int]);
                            assert(mv[i as int].0 == key@);
                            assert(member(sub, key@) == Some(mv[i as int].1));
                            assert(self@ == JsonView::Object(mv));
                        }
                        return Some(&ms[i].1);
                    }
                    i = i + 1;
                }
                proof {
                    lemma_member_skip(mv, key@, i as int);
                    assert(self@ == JsonView::Object(mv));
                }
                None
            },
            _ => None,
        }
    }
}

impl JsonNumber {
    /// A copy of the number.
    pub fn duplicate(&self) -> (copy: JsonNumber)
        ensures
            copy.view() == self.view(),
    {
        match self {
            JsonNumber::Unsigned(n) => JsonNumber::Unsigned(*n),
            JsonNumber::Negative(n) => JsonNumber::Negative(*n),
            JsonNumber::Float(t) => JsonNumber::Float(t.clone()),
        }
    }
}

proof fn lemma_items_view_push(s: Seq<Json>, x: Json)
    ensures
        items_view(s.push(x)) == items_view(s).push(x.view()),
{
    assert(s.push(x).subrange(0, s.len() as int) =~= s);
}

proof fn lemma_members_view_push(s: Seq<(String, Json)>, x: (String, Json))
    ensures
        members_view(s.push(x)) == members_view(s).push((x.0@, x.1.view())),
{
    assert(s.push(x).subrange(0, s.len() as int) =~= s);
}

impl Json {
    /// A deep copy of the value.
    pub fn duplicate(&self) -> (copy: Json)
        ensures
            copy@ == self@,
        decreases self,
    {
        match self {
            Json::Null => Json::Null,
            Json::Bool(b) => Json::Bool(*b),
            Json::Number(n) => Json::Number(n.duplicate()),
            Json::Str(s) => Json::Str(s.clone()),
            Json::Array(items) => {
                let mut out: Vec<Json> = Vec::new();
                let mut i: usize = 0;
                while i < items.len()
                    invariant
                        0 <= i <= items.len(),
                        items_view(out@) == items_view(items@.subrange(0, i as int)),
                        forall|k: int| 0 <= k < items@.len() ==> decreases_to!(*self => #[trigger] items@[k]),
                    decreases items.len() - i,
                {
                    let c = items[i].duplicate();
                    proof {
                        lemma_items_view_push(out@, c);
                        lemma_items_view_push(items@.subrange(0, i as int), items@[i as int]);
                        assert(items@.subrange(0, i as int).push(items@[i as int]) =~= items@.subrange(0, i + 1));
                    }
                    out.push(c);
                    i = i + 1;
                }
                proof {
                    assert(items@.subrange(0, items@.len() as int) =~= items@);
                }
                Json::Array(out)
            },
            Json::Object(ms) => {
                let mut out: Vec<(String, Json)> = Vec::new();
                let mut i: usize = 0;
                while i < ms.len()
                    invariant
                        0 <= i <= ms.len(),
                        members_view(out@) == members_view(ms@.subrange(0, i as int)),
                        forall|k: int| 0 <= k < ms@.len() ==> decreases_to!(*self => #[trigger] ms@[k].1),
                    decreases ms.len() - i,
                {
                    let c = (ms[i].0.clone(), ms[i].1.duplicate());
                    proof {
                        lemma_members_view_push(out@, c);
                        lemma_members_view_push(ms@.subrange(0, i as int), ms@[i as int]);
                        assert(ms@.subrange(0, i as int).push(ms@[i as int]) =~= ms@.subrange(0, i + 1));
                    }
                    out.push(c);
                    i = i + 1;
                }
                proof {
                    assert(ms@.subrange(0, ms@.len() as int) =~= ms@);
                }
                Json::Object(out)
            },
        }
    }
}

} // verus!
