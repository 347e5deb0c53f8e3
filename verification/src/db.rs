//! The requests that the server makes of the Firebase database, described
//! as plain values, and the answers it gets back.
use vstd::prelude::*;

verus! {

/// The address of the Courier database.
pub const DATABASE_URL: &'static str = "https://courier-13efc.firebaseio.com";

/// What a request does at its path: read, append a record, or merge a
/// record into the one there.
pub enum DbMethod {
    Get,
    Push(String),
    Update(String),
}

/// A request to the database.
pub struct DbRequest {
    pub path: String,
    pub method: DbMethod,
}

/// The database's answer: the body of the reply and its HTTP status code.
pub struct Response {
    pub body: String,
    pub code: u32,
}

/// The model of a request method.
pub enum MethodView {
    Get,
    Push(Seq<char>),
    Update(Seq<char>),
}

/// The model of a database request.
pub struct DbRequestView {
    pub path: Seq<char>,
    pub method: MethodView,
}

/// The model of an answer.
pub struct ResponseView {
    pub body: Seq<char>,
    pub code: u32,
}

impl DbMethod {
    pub open spec fn view(&self) -> MethodView {
        match self {
            DbMethod::Get => MethodView::Get,
            DbMethod::Push(b) => MethodView::Push(b@),
            DbMethod::Update(b) => MethodView::Update(b@),
        }
    }
}

impl DbRequest {
    pub open spec fn view(&self) -> DbRequestView {
        DbRequestView { path: self.path@, method: self.method.view() }
    }
}

impl Response {
    pub open spec fn view(&self) -> ResponseView {
        ResponseView { body: self.body@, code: self.code }
    }
}

/// The model of a database answer or of an outcome computed from one.
pub open spec fn result_view(r: Result<Response, crate::error::ServerError>) -> Result<ResponseView, crate::error::ServerError> {
    match r {
        Ok(resp) => Ok(resp.view()),
        Err(e) => Err(e),
    }
}

/// The model of an outcome that may be missing.
pub open spec fn opt_result_view(r: Option<Result<Response, crate::error::ServerError>>) -> Option<Result<ResponseView, crate::error::ServerError>> {
    match r {
        Some(x) => Some(result_view(x)),
        None => None,
    }
}

/// The text that the database answers where nothing is stored.
pub open spec fn null_text() -> Seq<char> {
    "null"@
}

/// Whether an answer's body says that nothing is stored at the path.
pub fn is_null_body(body: &String) -> (b: bool)
    ensures
        b == (body@ == null_text()),
{
    crate::text::str_eq(body.as_str(), "null")
}

} // verus!
