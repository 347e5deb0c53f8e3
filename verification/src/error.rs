//! The errors that the server reports.
use vstd::prelude::*;

verus! {

/// Possible server errors. The errors that the database client reports
/// carry its description of the failure as text.
#[derive(Debug)]
pub enum ServerError {
    BadRequest,
    ReqNotJSON,
    RespNotUTF8(String),
    NetworkErr(String),
    SslErr(String),
    FirebaseIoErr(String),
    FirebaseIoJsonParseErr(String),
    OtherErr(String),
    UrlHasNoPath,
    UrlIsNotHTTPS,
    Parser(String),
    InvalidUserId,
    InvalidThreadId,
    DatabaseFormatErr,
    SendMessageErr(String),
}

} // verus!
