//! Requests and responses.
use crate::json::{text_value, Json, JsonView};
use vstd::prelude::*;

verus! {

/// A request. Parameters that were not sent are null.
#[derive(Debug)]
pub struct Request {
    pub id: Json,
    pub method: String,
    pub params: Json,
}

/// A response, which holds a result or an error.
#[derive(Debug)]
pub struct Response {
    pub jsonrpc: String,
    pub id: Json,
    pub result: Option<Json>,
    pub error: Option<ResponseError>,
}

/// What went wrong with a request.
#[derive(Debug)]
pub struct ResponseError {
    pub code: i64,
    pub message: String,
}

/// A response as a mathematical value.
#[verifier::ext_equal]
pub struct ResponseView {
    pub jsonrpc: Seq<char>,
    pub id: JsonView,
    pub result: Option<JsonView>,
    pub error: Option<(int, Seq<char>)>,
}

impl View for Response {
    type V = ResponseView;

    open spec fn view(&self) -> ResponseView {
        ResponseView {
            jsonrpc: self.jsonrpc@,
            id: self.id@,
            result: match self.result {
                Some(value) => Some(value@),
                None => None,
            },
            error: match self.error {
                Some(error) => Some((error.code as int, error.message@)),
                None => None,
            },
        }
    }
}

/// A response with a result.
pub open spec fn success(id: JsonView, value: JsonView) -> ResponseView {
    ResponseView { jsonrpc: "2.0"@, id, result: Some(value), error: None }
}

/// A response with an error.
pub open spec fn failure(id: JsonView, code: int, message: Seq<char>) -> ResponseView {
    ResponseView { jsonrpc: "2.0"@, id, result: None, error: Some((code, message)) }
}

impl Response {
    /// A response with a result.
    pub fn ok(id: Json, value: Json) -> (response: Self)
        ensures
            response@ == success(id@, value@),
    {
        Response { jsonrpc: "2.0".to_owned(), id, result: Some(value), error: None }
    }

    /// A response with an error.
    pub fn err(id: Json, code: i64, message: String) -> (response: Self)
        ensures
            response@ == failure(id@, code as int, message@),
    {
        Response {
            jsonrpc: "2.0".to_owned(),
            id,
            result: None,
            error: Some(ResponseError { code, message }),
        }
    }
}

/// The result of a tool that failed.
pub open spec fn tool_failure(name: Seq<char>, message: Seq<char>) -> JsonView {
    JsonView::object().with("tool"@, JsonView::Text(name)).with("error"@, JsonView::Text(message))
}

/// The result of a tool that failed.
pub fn tool_error(name: &str, message: &str) -> (value: Json)
    ensures
        value@ == tool_failure(name@, message@),
{
    Json::object().with("tool", text_value(name)).with("error", text_value(message))
}

} // verus!
