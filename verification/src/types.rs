//! The server's data: requests, responses, and the errors of parsing and
//! of account storage.
use vstd::prelude::*;
use crate::string_map::StringMap;

verus! {

/// The request methods the server understands.
#[derive(Debug, PartialEq, Eq, Structural, Clone, Copy)]
pub enum Method {
    Get,
    Post,
    Put,
    Head,
    Delete,
    Options,
    Patch,
}

/// Why a request could not be parsed.
#[derive(Debug, PartialEq)]
pub enum HttpParseError {
    InvalidMethod,
    InvalidPath,
    InvalidHttpVersion,
    InvalidHeader,
    RequestTooBig,
    Other(String),
}

/// Why an account or media operation was refused.
#[derive(Debug, PartialEq, Eq, Structural, Clone, Copy)]
pub enum DatabaseError {
    UniqueConstraintError,
    NoUserError,
    NoTypeError,
    NoMediaError,
    StingLengthError,
    Default,
}

impl DatabaseError {
    /// The text the error displays as.
    pub fn message(&self) -> (text: &'static str)
        ensures
            text@ == "SuperError is here!"@,
    {
        "SuperError is here!"
    }
}

/// The protocol versions a request line may name.
#[derive(Debug, PartialEq, Eq, Structural, Clone, Copy)]
pub enum HttpVersion {
    Http1_1,
    Http2_0,
}

/// A parsed request.
#[derive(Debug, PartialEq)]
pub struct Request {
    pub method: Method,
    pub path: String,
    pub http_version: HttpVersion,
    pub headers: StringMap<String>,
    pub body: Option<Vec<u8>>,
}

/// What a request is, mathematically.
pub struct RequestModel {
    pub method: Method,
    pub path: Seq<char>,
    pub http_version: HttpVersion,
    pub headers: Map<Seq<char>, Seq<char>>,
    pub body: Option<Seq<u8>>,
}

/// The contents of an optional byte buffer.
pub open spec fn bytes_view(body: Option<Vec<u8>>) -> Option<Seq<u8>> {
    match body {
        Some(b) => Some(b@),
        None => None,
    }
}

impl View for Request {
    type V = RequestModel;

    open spec fn view(&self) -> RequestModel {
        RequestModel {
            method: self.method,
            path: self.path@,
            http_version: self.http_version,
            headers: self.headers@,
            body: bytes_view(self.body),
        }
    }
}

/// A response to be sent.
#[derive(Debug, PartialEq)]
pub struct Response {
    pub response_code: ResponseCode,
    pub headers: StringMap<String>,
    pub body: Option<Vec<u8>>,
}

/// One field of a `multipart/form-data` body: its part headers and its bytes.
#[derive(Debug, PartialEq)]
pub struct MultipartFormEntry {
    pub headers: StringMap<String>,
    pub field_value: Vec<u8>,
}

impl DeepView for MultipartFormEntry {
    type V = (Map<Seq<char>, Seq<char>>, Seq<u8>);

    open spec fn deep_view(&self) -> Self::V {
        (self.headers@, self.field_value@)
    }
}

/// The kinds of static file the server sends.
#[derive(Debug, PartialEq, Eq, Structural, Clone, Copy)]
pub enum ContentType {
    Html,
    Css,
    Jpeg,
    Png,
}

/// The status codes the server answers with.
#[derive(Debug, PartialEq, Eq, Structural, Clone, Copy)]
pub enum ResponseCode {
    OK,
    SeeOther,
    NotFound,
}

} // verus!
