//! The decisions of the static-file directive: which path to open for a
//! request, and which response to send for each outcome.
use crate::path::{
    index_file_name, sanitize_path, sanitized_segments, sanitizes_to, SanitizedPath,
};
use http::status::InvalidStatusCode;
use http::StatusCode;
use vstd::prelude::*;

verus! {

#[verifier::external_type_specification]
#[verifier::external_body]
pub struct ExStatusCode(StatusCode);

#[verifier::external_type_specification]
#[verifier::external_body]
pub struct ExInvalidStatusCode(InvalidStatusCode);

/// Relies on http::StatusCode::from_u16: it accepts exactly the codes from 100
/// to 999.
#[verifier::external_body]
fn status_from_u16(code: u16) -> (r: Result<StatusCode, InvalidStatusCode>)
    ensures
        r is Ok <==> 100 <= code <= 999,
{
    StatusCode::from_u16(code)
}

/// Why a request is answered with an error.
#[derive(Clone, Copy, Debug, PartialEq, Eq, Structural)]
pub enum ServeError {
    /// No root directory is configured.
    ConfigMissing,
    /// The request path is absolute or climbs above the root.
    PathEscape,
    /// The file could not be opened.
    ResourceNotFound,
    /// The length of an opened file could not be read.
    MetadataUnavailable,
}

pub open spec fn error_status(e: ServeError) -> u16 {
    match e {
        ServeError::ConfigMissing => 500,
        ServeError::PathEscape => 403,
        ServeError::ResourceNotFound => 404,
        ServeError::MetadataUnavailable => 500,
    }
}

impl ServeError {
    /// The HTTP status code of the error response.
    pub fn status(&self) -> (r: u16)
        ensures
            r == error_status(*self),
    {
        match self {
            ServeError::ConfigMissing => 500,
            ServeError::PathEscape => 403,
            ServeError::ResourceNotFound => 404,
            ServeError::MetadataUnavailable => 500,
        }
    }

    /// The status of the error response as an `http` status code.
    pub fn status_code(&self) -> StatusCode {
        status_from_u16(self.status()).unwrap()
    }
}

/// What is sent back for a request.
#[derive(Clone, Copy, Debug, PartialEq, Eq, Structural)]
pub enum ResponsePlan {
    /// Status 200, the opened file as the body, its length as `Content-Length`.
    File { content_length: u64 },
    /// The error response for the given reason, with no body of ours.
    Error(ServeError),
}

pub open spec fn plan_status(p: ResponsePlan) -> u16 {
    match p {
        ResponsePlan::File { .. } => 200,
        ResponsePlan::Error(e) => error_status(e),
    }
}

impl ResponsePlan {
    /// The HTTP status code of the response.
    pub fn status(&self) -> (r: u16)
        ensures
            r == plan_status(*self),
    {
        match self {
            ResponsePlan::File { .. } => 200,
            ResponsePlan::Error(e) => e.status(),
        }
    }

    /// The `Content-Length` header of the response, where it carries the file.
    pub fn content_length(&self) -> (r: Option<u64>)
        ensures
            r == (match *self {
                ResponsePlan::File { content_length } => Some(content_length),
                ResponsePlan::Error(_) => None,
            }),
    {
        match self {
            ResponsePlan::File { content_length } => Some(*content_length),
            ResponsePlan::Error(_) => None,
        }
    }

    /// The status of the response as an `http` status code.
    pub fn status_code(&self) -> StatusCode {
        status_from_u16(self.status()).unwrap()
    }
}

/// The plan of a successful response streaming a file of `content_length` bytes.
pub fn file_response(content_length: u64) -> (r: ResponsePlan)
    ensures
        r == (ResponsePlan::File { content_length }),
        plan_status(r) == 200,
{
    ResponsePlan::File { content_length }
}

/// `s` without its leading `/` separators.
pub open spec fn trim_leading_separators(s: Seq<char>) -> Seq<char>
    decreases s.len(),
{
    if s.len() > 0 && s[0] == '/' {
        trim_leading_separators(s.drop_first())
    } else {
        s
    }
}

/// `s` without its leading `/` separators.
pub fn strip_leading_separators(s: &str) -> (r: &str)
    ensures
        r@ == trim_leading_separators(s@),
{
    let n = s.unicode_len();
    let mut i: usize = 0;
    assert(s@.subrange(0, n as int) =~= s@);
    while i < n && s.get_char(i) == '/'
        invariant
            n == s@.len(),
            i <= n,
            trim_leading_separators(s@) == trim_leading_separators(s@.subrange(i as int, n as int)),
        decreases n - i,
    {
        assert(s@.subrange(i as int, n as int).drop_first() =~= s@.subrange(i + 1, n as int));
        i = i + 1;
    }
    s.substring_char(i, n)
}

/// The first step of serving `request_path`: with no root configured the
/// request fails with `ConfigMissing`; else the path, stripped of its leading
/// separators, is confined to the root, and fails with `PathEscape` where it
/// cannot be.
pub fn resolve_request(root: &Option<String>, request_path: &str) -> (r: Result<
    SanitizedPath,
    ServeError,
>)
    ensures
        root is None ==> r == Err::<SanitizedPath, ServeError>(ServeError::ConfigMissing),
        root matches Some(base) ==> {
            &&& r is Err <==> sanitized_segments(trim_leading_separators(request_path@)) is None
            &&& r is Err ==> r == Err::<SanitizedPath, ServeError>(ServeError::PathEscape)
            &&& r matches Ok(p) ==> sanitizes_to(
                base@,
                trim_leading_separators(request_path@),
                Some(p),
            )
        },
{
    match root {
        None => Err(ServeError::ConfigMissing),
        Some(base) => match sanitize_path(base.as_str(), strip_leading_separators(request_path)) {
            Some(p) => Ok(p),
            None => Err(ServeError::PathEscape),
        },
    }
}

/// The path to open for a confined path: the index file inside it where it
/// names a directory, else the path itself.
pub fn open_target(path: SanitizedPath, is_directory: bool) -> (r: SanitizedPath)
    requires
        path.wf(),
    ensures
        r.wf(),
        r.root_view() == path.root_view(),
        r.segments_view() == if is_directory {
            path.segments_view().push(index_file_name())
        } else {
            path.segments_view()
        },
{
    let mut path = path;
    if is_directory {
        path.append_index();
    }
    path
}

/// The response once the target was opened or not: `ResourceNotFound` where
/// opening failed, whatever the reason; the file with its length where both
/// steps succeeded; `MetadataUnavailable` where its length could not be read.
pub fn open_response(opened: bool, length: Option<u64>) -> (r: ResponsePlan)
    ensures
        !opened ==> r == ResponsePlan::Error(ServeError::ResourceNotFound),
        opened ==> r == match length {
            Some(n) => ResponsePlan::File { content_length: n },
            None => ResponsePlan::Error(ServeError::MetadataUnavailable),
        },
{
    if !opened {
        ResponsePlan::Error(ServeError::ResourceNotFound)
    } else {
        match length {
            Some(n) => file_response(n),
            None => ResponsePlan::Error(ServeError::MetadataUnavailable),
        }
    }
}

} // verus!
