//! Errors of the library.

use vstd::prelude::*;

verus! {

#[derive(Debug)]
pub enum TraceError {
    /// The request cannot be served as it stands.
    InvalidArgument(String),
    /// The trace does not have the expected form.
    ParseError { line: Option<u32>, detail: String },
    /// A cache cannot be used.
    CacheError(String),
    /// The index that a query reads has not been built yet.
    IndexNotReady,
    /// The user stopped the operation.
    Cancelled,
    /// Another operation of the kind is still running.
    OperationInProgress(String),
    /// There is no open trace of that name.
    SessionNotFound(String),
    Internal(String),
}

/// The error says that the request is wrong, in these words.
pub open spec fn is_invalid(e: TraceError, text: Seq<char>) -> bool {
    e matches TraceError::InvalidArgument(s) && s@ == text
}

/// The error says what is wrong with a line, in these words.
pub open spec fn is_parse_error(e: TraceError, at: Option<u32>, text: Seq<char>) -> bool {
    e matches TraceError::ParseError { line, detail } && line == at && detail@ == text
}

/// The error says what is wrong with a cache, in these words.
pub open spec fn is_cache_error(e: TraceError, text: Seq<char>) -> bool {
    e matches TraceError::CacheError(s) && s@ == text
}

/// The error names the session that is not open.
pub open spec fn is_unknown_session(e: TraceError, id: Seq<char>) -> bool {
    e matches TraceError::SessionNotFound(s) && s@ == id
}

pub fn invalid(text: &str) -> (e: TraceError)
    ensures
        is_invalid(e, text@),
{
    TraceError::InvalidArgument(text.to_owned())
}

pub fn parse_error(line: Option<u32>, text: &str) -> (e: TraceError)
    ensures
        is_parse_error(e, line, text@),
{
    TraceError::ParseError { line, detail: text.to_owned() }
}

pub fn cache_error(text: &str) -> (e: TraceError)
    ensures
        is_cache_error(e, text@),
{
    TraceError::CacheError(text.to_owned())
}

} // verus!
