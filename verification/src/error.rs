use vstd::prelude::*;

verus! {

/// Why a request is refused.
#[derive(Debug, Clone, PartialEq, Eq)]
pub enum AppError {
    /// No valid bearer token.
    Unauthorized,
    /// The token is valid but lacks the admin role.
    Forbidden,
    /// The addressed record does not exist.
    NotFound,
    /// The request is malformed; the text says how.
    BadRequest(String),
}

} // verus!
