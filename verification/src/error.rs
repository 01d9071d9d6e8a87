//! The errors with which a generation cycle can end.

use vstd::prelude::*;

verus! {

/// Why a generation cycle was abandoned.
#[derive(Clone, Copy, Debug, PartialEq, Eq, Structural)]
pub enum RestError {
    /// The upstream answered 404.
    NotFound,
    /// The upstream answered 403.
    Forbidden,
    /// The upstream answered 401.
    Unauthorized,
    /// No answer arrived: name resolution, TLS, connection or timeout.
    Transport,
    /// The body is not the expected JSON document.
    Decode,
    /// The upstream answered with any other status than 200.
    Unknown,
}

} // verus!
