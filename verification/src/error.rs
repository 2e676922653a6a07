//! The error model: a two-kind taxonomy shared by every fallible operation.

use vstd::prelude::*;

verus! {

/// The error kind
#[derive(Debug, Clone, Copy, PartialEq, Eq, Structural)]
pub enum ErrorKind {
    /// An I/O-related error occurred
    InOutError,
    /// A value is invalid
    InvalidValue,
}

/// An error of this crate: the kind, plus the raw OS error code where the
/// platform primitive reported one (`0` when no code is involved).
#[derive(Debug, Clone, Copy, PartialEq, Eq, Structural)]
pub struct Error {
    /// What went wrong
    pub kind: ErrorKind,
    /// The raw OS error code reported by the primitive, or `0`
    pub os_code: i32,
}

impl Error {
    /// The `InvalidValue` error value, for use in contracts.
    pub open spec fn invalid_value_spec() -> Error {
        Error { kind: ErrorKind::InvalidValue, os_code: 0 }
    }

    /// The `InOutError` value carrying `os_code`, for use in contracts.
    pub open spec fn in_out_spec(os_code: i32) -> Error {
        Error { kind: ErrorKind::InOutError, os_code }
    }

    /// An `InvalidValue` error: a supplied value cannot be represented in
    /// the form required by the core or the external primitive.
    #[verifier::when_used_as_spec(invalid_value_spec)]
    pub fn invalid_value() -> (r: Error)
        ensures
            r == Error::invalid_value_spec(),
    {
        Error { kind: ErrorKind::InvalidValue, os_code: 0 }
    }

    /// An `InOutError` carrying the raw OS error code the primitive returned.
    #[verifier::when_used_as_spec(in_out_spec)]
    pub fn in_out(os_code: i32) -> (r: Error)
        ensures
            r == Error::in_out_spec(os_code),
    {
        Error { kind: ErrorKind::InOutError, os_code }
    }
}

} // verus!
