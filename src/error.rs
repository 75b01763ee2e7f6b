//! Why a reply could not be decoded.
use vstd::prelude::*;

verus! {

/// The reasons a decode fails; each aborts the whole decode.
#[derive(Clone, Copy, Debug, PartialEq, Eq, Structural)]
pub enum DecodeError {
    /// A mandatory key is absent from the reply object.
    MissingField,
    /// A value is present but of another JSON type than the one required.
    TypeMismatch,
    /// A string or number has the right JSON type but does not parse as the target.
    MalformedEncoding,
    /// A number lies outside the domain of its field.
    OutOfRange,
    /// A cross-field consistency check failed.
    InvariantViolation,
}

} // verus!
