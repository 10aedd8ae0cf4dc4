//! The error taxonomy shared by every catalog and search operation.

use vstd::prelude::*;

verus! {

/// An expected-absent condition or a rejected input.
///
/// `NotFound` reports an absent profile, group or entry; `InvalidParameter`
/// a bad id, an out-of-range index or a value of the wrong kind; and
/// `InvalidDataFormat` a persisted catalog that cannot be decoded.
#[derive(Clone, Copy, Debug, PartialEq, Eq, Structural)]
pub enum ZdbError {
    NotFound,
    InvalidParameter,
    InvalidDataFormat,
}

impl ZdbError {
    /// A short human-readable description of the error.
    pub fn as_str(&self) -> (r: &'static str)
        ensures
            *self is NotFound ==> r@ == "not found"@,
            *self is InvalidParameter ==> r@ == "invalid parameter"@,
            *self is InvalidDataFormat ==> r@ == "invalid data format"@,
    {
        match self {
            ZdbError::NotFound => "not found",
            ZdbError::InvalidParameter => "invalid parameter",
            ZdbError::InvalidDataFormat => "invalid data format",
        }
    }
}

} // verus!
