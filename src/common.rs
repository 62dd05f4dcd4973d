//! Conversions of common failures into the library's error.

use crate::error::Error;
use std::num::{ParseIntError, TryFromIntError};
use std::time::SystemTimeError;
use time::OutOfRangeError;
use vstd::prelude::*;
use vstd::string::StringExecFns;

verus! {

#[verifier::external_type_specification]
#[verifier::external_body]
pub struct ExParseIntError(ParseIntError);

#[verifier::external_type_specification]
#[verifier::external_body]
pub struct ExSystemTimeError(SystemTimeError);

#[verifier::external_type_specification]
#[verifier::external_body]
pub struct ExOutOfRangeError(OutOfRangeError);

/// Relies on the `Debug` rendering of std::num::TryFromIntError, for the error message.
#[verifier::external_body]
fn describe_try_from_int_error(e: &TryFromIntError) -> String {
    format!("{e:?}")
}

/// Relies on the `Debug` rendering of std::num::ParseIntError, for the error message.
#[verifier::external_body]
fn describe_parse_int_error(e: &ParseIntError) -> String {
    format!("{e:?}")
}

impl From<TryFromIntError> for Error {
    fn from(e: TryFromIntError) -> (r: Error)
        ensures
            r matches Error::OutOfRange(p) && p.payload is None,
    {
        let detail = describe_try_from_int_error(&e);
        Error::out_of_range(String::from_str("Value exceeds 2^32: ").concat(detail.as_str()))
    }
}

impl vstd::std_specs::convert::FromSpecImpl<TryFromIntError> for Error {
    open spec fn obeys_from_spec() -> bool {
        false
    }

    open spec fn from_spec(e: TryFromIntError) -> Error {
        arbitrary()
    }
}

impl From<ParseIntError> for Error {
    fn from(e: ParseIntError) -> (r: Error)
        ensures
            r matches Error::OutOfRange(p) && p.payload is None,
    {
        let detail = describe_parse_int_error(&e);
        Error::out_of_range(String::from_str("Could not parse into integer: ").concat(detail.as_str()))
    }
}

impl vstd::std_specs::convert::FromSpecImpl<ParseIntError> for Error {
    open spec fn obeys_from_spec() -> bool {
        false
    }

    open spec fn from_spec(e: ParseIntError) -> Error {
        arbitrary()
    }
}

impl From<OutOfRangeError> for Error {
    fn from(e: OutOfRangeError) -> (r: Error)
        ensures
            r matches Error::OutOfRange(p) && p.payload is None,
    {
        Error::out_of_range("Negative chrono durations cannot be converted to std::time::Duration")
    }
}

impl vstd::std_specs::convert::FromSpecImpl<OutOfRangeError> for Error {
    open spec fn obeys_from_spec() -> bool {
        false
    }

    open spec fn from_spec(e: OutOfRangeError) -> Error {
        arbitrary()
    }
}

impl From<SystemTimeError> for Error {
    fn from(e: SystemTimeError) -> (r: Error)
        ensures
            r matches Error::InvalidArgument(p) && p.payload is None,
    {
        Error::invalid_argument("SystemTime represents a point before the reference time")
    }
}

impl vstd::std_specs::convert::FromSpecImpl<SystemTimeError> for Error {
    open spec fn obeys_from_spec() -> bool {
        false
    }

    open spec fn from_spec(e: SystemTimeError) -> Error {
        arbitrary()
    }
}

} // verus!
