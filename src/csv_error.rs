//! Conversion of CSV reader and writer failures into the library's error.

use crate::error::{message_of, Error, ErrorPayload};
use crate::error_details::DebugInfo;
use vstd::string::StringExecFns;
use csv::Error as CsvError;
use csv::IntoInnerError;
use vstd::prelude::*;

verus! {

#[verifier::external_type_specification]
#[verifier::external_body]
pub struct ExCsvError(CsvError);

/// The kinds of failure that reading or writing CSV reports.
#[derive(Debug, PartialEq, Eq, Clone, Copy)]
pub enum CsvErrorKind {
    Io,
    Utf8,
    UnequalLengths,
    Seek,
    Serialize,
    Deserialize,
    Other,
}

/// Relies on csv::Error::kind to tell which kind of failure a CSV error is.
#[verifier::external_body]
fn csv_error_kind(e: &CsvError) -> CsvErrorKind {
    match e.kind() {
        csv::ErrorKind::Io(_) => CsvErrorKind::Io,
        csv::ErrorKind::Utf8 { .. } => CsvErrorKind::Utf8,
        csv::ErrorKind::UnequalLengths { .. } => CsvErrorKind::UnequalLengths,
        csv::ErrorKind::Seek => CsvErrorKind::Seek,
        csv::ErrorKind::Serialize(_) => CsvErrorKind::Serialize,
        csv::ErrorKind::Deserialize { .. } => CsvErrorKind::Deserialize,
        _ => CsvErrorKind::Other,
    }
}

/// The message of a kind of CSV failure.
fn csv_kind_message(kind: CsvErrorKind) -> (r: &'static str)
    ensures
        kind == CsvErrorKind::UnequalLengths ==> r@ == "CSV contains records with unequal number of fields"@,
        kind == CsvErrorKind::Deserialize ==> r@ == "Could not deserialize CSV"@,
        kind == CsvErrorKind::Serialize ==> r@ == "Could not serialize CSV"@,
        kind == CsvErrorKind::Io ==> r@ == "I/O error occurred while reading CSV data."@,
        kind == CsvErrorKind::Seek ==> r@ == "Reader asked to seek before first record is parsed"@,
        kind == CsvErrorKind::Utf8 ==> r@ == "UTF-8 decoding error while trying to read CSV data"@,
        kind == CsvErrorKind::Other ==> r@ == "Unknown error occurred with csv library"@,
{
    match kind {
        CsvErrorKind::UnequalLengths => "CSV contains records with unequal number of fields",
        CsvErrorKind::Deserialize => "Could not deserialize CSV",
        CsvErrorKind::Serialize => "Could not serialize CSV",
        CsvErrorKind::Io => "I/O error occurred while reading CSV data.",
        CsvErrorKind::Seek => "Reader asked to seek before first record is parsed",
        CsvErrorKind::Utf8 => "UTF-8 decoding error while trying to read CSV data",
        CsvErrorKind::Other => "Unknown error occurred with csv library",
    }
}

/// The error that a kind of CSV failure is reported as: malformed input or output is an
/// invalid argument, a failure of the reader itself is internal, anything else unknown; each
/// with its own message, and internal and unknown ones with debugging information captured
/// here.
pub fn error_for_csv_kind(kind: CsvErrorKind) -> (r: Error)
    ensures
        kind == CsvErrorKind::UnequalLengths ==> r is InvalidArgument && message_of(r) == "CSV contains records with unequal number of fields"@,
        kind == CsvErrorKind::Deserialize ==> r is InvalidArgument && message_of(r) == "Could not deserialize CSV"@,
        kind == CsvErrorKind::Serialize ==> r is InvalidArgument && message_of(r) == "Could not serialize CSV"@,
        kind == CsvErrorKind::Io ==> r is Internal && message_of(r) == "I/O error occurred while reading CSV data."@,
        kind == CsvErrorKind::Seek ==> r is Internal && message_of(r) == "Reader asked to seek before first record is parsed"@,
        kind == CsvErrorKind::Utf8 ==> r is Internal && message_of(r) == "UTF-8 decoding error while trying to read CSV data"@,
        kind == CsvErrorKind::Other ==> r is Unknown && message_of(r) == "Unknown error occurred with csv library"@,
{
    let message = String::from_str(csv_kind_message(kind));
    match kind {
        CsvErrorKind::UnequalLengths | CsvErrorKind::Deserialize | CsvErrorKind::Serialize => {
            Error::InvalidArgument(ErrorPayload { message, payload: None })
        },
        CsvErrorKind::Io | CsvErrorKind::Seek | CsvErrorKind::Utf8 => {
            Error::Internal(ErrorPayload { message, payload: boxed_debug_info() })
        },
        CsvErrorKind::Other => Error::Unknown(ErrorPayload { message, payload: boxed_debug_info() }),
    }
}

fn boxed_debug_info() -> (r: Option<Box<DebugInfo>>)
    ensures
        r matches Some(d) && d.detail is Some,
{
    match DebugInfo::collect() {
        Some(d) => Some(Box::new(d)),
        None => None,
    }
}

impl From<CsvError> for Error {
    fn from(csv_error: CsvError) -> (r: Error)
        ensures
            r is InvalidArgument || r is Internal || r is Unknown,
    {
        error_for_csv_kind(csv_error_kind(&csv_error))
    }
}

impl vstd::std_specs::convert::FromSpecImpl<CsvError> for Error {
    open spec fn obeys_from_spec() -> bool {
        false
    }

    open spec fn from_spec(e: CsvError) -> Error {
        arbitrary()
    }
}

#[verifier::external_type_specification]
#[verifier::external_body]
#[verifier::reject_recursive_types(W)]
pub struct ExIntoInnerError<W>(IntoInnerError<W>);

/// Relies on the `Display` rendering of csv::IntoInnerError, for the error message.
#[verifier::external_body]
fn describe_into_inner_error<W>(e: &IntoInnerError<W>) -> String {
    e.to_string()
}

impl<W> From<IntoInnerError<W>> for Error {
    fn from(csv_error: IntoInnerError<W>) -> (r: Error)
        ensures
            r matches Error::Internal(p) && p.payload matches Some(d) && d.detail is Some,
    {
        let message = describe_into_inner_error(&csv_error);
        Error::Internal(ErrorPayload { message, payload: boxed_debug_info() })
    }
}

impl<W> vstd::std_specs::convert::FromSpecImpl<IntoInnerError<W>> for Error {
    open spec fn obeys_from_spec() -> bool {
        false
    }

    open spec fn from_spec(e: IntoInnerError<W>) -> Error {
        arbitrary()
    }
}

} // verus!
