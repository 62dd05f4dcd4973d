//! The error space shared by the library's operations, after the canonical status codes.

use crate::error_details::{
    BadRequest, DebugInfo, ErrorInfo, PreconditionFailure, QuotaFailure, ResourceInfo, RetryInfo,
};
use vstd::prelude::*;
use vstd::string::StringExecFns;

verus! {

/// A message with an optional structured detail.
#[derive(Debug)]
pub struct ErrorPayload<T> {
    pub message: String,
    pub payload: Option<Box<T>>,
}

/// The message of an aborted operation, with why it failed and when to retry.
#[derive(Debug, Default)]
pub struct AbortedPayload {
    pub message: String,
    pub error_info: Option<ErrorInfo>,
    pub retry_info: Option<RetryInfo>,
}

/// The message of an unavailable service, with debugging information and when to retry.
#[derive(Debug)]
pub struct UnavailablePayload {
    pub message: String,
    pub debug_info: Option<DebugInfo>,
    pub retry_info: Option<RetryInfo>,
}

/// The library's error: one variant per canonical status code, each with a message and the
/// structured detail that suits it.
#[derive(Debug)]
pub enum Error {
    /// The operation was cancelled, typically by the caller.
    Cancelled(String),
    /// An error from an unknown error space, or one raised without enough information.
    Unknown(ErrorPayload<DebugInfo>),
    /// The client specified an invalid argument, whatever the state of the system.
    InvalidArgument(ErrorPayload<BadRequest>),
    /// The deadline expired before the operation could complete.
    DeadlineExceeded(ErrorPayload<DebugInfo>),
    /// Some requested entity was not found.
    NotFound(ErrorPayload<ResourceInfo>),
    /// The entity that a client attempted to create already exists.
    AlreadyExists(ErrorPayload<ResourceInfo>),
    /// The caller does not have permission to execute the operation.
    PermissionDenied(ErrorPayload<ErrorInfo>),
    /// Some resource has been exhausted, such as a quota or the disk.
    ResourceExhausted(ErrorPayload<QuotaFailure>),
    /// The system is not in the state that the operation requires.
    FailedPrecondition(ErrorPayload<PreconditionFailure>),
    /// The operation was aborted, typically by a concurrency conflict.
    Aborted(Box<AbortedPayload>),
    /// The operation was attempted past the valid range.
    OutOfRange(ErrorPayload<BadRequest>),
    /// The operation is not implemented or not enabled.
    Unimplemented(String),
    /// An internal invariant was broken.
    Internal(ErrorPayload<DebugInfo>),
    /// The service is currently unavailable; retrying may help.
    Unavailable(Box<UnavailablePayload>),
    /// Unrecoverable data loss or corruption.
    DataLoss(ErrorPayload<DebugInfo>),
    /// The request lacks valid credentials for the operation.
    Unauthenticated(ErrorPayload<ErrorInfo>),
}

/// Puts the detail, if any, in a box.
pub open spec fn boxed<T>(detail: Option<T>) -> Option<Box<T>> {
    match detail {
        Some(d) => Some(Box::new(d)),
        None => None,
    }
}

/// The message that an error carries.
pub open spec fn message_of(e: Error) -> Seq<char> {
    match e {
        Error::Cancelled(m) => m@,
        Error::Unknown(p) => p.message@,
        Error::InvalidArgument(p) => p.message@,
        Error::DeadlineExceeded(p) => p.message@,
        Error::NotFound(p) => p.message@,
        Error::AlreadyExists(p) => p.message@,
        Error::PermissionDenied(p) => p.message@,
        Error::ResourceExhausted(p) => p.message@,
        Error::FailedPrecondition(p) => p.message@,
        Error::Aborted(p) => p.message@,
        Error::OutOfRange(p) => p.message@,
        Error::Unimplemented(m) => m@,
        Error::Internal(p) => p.message@,
        Error::Unavailable(p) => p.message@,
        Error::DataLoss(p) => p.message@,
        Error::Unauthenticated(p) => p.message@,
    }
}

/// The status code that an error is reported under.
pub open spec fn code_of(e: Error) -> Seq<char> {
    match e {
        Error::Cancelled(_) => "CANCELLED"@,
        Error::Unknown(_) => "UNKNOWN"@,
        Error::InvalidArgument(_) => "INVALID_ARGUMENT"@,
        Error::DeadlineExceeded(_) => "DEADLINE_EXCEEDED"@,
        Error::NotFound(_) => "NOT_FOUND"@,
        Error::AlreadyExists(_) => "ALREADY_EXISTS"@,
        Error::PermissionDenied(_) => "PERMISSION_DENIED"@,
        Error::ResourceExhausted(_) => "RESOURCE_EXHAUSTED"@,
        Error::FailedPrecondition(_) => "FAILED_PRECONDITION"@,
        Error::Aborted(_) => "ABORTED"@,
        Error::OutOfRange(_) => "OUT_OF_RANGE"@,
        Error::Unimplemented(_) => "UNIMPLEMENTED"@,
        Error::Internal(_) => "INTERNAL"@,
        Error::Unavailable(_) => "UNAVAILABLE"@,
        Error::DataLoss(_) => "DATA_LOSS"@,
        Error::Unauthenticated(_) => "UNAUTHENTICATED"@,
    }
}

/// Whether the error carries the message that converting `message` into a `String` gives.
pub open spec fn carries_message<S: Into<String>>(e: Error, message: S) -> bool {
    exists|m: String| #[trigger] call_ensures(S::into, (message,), m) && message_of(e) == m@
}

impl Error {
    /// Code that is provided to client applications.
    pub fn client_code(&self) -> (r: &'static str)
        ensures
            r@ == code_of(*self),
    {
        proof {
            reveal_strlit("CANCELLED");
            reveal_strlit("UNKNOWN");
            reveal_strlit("INVALID_ARGUMENT");
            reveal_strlit("DEADLINE_EXCEEDED");
            reveal_strlit("NOT_FOUND");
            reveal_strlit("ALREADY_EXISTS");
            reveal_strlit("PERMISSION_DENIED");
            reveal_strlit("RESOURCE_EXHAUSTED");
            reveal_strlit("FAILED_PRECONDITION");
            reveal_strlit("ABORTED");
            reveal_strlit("OUT_OF_RANGE");
            reveal_strlit("UNIMPLEMENTED");
            reveal_strlit("INTERNAL");
            reveal_strlit("UNAVAILABLE");
            reveal_strlit("DATA_LOSS");
            reveal_strlit("UNAUTHENTICATED");
        }
        match self {
            Error::Cancelled(_) => "CANCELLED",
            Error::Unknown(_) => "UNKNOWN",
            Error::InvalidArgument(_) => "INVALID_ARGUMENT",
            Error::DeadlineExceeded(_) => "DEADLINE_EXCEEDED",
            Error::NotFound(_) => "NOT_FOUND",
            Error::AlreadyExists(_) => "ALREADY_EXISTS",
            Error::PermissionDenied(_) => "PERMISSION_DENIED",
            Error::ResourceExhausted(_) => "RESOURCE_EXHAUSTED",
            Error::FailedPrecondition(_) => "FAILED_PRECONDITION",
            Error::Aborted(_) => "ABORTED",
            Error::OutOfRange(_) => "OUT_OF_RANGE",
            Error::Unimplemented(_) => "UNIMPLEMENTED",
            Error::Internal(_) => "INTERNAL",
            Error::Unavailable(_) => "UNAVAILABLE",
            Error::DataLoss(_) => "DATA_LOSS",
            Error::Unauthenticated(_) => "UNAUTHENTICATED",
        }
    }

    /// The message that the error carries.
    pub fn message(&self) -> (r: &str)
        ensures
            r@ == message_of(*self),
    {
        match self {
            Error::Cancelled(m) => m.as_str(),
            Error::Unknown(p) => p.message.as_str(),
            Error::InvalidArgument(p) => p.message.as_str(),
            Error::DeadlineExceeded(p) => p.message.as_str(),
            Error::NotFound(p) => p.message.as_str(),
            Error::AlreadyExists(p) => p.message.as_str(),
            Error::PermissionDenied(p) => p.message.as_str(),
            Error::ResourceExhausted(p) => p.message.as_str(),
            Error::FailedPrecondition(p) => p.message.as_str(),
            Error::Aborted(p) => p.message.as_str(),
            Error::OutOfRange(p) => p.message.as_str(),
            Error::Unimplemented(m) => m.as_str(),
            Error::Internal(p) => p.message.as_str(),
            Error::Unavailable(p) => p.message.as_str(),
            Error::DataLoss(p) => p.message.as_str(),
            Error::Unauthenticated(p) => p.message.as_str(),
        }
    }

    /// A cancelled error with the message.
    pub fn cancelled<S: Into<String>>(message: S) -> (r: Self)
        ensures
            r is Cancelled,
            carries_message(r, message),
    {
        let message = message.into();
        Error::Cancelled(message)
    }

    /// An unknown error with the message and debugging information captured here.
    pub fn unknown<S: Into<String>>(message: S) -> (r: Self)
        ensures
            r matches Error::Unknown(p) && p.payload matches Some(d) && d.detail is Some,
            carries_message(r, message),
    {
        let message = message.into();
        let payload = match DebugInfo::collect() {
            Some(d) => Some(Box::new(d)),
            None => None,
        };
        Error::Unknown(ErrorPayload { message, payload })
    }

    /// An unknown error with the message and the given details.
    pub fn unknown_with<S: Into<String>>(message: S, debug_info: Option<DebugInfo>) -> (r: Self)
        ensures
            r matches Error::Unknown(p) && p.payload == boxed(debug_info),
            carries_message(r, message),
    {
        let message = message.into();
        let payload = match debug_info {
            Some(d) => Some(Box::new(d)),
            None => None,
        };
        Error::Unknown(ErrorPayload { message, payload })
    }

    /// An invalid argument error with the message.
    pub fn invalid_argument<S: Into<String>>(message: S) -> (r: Self)
        ensures
            r matches Error::InvalidArgument(p) && p.payload is None,
            carries_message(r, message),
    {
        let message = message.into();
        Error::InvalidArgument(ErrorPayload { message, payload: None })
    }

    /// An invalid argument error with the message and the given details.
    pub fn invalid_argument_with<S: Into<String>>(message: S, bad_request: Option<BadRequest>) -> (r: Self)
        ensures
            r matches Error::InvalidArgument(p) && p.payload == boxed(bad_request),
            carries_message(r, message),
    {
        let message = message.into();
        let payload = match bad_request {
            Some(d) => Some(Box::new(d)),
            None => None,
        };
        Error::InvalidArgument(ErrorPayload { message, payload })
    }

    /// A deadline exceeded error with the message and debugging information captured here.
    pub fn deadline_exceeded<S: Into<String>>(message: S) -> (r: Self)
        ensures
            r matches Error::DeadlineExceeded(p) && p.payload matches Some(d) && d.detail is Some,
            carries_message(r, message),
    {
        let message = message.into();
        let payload = match DebugInfo::collect() {
            Some(d) => Some(Box::new(d)),
            None => None,
        };
        Error::DeadlineExceeded(ErrorPayload { message, payload })
    }

    /// A deadline exceeded error with the message and the given details.
    pub fn deadline_exceeded_with<S: Into<String>>(message: S, debug_info: Option<DebugInfo>) -> (r: Self)
        ensures
            r matches Error::DeadlineExceeded(p) && p.payload == boxed(debug_info),
            carries_message(r, message),
    {
        let message = message.into();
        let payload = match debug_info {
            Some(d) => Some(Box::new(d)),
            None => None,
        };
        Error::DeadlineExceeded(ErrorPayload { message, payload })
    }

    /// A not found error with the message.
    pub fn not_found<S: Into<String>>(message: S) -> (r: Self)
        ensures
            r matches Error::NotFound(p) && p.payload is None,
            carries_message(r, message),
    {
        let message = message.into();
        Error::NotFound(ErrorPayload { message, payload: None })
    }

    /// A not found error with the message and the given details.
    pub fn not_found_with<S: Into<String>>(message: S, resource_info: Option<ResourceInfo>) -> (r: Self)
        ensures
            r matches Error::NotFound(p) && p.payload == boxed(resource_info),
            carries_message(r, message),
    {
        let message = message.into();
        let payload = match resource_info {
            Some(d) => Some(Box::new(d)),
            None => None,
        };
        Error::NotFound(ErrorPayload { message, payload })
    }

    /// An already exists error with the message.
    pub fn already_exists<S: Into<String>>(message: S) -> (r: Self)
        ensures
            r matches Error::AlreadyExists(p) && p.payload is None,
            carries_message(r, message),
    {
        let message = message.into();
        Error::AlreadyExists(ErrorPayload { message, payload: None })
    }

    /// An already exists error with the message and the given details.
    pub fn already_exists_with<S: Into<String>>(message: S, resource_info: Option<ResourceInfo>) -> (r: Self)
        ensures
            r matches Error::AlreadyExists(p) && p.payload == boxed(resource_info),
            carries_message(r, message),
    {
        let message = message.into();
        let payload = match resource_info {
            Some(d) => Some(Box::new(d)),
            None => None,
        };
        Error::AlreadyExists(ErrorPayload { message, payload })
    }

    /// A permission denied error with the message.
    pub fn permission_denied<S: Into<String>>(message: S) -> (r: Self)
        ensures
            r matches Error::PermissionDenied(p) && p.payload is None,
            carries_message(r, message),
    {
        let message = message.into();
        Error::PermissionDenied(ErrorPayload { message, payload: None })
    }

    /// A permission denied error with the message and the given details.
    pub fn permission_denied_with<S: Into<String>>(message: S, error_info: Option<ErrorInfo>) -> (r: Self)
        ensures
            r matches Error::PermissionDenied(p) && p.payload == boxed(error_info),
            carries_message(r, message),
    {
        let message = message.into();
        let payload = match error_info {
            Some(d) => Some(Box::new(d)),
            None => None,
        };
        Error::PermissionDenied(ErrorPayload { message, payload })
    }

    /// A resource exhausted error with the message.
    pub fn resource_exhausted<S: Into<String>>(message: S) -> (r: Self)
        ensures
            r matches Error::ResourceExhausted(p) && p.payload is None,
            carries_message(r, message),
    {
        let message = message.into();
        Error::ResourceExhausted(ErrorPayload { message, payload: None })
    }

    /// A resource exhausted error with the message and the given details.
    pub fn resource_exhausted_with<S: Into<String>>(message: S, quota_failure: Option<QuotaFailure>) -> (r: Self)
        ensures
            r matches Error::ResourceExhausted(p) && p.payload == boxed(quota_failure),
            carries_message(r, message),
    {
        let message = message.into();
        let payload = match quota_failure {
            Some(d) => Some(Box::new(d)),
            None => None,
        };
        Error::ResourceExhausted(ErrorPayload { message, payload })
    }

    /// A failed precondition error with the message.
    pub fn failed_precondition<S: Into<String>>(message: S) -> (r: Self)
        ensures
            r matches Error::FailedPrecondition(p) && p.payload is None,
            carries_message(r, message),
    {
        let message = message.into();
        Error::FailedPrecondition(ErrorPayload { message, payload: None })
    }

    /// A failed precondition error with the message and the given details.
    pub fn failed_precondition_with<S: Into<String>>(message: S, precondition_failure: Option<PreconditionFailure>) -> (r: Self)
        ensures
            r matches Error::FailedPrecondition(p) && p.payload == boxed(precondition_failure),
            carries_message(r, message),
    {
        let message = message.into();
        let payload = match precondition_failure {
            Some(d) => Some(Box::new(d)),
            None => None,
        };
        Error::FailedPrecondition(ErrorPayload { message, payload })
    }

    /// An aborted error with the message.
    pub fn aborted<S: Into<String>>(message: S) -> (r: Self)
        ensures
            r matches Error::Aborted(p) && p.error_info is None && p.retry_info is None,
            carries_message(r, message),
    {
        let message = message.into();
        Error::Aborted(
            Box::new(AbortedPayload { message, error_info: None, retry_info: None }),
        )
    }

    /// An aborted error with the message and the given details.
    pub fn aborted_with<S: Into<String>>(message: S, error_info: Option<ErrorInfo>, retry_info: Option<RetryInfo>) -> (r: Self)
        ensures
            r matches Error::Aborted(p) && p.error_info == error_info && p.retry_info == retry_info,
            carries_message(r, message),
    {
        let message = message.into();
        Error::Aborted(Box::new(AbortedPayload { message, error_info, retry_info }))
    }

    /// An out of range error with the message.
    pub fn out_of_range<S: Into<String>>(message: S) -> (r: Self)
        ensures
            r matches Error::OutOfRange(p) && p.payload is None,
            carries_message(r, message),
    {
        let message = message.into();
        Error::OutOfRange(ErrorPayload { message, payload: None })
    }

    /// An out of range error with the message and the given details.
    pub fn out_of_range_with<S: Into<String>>(message: S, bad_request: Option<BadRequest>) -> (r: Self)
        ensures
            r matches Error::OutOfRange(p) && p.payload == boxed(bad_request),
            carries_message(r, message),
    {
        let message = message.into();
        let payload = match bad_request {
            Some(d) => Some(Box::new(d)),
            None => None,
        };
        Error::OutOfRange(ErrorPayload { message, payload })
    }

    /// An unimplemented error with the message.
    pub fn unimplemented<S: Into<String>>(message: S) -> (r: Self)
        ensures
            r is Unimplemented,
            carries_message(r, message),
    {
        let message = message.into();
        Error::Unimplemented(message)
    }

    /// An internal error with the message and debugging information captured here.
    pub fn internal<S: Into<String>>(message: S) -> (r: Self)
        ensures
            r matches Error::Internal(p) && p.payload matches Some(d) && d.detail is Some,
            carries_message(r, message),
    {
        let message = message.into();
        let payload = match DebugInfo::collect() {
            Some(d) => Some(Box::new(d)),
            None => None,
        };
        Error::Internal(ErrorPayload { message, payload })
    }

    /// An internal error with the message and the given details.
    pub fn internal_with<S: Into<String>>(message: S, debug_info: Option<DebugInfo>) -> (r: Self)
        ensures
            r matches Error::Internal(p) && p.payload == boxed(debug_info),
            carries_message(r, message),
    {
        let message = message.into();
        let payload = match debug_info {
            Some(d) => Some(Box::new(d)),
            None => None,
        };
        Error::Internal(ErrorPayload { message, payload })
    }

    /// An unavailable error with the message and debugging information captured here.
    pub fn unavailable<S: Into<String>>(message: S) -> (r: Self)
        ensures
            r matches Error::Unavailable(p) && p.debug_info matches Some(d) && d.detail is Some
                && p.retry_info is None,
            carries_message(r, message),
    {
        let message = message.into();
        Error::Unavailable(
            Box::new(
                UnavailablePayload {
                    message: message,
                    debug_info: DebugInfo::collect(),
                    retry_info: None,
                },
            ),
        )
    }

    /// An unavailable error with the message and the given details.
    pub fn unavailable_with<S: Into<String>>(message: S, debug_info: Option<DebugInfo>, retry_info: Option<RetryInfo>) -> (r: Self)
        ensures
            r matches Error::Unavailable(p) && p.debug_info is Some && p.retry_info == retry_info,
            debug_info is Some ==> (r matches Error::Unavailable(p) && p.debug_info == debug_info),
            debug_info is None ==> (r matches Error::Unavailable(p) && p.debug_info matches Some(d)
                && d.detail is Some),
            carries_message(r, message),
    {
        let message = message.into();
        let debug_info = match debug_info {
            Some(d) => Some(d),
            None => DebugInfo::collect(),
        };
        Error::Unavailable(Box::new(UnavailablePayload { message, debug_info, retry_info }))
    }

    /// A data loss error with the message and debugging information captured here.
    pub fn data_loss<S: Into<String>>(message: S) -> (r: Self)
        ensures
            r matches Error::DataLoss(p) && p.payload matches Some(d) && d.detail is Some,
            carries_message(r, message),
    {
        let message = message.into();
        let payload = match DebugInfo::collect() {
            Some(d) => Some(Box::new(d)),
            None => None,
        };
        Error::DataLoss(ErrorPayload { message, payload })
    }

    /// A data loss error with the message and the given details.
    pub fn data_loss_with<S: Into<String>>(message: S, debug_info: Option<DebugInfo>) -> (r: Self)
        ensures
            r matches Error::DataLoss(p) && p.payload == boxed(debug_info),
            carries_message(r, message),
    {
        let message = message.into();
        let payload = match debug_info {
            Some(d) => Some(Box::new(d)),
            None => None,
        };
        Error::DataLoss(ErrorPayload { message, payload })
    }

    /// An unauthenticated error with the message.
    pub fn unauthenticated<S: Into<String>>(message: S) -> (r: Self)
        ensures
            r matches Error::Unauthenticated(p) && p.payload is None,
            carries_message(r, message),
    {
        let message = message.into();
        Error::Unauthenticated(ErrorPayload { message, payload: None })
    }

    /// An unauthenticated error with the message and the given details.
    pub fn unauthenticated_with<S: Into<String>>(message: S, error_info: Option<ErrorInfo>) -> (r: Self)
        ensures
            r matches Error::Unauthenticated(p) && p.payload == boxed(error_info),
            carries_message(r, message),
    {
        let message = message.into();
        let payload = match error_info {
            Some(d) => Some(Box::new(d)),
            None => None,
        };
        Error::Unauthenticated(ErrorPayload { message, payload })
    }

}

/// The detail of an internal error's debugging information, or "None".
pub open spec fn detail_text(p: ErrorPayload<DebugInfo>) -> Seq<char> {
    match p.payload {
        Some(info) => match info.detail {
            Some(d) => d@,
            None => "None"@,
        },
        None => "None"@,
    }
}

/// How an internal error is rendered: `Internal: msg="<message>" detail="<detail>"`.
pub open spec fn internal_text(p: ErrorPayload<DebugInfo>) -> Seq<char> {
    "Internal: msg=\""@ + p.message@ + "\" detail=\""@ + detail_text(p) + "\""@
}

/// Relies on the `Debug` rendering that std's derive gives `Error`.
#[verifier::external_body]
fn debug_text(e: &Error) -> String {
    format!("{e:?}")
}

impl Error {
    /// The error rendered for people: an internal error as its message and detail, any other
    /// in its `Debug` form.
    pub fn render(&self) -> (r: String)
        ensures
            *self matches Error::Internal(p) ==> r@ == internal_text(p),
    {
        match self {
            Error::Internal(p) => {
                let detail: &str = match &p.payload {
                    Some(info) => match &info.detail {
                        Some(d) => d.as_str(),
                        None => "None",
                    },
                    None => "None",
                };
                let r = String::from_str("Internal: msg=\"").concat(p.message.as_str()).concat(
                    "\" detail=\"",
                ).concat(detail).concat("\"");
                proof {
                    assert(r@ =~= internal_text(*p));
                }
                r
            },
            _ => debug_text(self),
        }
    }
}

} // verus!
