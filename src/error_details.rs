//! Structured details that an error can carry, after the canonical rich error model.

use vstd::prelude::*;

verus! {

/// Debugging information: the frames of a stack trace and a free-form detail.
#[derive(Debug, Default)]
pub struct DebugInfo {
    pub stack_entries: Vec<String>,
    pub detail: Option<String>,
}

/// One field of a request that was found invalid.
#[derive(Debug, Default)]
pub struct FieldViolation {
    pub field: Option<String>,
    pub description: Option<String>,
}

/// The fields of a request that were found invalid.
#[derive(Debug, Default)]
pub struct BadRequest {
    pub field_violations: Vec<FieldViolation>,
}

/// The reason for an error, with its domain and metadata as key/value pairs.
#[derive(Debug, Default)]
pub struct ErrorInfo {
    pub reason: Option<String>,
    pub domain: Option<String>,
    pub metadata: Vec<(String, String)>,
}

/// How long a client should wait before it retries.
#[derive(Debug, Default)]
pub struct RetryInfo {
    pub retry_delay_seconds: i64,
    pub retry_delay_nanos: i32,
}

/// The resource that is being accessed.
#[derive(Debug, Default)]
pub struct ResourceInfo {
    pub resource_type: Option<String>,
    pub resource_name: Option<String>,
    pub owner: Option<String>,
    pub description: Option<String>,
}

/// One quota check that failed.
#[derive(Debug, Default)]
pub struct QuotaViolation {
    pub subject: Option<String>,
    pub description: Option<String>,
}

/// The quota checks that failed.
#[derive(Debug, Default)]
pub struct QuotaFailure {
    pub violations: Vec<QuotaViolation>,
}

/// One precondition that was not met.
#[derive(Debug, Default)]
pub struct PreconditionViolation {
    pub kind: Option<String>,
    pub subject: Option<String>,
    pub description: Option<String>,
}

/// The preconditions that were not met.
#[derive(Debug, Default)]
pub struct PreconditionFailure {
    pub violations: Vec<PreconditionViolation>,
}

/// Relies on backtrace::Backtrace::new to capture the current call stack; hands back the
/// `Debug` rendering of each frame and of the whole trace. What it holds depends on the
/// machine and the build, so nothing is promised of it.
#[verifier::external_body]
fn capture_stack() -> (Vec<String>, String) {
    let backtrace = backtrace::Backtrace::new();
    let mut entries = Vec::new();
    for frame in backtrace.frames() {
        entries.push(format!("{frame:?}"));
    }
    (entries, format!("{backtrace:?}"))
}

impl DebugInfo {
    /// Captures a backtrace and populates the debug info with it.
    pub fn collect() -> (r: Option<Self>)
        ensures
            r matches Some(d) && d.detail is Some,
    {
        let (stack_entries, detail) = capture_stack();
        Some(DebugInfo { stack_entries, detail: Some(detail) })
    }

    /// Captures a backtrace and populates the debug info with it and the given detail.
    pub fn collect_with(detail: String) -> (r: Option<Self>)
        ensures
            r matches Some(d) && d.detail == Some(detail),
    {
        let (stack_entries, _) = capture_stack();
        Some(DebugInfo { stack_entries, detail: Some(detail) })
    }
}

} // verus!
