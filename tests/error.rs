use bom_fold::csv_error::{error_for_csv_kind, CsvErrorKind};
use bom_fold::error::Error;
use bom_fold::error_details::{BadRequest, DebugInfo, ErrorInfo, FieldViolation, RetryInfo};

#[test]
fn test_macro() {
    let e = Error::internal("foo");
    assert_eq!(e.message(), "foo");
    let e = Error::internal(format!("Hello {}! {}", "bar", 123));
    assert_eq!(e.message(), "Hello bar! 123");
    assert!(matches!(e, Error::Internal(_)));
}

#[test]
fn client_codes() {
    let cases: Vec<(Error, &str)> = vec![
        (Error::cancelled("m"), "CANCELLED"),
        (Error::unknown("m"), "UNKNOWN"),
        (Error::invalid_argument("m"), "INVALID_ARGUMENT"),
        (Error::deadline_exceeded("m"), "DEADLINE_EXCEEDED"),
        (Error::not_found("m"), "NOT_FOUND"),
        (Error::already_exists("m"), "ALREADY_EXISTS"),
        (Error::permission_denied("m"), "PERMISSION_DENIED"),
        (Error::resource_exhausted("m"), "RESOURCE_EXHAUSTED"),
        (Error::failed_precondition("m"), "FAILED_PRECONDITION"),
        (Error::aborted("m"), "ABORTED"),
        (Error::out_of_range("m"), "OUT_OF_RANGE"),
        (Error::unimplemented("m"), "UNIMPLEMENTED"),
        (Error::internal("m"), "INTERNAL"),
        (Error::unavailable("m"), "UNAVAILABLE"),
        (Error::data_loss("m"), "DATA_LOSS"),
        (Error::unauthenticated("m"), "UNAUTHENTICATED"),
    ];
    for (e, code) in cases {
        assert_eq!(e.client_code(), code);
        assert_eq!(e.message(), "m");
    }
}

#[test]
fn constructors_with_details() {
    let bad = BadRequest {
        field_violations: vec![FieldViolation {
            field: Some("level".to_string()),
            description: Some("missing".to_string()),
        }],
    };
    match Error::invalid_argument_with("bad", Some(bad)) {
        Error::InvalidArgument(p) => {
            assert_eq!(p.message, "bad");
            assert_eq!(p.payload.unwrap().field_violations.len(), 1);
        }
        other => panic!("unexpected {other:?}"),
    }
    match Error::invalid_argument("plain") {
        Error::InvalidArgument(p) => assert!(p.payload.is_none()),
        other => panic!("unexpected {other:?}"),
    }
    match Error::aborted_with("a", Some(ErrorInfo::default()), Some(RetryInfo { retry_delay_seconds: 3, retry_delay_nanos: 0 })) {
        Error::Aborted(p) => {
            assert!(p.error_info.is_some());
            assert_eq!(p.retry_info.unwrap().retry_delay_seconds, 3);
        }
        other => panic!("unexpected {other:?}"),
    }
    let detail = DebugInfo { stack_entries: Vec::new(), detail: Some("given".to_string()) };
    match Error::unavailable_with("u", Some(detail), None) {
        Error::Unavailable(p) => assert_eq!(p.debug_info.unwrap().detail.as_deref(), Some("given")),
        other => panic!("unexpected {other:?}"),
    }
    match Error::unavailable_with("u", None, None) {
        Error::Unavailable(p) => assert!(p.debug_info.is_some()),
        other => panic!("unexpected {other:?}"),
    }
    match Error::internal_with("i", None) {
        Error::Internal(p) => assert!(p.payload.is_none()),
        other => panic!("unexpected {other:?}"),
    }
}

#[test]
fn debug_info_is_collected() {
    let info = DebugInfo::collect().unwrap();
    assert!(info.detail.is_some());
    let info = DebugInfo::collect_with("why".to_string()).unwrap();
    assert_eq!(info.detail.as_deref(), Some("why"));
}

#[test]
fn csv_failure_kinds() {
    assert_eq!(error_for_csv_kind(CsvErrorKind::UnequalLengths).client_code(), "INVALID_ARGUMENT");
    assert_eq!(error_for_csv_kind(CsvErrorKind::Deserialize).client_code(), "INVALID_ARGUMENT");
    assert_eq!(error_for_csv_kind(CsvErrorKind::Serialize).client_code(), "INVALID_ARGUMENT");
    assert_eq!(error_for_csv_kind(CsvErrorKind::Io).client_code(), "INTERNAL");
    assert_eq!(error_for_csv_kind(CsvErrorKind::Seek).client_code(), "INTERNAL");
    assert_eq!(error_for_csv_kind(CsvErrorKind::Utf8).client_code(), "INTERNAL");
    assert_eq!(error_for_csv_kind(CsvErrorKind::Other).client_code(), "UNKNOWN");
    assert_eq!(
        error_for_csv_kind(CsvErrorKind::UnequalLengths).message(),
        "CSV contains records with unequal number of fields"
    );
}

#[test]
fn csv_errors_convert() {
    let mut reader = csv::ReaderBuilder::new().from_reader("a,b\n1,2\n3\n".as_bytes());
    let failure = reader.records().find_map(|r| r.err()).unwrap();
    let e = Error::from(failure);
    assert!(matches!(e, Error::InvalidArgument(_)));
    assert_eq!(e.message(), "CSV contains records with unequal number of fields");
}

#[test]
fn common_failures_convert() {
    let e = Error::from(u8::try_from(300i32).unwrap_err());
    assert!(matches!(e, Error::OutOfRange(_)));
    assert!(e.message().starts_with("Value exceeds 2^32: "));
    assert!(e.message().len() > "Value exceeds 2^32: ".len());
    let e = Error::from("x".parse::<i32>().unwrap_err());
    assert!(matches!(e, Error::OutOfRange(_)));
    assert!(e.message().starts_with("Could not parse into integer: "));
    let e = Error::from(time::Duration::seconds(-1).to_std().unwrap_err());
    assert!(matches!(e, Error::OutOfRange(_)));
    let later = std::time::SystemTime::now() + std::time::Duration::from_secs(60);
    let e = Error::from(std::time::UNIX_EPOCH.duration_since(later).unwrap_err());
    assert!(matches!(e, Error::InvalidArgument(_)));
}

#[test]
fn internal_error_renders_message_and_detail() {
    let e = Error::internal_with("boom", Some(DebugInfo { stack_entries: Vec::new(), detail: Some("here".to_string()) }));
    assert_eq!(e.render(), "Internal: msg=\"boom\" detail=\"here\"");
    let e = Error::internal_with("boom", None);
    assert_eq!(e.render(), "Internal: msg=\"boom\" detail=\"None\"");
    let e = Error::cancelled("stop");
    assert_eq!(e.render(), format!("{e:?}"));
}

#[test]
fn csv_failure_messages() {
    assert_eq!(error_for_csv_kind(CsvErrorKind::Seek).message(), "Reader asked to seek before first record is parsed");
    assert_eq!(error_for_csv_kind(CsvErrorKind::Other).message(), "Unknown error occurred with csv library");
    assert_eq!(error_for_csv_kind(CsvErrorKind::Serialize).message(), "Could not serialize CSV");
}
