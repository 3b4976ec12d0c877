//! Error classes, messages and exit codes.

use searchlight::error::{io_message, IoError, IoErrorKind, SearchError};

#[test]
fn display_includes_class_prefix() {
    let err = SearchError::arg("missing PATTERN");
    assert_eq!(err.to_string(), "argument error: missing PATTERN");

    let err = SearchError::pattern("unclosed class");
    assert_eq!(err.to_string(), "pattern error: unclosed class");

    let err = SearchError::runtime("boom");
    assert_eq!(err.to_string(), "runtime error: boom");
}

#[test]
fn exit_code_is_two_for_every_error_class() {
    assert_eq!(SearchError::arg("x").exit_code(), 2);
    assert_eq!(SearchError::pattern("x").exit_code(), 2);
    assert_eq!(SearchError::runtime("x").exit_code(), 2);
    let io_err = SearchError::Io(IoError::new(IoErrorKind::Other, "disk"));
    assert_eq!(io_err.exit_code(), 2);
}

#[test]
fn broken_pipe_is_detected() {
    let pipe = SearchError::Io(IoError::of_kind(IoErrorKind::BrokenPipe));
    assert!(pipe.is_broken_pipe());

    let other = SearchError::Io(IoError::of_kind(IoErrorKind::PermissionDenied));
    assert!(!other.is_broken_pipe());

    assert!(!SearchError::arg("x").is_broken_pipe());
}

#[test]
fn io_error_converts_via_from() {
    fn failing() -> Result<(), IoError> {
        Err(IoError::of_kind(IoErrorKind::NotFound))
    }
    let converted: SearchError = failing().unwrap_err().into();
    assert!(matches!(converted, SearchError::Io(_)));
}

#[test]
fn kind_label_reflects_the_class() {
    assert_eq!(SearchError::arg("x").kind_label(), "argument");
    assert_eq!(SearchError::pattern("x").kind_label(), "pattern");
    assert_eq!(SearchError::runtime("x").kind_label(), "runtime");
    let io_err = SearchError::Io(IoError::of_kind(IoErrorKind::Other));
    assert_eq!(io_err.kind_label(), "i/o");
}

#[test]
fn not_found_detection() {
    let missing = SearchError::Io(IoError::of_kind(IoErrorKind::NotFound));
    assert!(missing.is_not_found());
    let denied = SearchError::Io(IoError::of_kind(IoErrorKind::PermissionDenied));
    assert!(!denied.is_not_found());
    assert!(!SearchError::arg("x").is_not_found());
}

#[test]
fn io_message_maps_common_kinds() {
    let not_found = IoError::of_kind(IoErrorKind::NotFound);
    assert_eq!(io_message(&not_found), "no such file or directory");

    let denied = IoError::of_kind(IoErrorKind::PermissionDenied);
    assert_eq!(io_message(&denied), "permission denied");

    let pipe = IoError::of_kind(IoErrorKind::BrokenPipe);
    assert_eq!(io_message(&pipe), "broken pipe");

    // Anything unusual keeps the underlying Display text so no detail is
    // lost in logs.
    let custom = IoError::new(IoErrorKind::Other, "disk on fire");
    assert_eq!(io_message(&custom), "disk on fire");
}

#[test]
fn error_kinds_are_preserved_through_from() {
    let converted: SearchError = IoErrorKind::PermissionDenied.into();
    match &converted {
        SearchError::Io(err) => assert_eq!(err.kind, IoErrorKind::PermissionDenied),
        _ => panic!("expected Io variant"),
    }
}

#[test]
fn source_chain_surfaces_the_io_error() {
    let err = SearchError::Io(IoError::of_kind(IoErrorKind::NotFound));
    let source = err.source();
    assert!(source.is_some(), "Io errors must expose their cause");
    let plain = SearchError::arg("x");
    assert!(plain.source().is_none());
}
