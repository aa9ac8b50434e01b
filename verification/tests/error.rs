use tack::error::Error;

#[test]
fn io_error_display_is_lowercase() {
    let err = Error::Io(std::io::Error::new(std::io::ErrorKind::NotFound, "file missing"));
    let msg = err.message();
    assert!(msg.starts_with("io error:"), "unexpected prefix: {msg}");
}

#[test]
fn corruption_carries_message() {
    let err = Error::Corruption("bad magic bytes".to_string());
    assert_eq!(err.message(), "corrupt object: bad magic bytes");
}

#[test]
fn truncated_display() {
    assert_eq!(Error::Truncated.message(), "decode error: input truncated");
}

#[test]
fn overlong_varint_display() {
    assert_eq!(
        Error::OverlongVarint.message(),
        "decode error: varint is overlong"
    );
}

#[test]
fn trailing_bytes_display() {
    assert_eq!(
        Error::TrailingBytes.message(),
        "decode error: trailing bytes after object"
    );
}

#[test]
fn format_version_mismatch_display() {
    let err = Error::FormatVersionMismatch { repo: 2, binary: 1 };
    let msg = err.message();
    assert!(
        msg.contains("version mismatch"),
        "unexpected message: {msg}"
    );
    assert!(msg.contains('2') && msg.contains('1'));
}

#[test]
fn invalid_object_id_display() {
    // Build a placeholder ObjectId for display; use the zero id.
    let zero_id = tack::ObjectId::from_bytes([0u8; 32]);
    let err = Error::ObjectNotFound(zero_id);
    let msg = err.message();
    assert!(msg.starts_with("object not found:"), "unexpected: {msg}");
}

#[test]
fn invalid_object_id_error_display() {
    let err = Error::InvalidObjectId("not-hex".to_string());
    assert_eq!(err.message(), "invalid object id: not-hex");
}

#[test]
fn invalid_argument_display() {
    let err = Error::InvalidArgument("scoped cut requires at least one path".to_string());
    assert_eq!(err.message(), "invalid argument: scoped cut requires at least one path");
}

#[test]
fn watch_error_display_is_lowercase_unpunctuated() {
    let err = Error::Watch("failed to start watcher".to_string());
    assert_eq!(err.message(), "watch error: failed to start watcher");
}

#[test]
fn from_io_error_converts() {
    let io = std::io::Error::new(std::io::ErrorKind::PermissionDenied, "denied");
    let err: Error = io.into();
    assert!(matches!(err, Error::Io(_)));
}
