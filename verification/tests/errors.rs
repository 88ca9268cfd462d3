use emojifinder::error::{Error, ErrorKind};

#[test]
fn parse_error_keeps_its_text() {
    let error = Error::parse("Invalid char: \"zz\"");
    assert_eq!(*error.kind(), ErrorKind::Parse("Invalid char: \"zz\"".to_string()));
    assert_eq!(error.message(), "Parse error: Invalid char: \"zz\"");
}

#[test]
fn clipboard_error_keeps_its_text() {
    let error = Error::clipboard("failed writing to clipboard");
    assert_eq!(*error.kind(), ErrorKind::Clipboard("failed writing to clipboard".to_string()));
    assert_eq!(error.message(), "Clipboard error: failed writing to clipboard");
}

#[test]
fn error_of_a_kind() {
    let error = Error::from_kind(ErrorKind::Parse(String::new()));
    assert_eq!(error.message(), "Parse error: ");
    assert_eq!(ErrorKind::Clipboard("x".to_string()).message(), "Clipboard error: x");
    assert_ne!(ErrorKind::Clipboard("x".to_string()), ErrorKind::Parse("x".to_string()));
}
