use doctora::error_recovery::{ErrorRecovery, ParseError};

#[test]
fn test_error_recovery_creation() {
    let recovery = ErrorRecovery::new();
    assert!(!recovery.has_errors());
    assert_eq!(recovery.errors().len(), 0);
}

#[test]
fn test_record_error() {
    let mut recovery = ErrorRecovery::new();
    recovery.record_error(ParseError::UnexpectedEOF {
        context: "test".to_string(),
    });
    assert!(recovery.has_errors());
    assert_eq!(recovery.errors().len(), 1);
}

#[test]
fn test_parse_error_display() {
    let error = ParseError::UnclosedDelimiter {
        delimiter: "**".to_string(),
        start: 42,
    };
    let message = error.to_string();
    assert!(message.contains("Unclosed"));
    assert!(message.contains("**"));
    assert!(message.contains("42"));
}
