use dirscan::items::ScanError;
use dirscan::scan::{classify_root, validate_input};

#[test]
fn empty_path_is_invalid_input() {
    assert_eq!(validate_input(""), Err(ScanError::InvalidInput));
}

#[test]
fn whitespace_only_path_is_invalid_input() {
    assert_eq!(validate_input("   \t\r\n"), Err(ScanError::InvalidInput));
}

#[test]
fn surrounding_whitespace_is_trimmed() {
    assert_eq!(validate_input("  /tmp/data \n"), Ok("/tmp/data".to_string()));
}

#[test]
fn plain_path_passes_through() {
    assert_eq!(validate_input("/srv"), Ok("/srv".to_string()));
}

#[test]
fn unreadable_root_is_not_accessible() {
    assert_eq!(classify_root(false, false), Err(ScanError::NotAccessible));
}

#[test]
fn readable_non_directory_is_rejected() {
    assert_eq!(classify_root(true, false), Err(ScanError::NotADirectory));
}

#[test]
fn readable_directory_is_accepted() {
    assert_eq!(classify_root(true, true), Ok(()));
}

#[test]
fn error_messages_are_descriptive() {
    assert_eq!(ScanError::InvalidInput.message(), "path must not be empty");
    assert_eq!(ScanError::NotAccessible.message(), "path is not accessible");
    assert_eq!(ScanError::NotADirectory.message(), "path is not a directory");
    assert_eq!(
        ScanError::CanonicalizationFailed.message(),
        "path could not be canonicalized"
    );
}
