use sqlite_scan::protocol::pad_to_size;

#[test]
fn test_pad_to_size() {
    let padded = pad_to_size("hello", 128);
    assert_eq!(padded.len(), 128);
}

#[test]
fn test_pad_keeps_text_and_appends_spaces() {
    let padded = pad_to_size("hi", 5);
    assert_eq!(padded, "hi   ");
}

#[test]
fn test_pad_truncates_long_text() {
    let padded = pad_to_size("hello world", 5);
    assert_eq!(padded, "hello");
}

#[test]
fn test_pad_exact_length_unchanged() {
    let padded = pad_to_size("abc", 3);
    assert_eq!(padded, "abc");
}
