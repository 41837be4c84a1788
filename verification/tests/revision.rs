use blazingjj::revision::{parse_log_head, LogHeadError};

#[test]
fn log_head_is_parsed_from_the_first_line() {
    let head = parse_log_head("kmpqzrst 3f2a9c1e\nother line\n").unwrap();
    assert_eq!(head.change_id.as_str(), "kmpqzrst");
    assert_eq!(head.commit_id.as_str(), "3f2a9c1e");
}

#[test]
fn log_head_without_line_feed_and_with_crlf() {
    let head = parse_log_head("abc def").unwrap();
    assert_eq!(head.commit_id.as_str(), "def");
    let head = parse_log_head("abc def\r\n").unwrap();
    assert_eq!(head.commit_id.as_str(), "def");
}

#[test]
fn log_head_splits_at_the_first_space() {
    let head = parse_log_head("a b c\n").unwrap();
    assert_eq!(head.change_id.as_str(), "a");
    assert_eq!(head.commit_id.as_str(), "b c");
}

#[test]
fn empty_log_output_has_no_revision() {
    assert!(matches!(parse_log_head(""), Err(LogHeadError::NoRevision)));
}

#[test]
fn log_line_without_space_is_reported() {
    match parse_log_head("nospace\nx y\n") {
        Err(LogHeadError::BadLine(line)) => assert_eq!(line, "nospace"),
        _ => panic!("expected a bad line"),
    }
    match parse_log_head("\n") {
        Err(LogHeadError::BadLine(line)) => assert_eq!(line, ""),
        _ => panic!("expected a bad line"),
    }
}
