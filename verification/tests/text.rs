use blazingjj::text::{join_lines, same_text, split_lines};

#[test]
fn split_empty_text_gives_one_empty_line() {
    assert_eq!(split_lines(""), vec![String::new()]);
}

#[test]
fn split_matches_str_split() {
    for t in ["a", "a\nb", "a\n", "\n", "\n\nx", "multi\nline\ndescription\n\nbody"] {
        let expected: Vec<String> = t.split('\n').map(|l| l.to_string()).collect();
        assert_eq!(split_lines(t), expected);
    }
}

#[test]
fn split_keeps_carriage_returns() {
    assert_eq!(split_lines("a\r\nb"), vec!["a\r".to_string(), "b".to_string()]);
}

#[test]
fn join_puts_newlines_between() {
    let lines = vec!["title".to_string(), String::new(), "body".to_string()];
    assert_eq!(join_lines(&lines), "title\n\nbody");
    assert_eq!(join_lines(&vec![]), "");
    assert_eq!(join_lines(&vec!["one".to_string()]), "one");
}

#[test]
fn join_of_split_is_identity() {
    for t in ["", "x", "x\n", "x\ny\n\nz", "ünïcode\nlines"] {
        assert_eq!(join_lines(&split_lines(t)), t);
    }
}

#[test]
fn split_of_join_is_identity() {
    let lines = vec!["a".to_string(), "".to_string(), "c".to_string()];
    assert_eq!(split_lines(&join_lines(&lines)), lines);
}

#[test]
fn same_text_compares_characters() {
    assert!(same_text("ctrl+s", "ctrl+s"));
    assert!(!same_text("ctrl+s", "ctrl+S"));
    assert!(!same_text("esc", "escape"));
    assert!(same_text("", ""));
}
