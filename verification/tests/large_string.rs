use ansi_to_tui::IntoText;
use blazingjj::large_string::LargeString;

fn text(s: &str) -> LargeString {
    LargeString::new(s.to_string())
}

#[test]
fn empty_document_has_no_lines() {
    assert_eq!(text("").lines(), 0);
}

#[test]
fn unterminated_line_counts() {
    assert_eq!(text("abc").lines(), 1);
    assert_eq!(text("abc\ndef").lines(), 2);
}

#[test]
fn trailing_newline_adds_no_line() {
    assert_eq!(text("abc\n").lines(), 1);
    assert_eq!(text("abc\ndef\n").lines(), 2);
}

#[test]
fn crlf_and_lfcr_pairs_end_one_line() {
    assert_eq!(text("a\r\nb").lines(), 2);
    assert_eq!(text("a\n\rb").lines(), 2);
    assert_eq!(text("a\r\n").lines(), 1);
}

#[test]
fn equal_eol_bytes_end_two_lines() {
    assert_eq!(text("a\n\nb").lines(), 3);
    assert_eq!(text("a\r\rb").lines(), 3);
    assert_eq!(text("\n").lines(), 1);
    assert_eq!(text("\n\n").lines(), 2);
}

#[test]
fn three_eol_bytes_pair_the_first_two() {
    // "\r\n" ends the first line, the last "\r" ends an empty second line.
    assert_eq!(text("a\r\n\rb").lines(), 3);
}

#[test]
fn render_slice_selects_whole_lines() {
    let s = text("one\ntwo\r\nthree\n");
    assert_eq!(s.lines(), 3);
    assert_eq!(s.render_slice(0, 1), "one\n");
    assert_eq!(s.render_slice(1, 1), "two\r\n");
    assert_eq!(s.render_slice(1, 2), "two\r\nthree\n");
    assert_eq!(s.render_slice(0, 3), "one\ntwo\r\nthree\n");
}

#[test]
fn render_slice_past_the_end_is_clamped() {
    let s = text("one\ntwo");
    assert_eq!(s.render_slice(1, 10), "two");
    assert_eq!(s.render_slice(5, 2), "");
    assert_eq!(s.render_slice(0, 0), "");
}

#[test]
fn render_slice_keeps_multibyte_characters() {
    let s = text("héllo\nwörld\n");
    assert_eq!(s.render_slice(1, 1), "wörld\n");
}

#[test]
fn windows_concatenate() {
    let s = text("a\nbb\nccc\ndddd");
    let whole = s.render_slice(1, 3).to_string();
    let joined = format!("{}{}", s.render_slice(1, 1), s.render_slice(2, 2));
    assert_eq!(whole, joined);
}

#[test]
fn render_parses_the_selected_lines() {
    let s = text("plain\n\u{1b}[31mred\u{1b}[0m\nlast\n");
    let rendered = s.render(1, 1);
    assert_eq!(rendered.lines.len(), 1);
    let line: String = rendered.lines[0].spans.iter().map(|span| span.content.to_string()).collect();
    assert_eq!(line, "red");
}

#[test]
fn render_of_two_lines_gives_two_text_lines() {
    let s = text("first\nsecond\nthird\n");
    let rendered = s.render(0, 2);
    assert_eq!(rendered.lines.len(), 2);
}

#[test]
fn render_is_the_parse_of_the_window() {
    let doc = "plain\n\u{1b}[32mgreen\u{1b}[0m\r\nlast";
    let s = text(doc);
    assert_eq!(s.render(1, 2), "\u{1b}[32mgreen\u{1b}[0m\r\nlast".into_text().unwrap());
    assert_eq!(s.render(0, 1), "plain\n".into_text().unwrap());
}

#[test]
fn render_past_the_end_is_empty_text() {
    let s = text("one\ntwo\n");
    assert_eq!(s.render(2, 3), "".into_text().unwrap());
    assert_eq!(s.render(0, 0), "".into_text().unwrap());
}

#[test]
fn equal_documents_render_alike() {
    let a = text("x\n\u{1b}[1my\u{1b}[0m\nz\n");
    let b = text("x\n\u{1b}[1my\u{1b}[0m\nz\n");
    assert_eq!(a.render(1, 2), b.render(1, 2));
}

#[test]
fn line_count_without_carriage_returns() {
    // Line feeds, plus one for a last line without one.
    assert_eq!(text("a\nb\nc").lines(), 3);
    assert_eq!(text("a\nb\n").lines(), 2);
    assert_eq!(text("\n\n").lines(), 2);
}

#[test]
fn line_counts_add_up_over_concatenation() {
    let a = "one\ntwo\n";
    let b = "three\nfour";
    assert_eq!(text(&format!("{}{}", a, b)).lines(), text(a).lines() + text(b).lines());
    // A carriage return at the start of the second part joins the line feed.
    assert_eq!(text(&format!("{}{}", a, "\rx")).lines(), 3);
}
