use figdriver::wrapper::add_pad;
use figdriver::{FIGchar, FIGfont, Smusher, Wrapper};

fn vec_string(items: &[&str]) -> Vec<String> {
    items.iter().map(|s| s.to_string()).collect()
}

fn glyph(lines: &[&str]) -> FIGchar {
    FIGchar::from_lines(&lines.to_vec()).unwrap()
}

/// A font with the header of the small FIGfont and simple shapes for the
/// letters of "hello world" and for the space.
fn test_font() -> FIGfont {
    let mut font = FIGfont::default();
    font.hardblank = '$';
    font.height = 5;
    font.baseline = 4;
    font.max_length = 13;
    font.old_layout = 15;
    font.layout = 22415;
    let g = |font: &mut FIGfont, c: char, lines: &[&str]| {
        font.add_char(c as i32, glyph(lines)).unwrap();
    };
    g(&mut font, ' ', &[" $", " $", " $", " $", " $"]);
    g(&mut font, 'h', &[" _    ", "| |_  ", "| ' \\ ", "|_||_|", "      "]);
    g(&mut font, 'e', &["     ", " ___ ", "/ -_)", "\\___|", "     "]);
    g(&mut font, 'l', &[" _ ", "| |", "| |", "|_|", "   "]);
    g(&mut font, 'o', &["     ", " ___ ", "/ _ \\", "\\___/", "     "]);
    g(&mut font, 'w', &["         ", "__ __ __ ", "\\ V  V / ", " \\_/\\_/  ", "         "]);
    g(&mut font, 'r', &["     ", " _ _ ", "| '_|", "|_|  ", "     "]);
    g(&mut font, 'd', &["    _ ", " __| |", "/ _` |", "\\__,_|", "      "]);
    font
}

#[test]
fn test_padding() {
    assert_eq!(add_pad(&vec_string(&["x", "x"]), 0), vec_string(&["x", "x"]));
    assert_eq!(add_pad(&vec_string(&["x", "x"]), 4), vec_string(&["    x", "    x"]));
}

#[test]
fn test_padding_utf8() {
    assert_eq!(add_pad(&vec_string(&["á", "á"]), 0), vec_string(&["á", "á"]));
    assert_eq!(add_pad(&vec_string(&["á", "á"]), 4), vec_string(&["    á", "    á"]));
}

#[test]
fn test_newline_splits_lines() {
    let font = test_font();
    let sm = Smusher::new(&font);
    let mut wr = Wrapper::new(sm, 80);

    let flushed = wr.wrap_str("hello\nworld");

    assert_eq!(flushed.len(), 1, "newline should flush the first line");
    assert!(!flushed[0][0].is_empty(), "flushed line should contain rendered content");

    let remaining = wr.get();
    assert!(!remaining[0].is_empty(), "remaining buffer should contain rendered world");
}

#[test]
fn test_consecutive_newlines_produce_blank_lines() {
    let font = test_font();
    let sm = Smusher::new(&font);
    let mut wr = Wrapper::new(sm, 80);

    let flushed = wr.wrap_str("hello\n\nworld");

    assert_eq!(flushed.len(), 2, "consecutive newlines should flush content and blank line");
    assert!(!flushed[0][0].is_empty(), "first flush should contain rendered content");
    assert!(flushed[1][0].is_empty(), "second flush should be blank line");

    let remaining = wr.get();
    assert!(!remaining[0].is_empty(), "remaining buffer should contain rendered world");
}

#[test]
fn test_leading_whitespace_after_newline_preserved() {
    let font = test_font();
    let sm = Smusher::new(&font);
    let mut wr = Wrapper::new(sm, 80);

    let flushed = wr.wrap_str("hello\n  world");

    assert_eq!(flushed.len(), 1, "should flush the first line");
    assert!(!flushed[0][0].is_empty(), "flushed line should contain rendered content");

    let remaining = wr.get();
    assert!(remaining[0].starts_with("  "), "leading whitespace after newline should be preserved");
}

#[test]
fn test_crlf_and_bare_cr_handled_as_newlines() {
    let font = test_font();

    // CRLF
    let sm = Smusher::new(&font);
    let mut wr = Wrapper::new(sm, 80);
    let flushed = wr.wrap_str("hello\r\nworld");
    assert_eq!(flushed.len(), 1, "CRLF should flush the first line");

    // Bare CR
    let sm = Smusher::new(&font);
    let mut wr = Wrapper::new(sm, 80);
    let flushed = wr.wrap_str("hello\rworld");
    assert_eq!(flushed.len(), 1, "bare CR should flush the first line");
}

#[test]
fn test_leading_newline_no_blank_line() {
    let font = test_font();
    let sm = Smusher::new(&font);
    let mut wr = Wrapper::new(sm, 80);

    let flushed = wr.wrap_str("\nworld");

    assert_eq!(flushed.len(), 0, "leading newline should not flush blank line");

    let remaining = wr.get();
    assert!(!remaining[0].is_empty(), "remaining buffer should contain rendered world");
}

#[test]
fn test_trailing_newline_no_blank_line() {
    let font = test_font();
    let sm = Smusher::new(&font);
    let mut wr = Wrapper::new(sm, 80);

    let flushed = wr.wrap_str("hello\n");

    assert_eq!(flushed.len(), 1, "trailing newline should flush the content line once");
    assert!(!flushed[0][0].is_empty(), "flushed line should contain rendered content");

    assert!(wr.is_empty(), "buffer should be empty after trailing newline");
}
