use figdriver::{Align, Error, FIGfont, Smusher, Wrapper};

/// The text of a one-row font file in which each character is drawn as
/// itself (the blank as the hardblank), with the given header and extra
/// lines after the required characters.
fn font_text(header: &str, comments: &[&str], extra: &[&str]) -> String {
    let mut s = String::new();
    s.push_str(header);
    s.push('\n');
    for c in comments {
        s.push_str(c);
        s.push('\n');
    }
    let mut required: Vec<char> = (32u8..127).map(|b| b as char).collect();
    required.extend(['Ä', 'Ö', 'Ü', 'ä', 'ö', 'ü', 'ß']);
    for c in required {
        let mark = if c == '@' { '#' } else { '@' };
        let glyph = if c == ' ' { '$' } else { c };
        s.push(glyph);
        s.push(mark);
        s.push('\n');
    }
    for l in extra {
        s.push_str(l);
        s.push('\n');
    }
    s
}

fn rows(font: &FIGfont, c: char) -> Option<Vec<String>> {
    font.get(c).map(|fc| fc.get().iter().map(|r| r.iter().collect()).collect())
}

#[test]
fn parse_header_fields() {
    let text = font_text("flf2a$ 1 1 3 0 2 0 64 0", &["a comment", "another"], &[]);
    let font = FIGfont::parse(&text).unwrap();
    assert_eq!(font.hardblank, '$');
    assert_eq!(font.height, 1);
    assert_eq!(font.baseline, 1);
    assert_eq!(font.max_length, 3);
    assert_eq!(font.old_layout, 0);
    assert_eq!(font.layout, 64);
    assert!(!font.right_to_left);
}

#[test]
fn parse_required_glyphs() {
    let text = font_text("flf2a$ 1 1 3 0 0", &[], &[]);
    let font = FIGfont::parse(&text).unwrap();
    assert_eq!(rows(&font, 'A'), Some(vec!["A".to_string()]));
    assert_eq!(rows(&font, ' '), Some(vec!["$".to_string()]));
    assert_eq!(rows(&font, '@'), Some(vec!["@".to_string()]));
    assert_eq!(rows(&font, 'ß'), Some(vec!["ß".to_string()]));
    assert_eq!(rows(&font, '\u{100}'), None);
}

#[test]
fn parse_strips_end_marks_and_blanks() {
    let text = font_text("flf2a$ 1 1 3 0 0", &[], &["300", "ab@@  \r", "301", "@@", "302", "x##"]);
    let font = FIGfont::parse(&text).unwrap();
    assert_eq!(rows(&font, '\u{12C}'), Some(vec!["ab".to_string()]));
    assert_eq!(rows(&font, '\u{12D}'), Some(vec!["".to_string()]));
    assert_eq!(rows(&font, '\u{12E}'), Some(vec!["x".to_string()]));
}

#[test]
fn parse_code_tags() {
    let text = font_text(
        "flf2a$ 1 1 3 0 0",
        &[],
        &["0x100  LATIN CAPITAL LETTER A WITH MACRON", "m@", "0401", "o@", "-5", "n@", "65", "z@"],
    );
    let font = FIGfont::parse(&text).unwrap();
    assert_eq!(rows(&font, '\u{100}'), Some(vec!["m".to_string()]));
    assert_eq!(rows(&font, '\u{101}'), Some(vec!["o".to_string()]));
    assert!(font.chars.iter().any(|e| e.0 == -5));
    // A later FIGcharacter of a code replaces the earlier one.
    assert_eq!(rows(&font, 'A'), Some(vec!["z".to_string()]));
}

#[test]
fn parse_stops_at_bad_code_line() {
    let text = font_text("flf2a$ 1 1 3 0 0", &[], &["0x", "q@", "300", "r@"]);
    let font = FIGfont::parse(&text).unwrap();
    assert_eq!(rows(&font, '\u{12C}'), None);
}

#[test]
fn parse_truncated_file() {
    let text = "flf2a$ 2 1 3 0 0\n$@\n$@@\n!@\n!@@\n\"@\n";
    let font = FIGfont::parse(text).unwrap();
    assert_eq!(rows(&font, ' '), Some(vec!["$".to_string(), "$".to_string()]));
    assert_eq!(rows(&font, '!'), Some(vec!["!".to_string(), "!".to_string()]));
    assert_eq!(rows(&font, '"'), None);
}

#[test]
fn parse_derived_layout() {
    let f = |old: &str| FIGfont::parse(&format!("flf2a$ 1 1 3 {} 0\n", old)).unwrap().layout;
    assert_eq!(f("15"), 143);
    assert_eq!(f("0"), 64);
    assert_eq!(f("-1"), 0);
    let font = FIGfont::parse("tlf2a$ 1 1 3 -1 0 1 24463\n").unwrap();
    assert_eq!(font.layout, 24463);
    assert!(font.right_to_left);
}

#[test]
fn parse_invalid_headers() {
    assert_eq!(FIGfont::parse("").err(), Some(Error::InvalidHeader));
    assert_eq!(FIGfont::parse("flf2b$ 1 1 3 0 0\n").err(), Some(Error::InvalidHeader));
    assert_eq!(FIGfont::parse("flf2a$ 1 1 3\n").err(), Some(Error::InvalidHeader));
    assert_eq!(FIGfont::parse("flf2a$ 0 1 3 0 0\n").err(), Some(Error::InvalidHeader));
    assert_eq!(FIGfont::parse("flf2a$ x 1 3 0 0\n").err(), Some(Error::InvalidHeader));
    assert_eq!(FIGfont::parse("flf2a$ 1 1 3 0 0 0 -5\n").err(), Some(Error::InvalidHeader));
    assert_eq!(FIGfont::parse("flf2a$ 99999999999 1 3 0 0\n").err(), Some(Error::InvalidHeader));
}

/// A one-row test font read from its file text: every character is drawn
/// as itself, the blank as a hardblank, with kerning.
fn test_font() -> FIGfont {
    FIGfont::parse(&font_text("flf2a$ 1 1 3 0 0", &[], &[])).unwrap()
}

fn new_smusher(font: &FIGfont) -> Smusher<'_> {
    let mut sm = Smusher::new(font);
    sm.mode = font.layout;
    sm
}

fn wrap_all(wr: &mut Wrapper, words: &[&str]) {
    for x in words {
        wr.wrap_str(x);
    }
}

#[test]
fn line_full() {
    let font = test_font();
    let mut wr = Wrapper::new(new_smusher(&font), 8);
    assert!(!wr.push_str("this").is_err());
    assert!(!wr.push_str(" ").is_err());
    assert!(!wr.push_str("is").is_err());
    assert!(!wr.push_str(" ").is_err());
    assert!(wr.push_str("a").is_err());
    assert_eq!(wr.get(), vec!["this is "]);
}

#[test]
fn line_wrap() {
    let font = test_font();
    let mut wr = Wrapper::new(new_smusher(&font), 8);
    wrap_all(&mut wr, &["this", " ", "is", " ", "a", " ", "test"]);
    assert_eq!(wr.get(), vec!["a test"]);
}

#[test]
fn wrap_align_left() {
    let font = test_font();
    let mut wr = Wrapper::new(new_smusher(&font), 12);
    wr.align = Align::Left;
    wrap_all(&mut wr, &["this", " ", "is", " ", "a", " ", "new", " ", "test"]);
    assert_eq!(wr.get(), vec!["new test"]);
}

#[test]
fn wrap_align_center() {
    let font = test_font();
    let mut wr = Wrapper::new(new_smusher(&font), 12);
    wr.align = Align::Center;
    wrap_all(&mut wr, &["this", " ", "is", " ", "a", " ", "new", " ", "test"]);
    assert_eq!(wr.get(), vec!["  new test"]);
}

#[test]
fn wrap_align_right() {
    let font = test_font();
    let mut wr = Wrapper::new(new_smusher(&font), 12);
    wr.align = Align::Right;
    wrap_all(&mut wr, &["this", " ", "is", " ", "a", " ", "new", " ", "test"]);
    assert_eq!(wr.get(), vec!["    new test"]);
}

#[test]
fn consecutive_blanks_collapsed_at_wrap() {
    let font = test_font();
    let mut wr = Wrapper::new(new_smusher(&font), 8);
    wrap_all(&mut wr, &["this", "   ", "is", " ", "a", " ", "test"]);
    assert_eq!(wr.get(), vec!["test"]);
}

#[test]
fn leading_blanks_preserved() {
    let font = test_font();
    let mut wr = Wrapper::new(new_smusher(&font), 30);
    wr.wrap_str("   ");
    wr.wrap_str("x");
    assert_eq!(wr.get(), vec!["   x"]);
}

#[test]
fn rtl_consecutive_blanks_collapsed_at_wrap() {
    let font = test_font();
    let mut sm = new_smusher(&font);
    sm.right2left = true;
    let mut wr = Wrapper::new(sm, 8);
    wrap_all(&mut wr, &["this", "   ", "is", " ", "a", " ", "test"]);
    assert_eq!(wr.get(), vec!["tset"]);
}

#[test]
fn rtl_leading_blanks_preserved() {
    let font = test_font();
    let mut sm = new_smusher(&font);
    sm.right2left = true;
    let mut wr = Wrapper::new(sm, 30);
    wr.wrap_str("   ");
    wr.wrap_str("x");
    assert_eq!(wr.get(), vec!["x   "]);
}

#[test]
fn rtl_inter_word_blanks_preserved() {
    let font = test_font();
    let mut sm = new_smusher(&font);
    sm.right2left = true;
    let mut wr = Wrapper::new(sm, 30);
    wrap_all(&mut wr, &["a", "   ", "b"]);
    assert_eq!(wr.get(), vec!["b   a"]);
}

#[test]
fn rtl_blank_after_wrap_discarded() {
    let font = test_font();
    let mut sm = new_smusher(&font);
    sm.right2left = true;
    let mut wr = Wrapper::new(sm, 4);
    wrap_all(&mut wr, &["this", "   ", "is", " ", "a", " ", "test"]);
    assert_eq!(wr.get(), vec!["tset"]);
}

#[test]
fn inter_word_blanks_preserved() {
    let font = test_font();
    let mut wr = Wrapper::new(new_smusher(&font), 30);
    wrap_all(&mut wr, &["a", "   ", "b"]);
    assert_eq!(wr.get(), vec!["a   b"]);
}

#[test]
fn blank_after_wrap_discarded() {
    let font = test_font();
    let mut wr = Wrapper::new(new_smusher(&font), 4);
    wrap_all(&mut wr, &["this", "   ", "is", " ", "a", " ", "test"]);
    assert_eq!(wr.get(), vec!["test"]);
}

#[test]
fn blanks_that_do_not_fit_are_dropped_at_the_wrap() {
    let font = test_font();
    let mut wr = Wrapper::new(new_smusher(&font), 6);
    let mut flushed = wr.wrap_str("this");
    flushed.extend(wr.wrap_str("   "));
    assert!(flushed.is_empty());
    flushed.extend(wr.wrap_str("is"));
    assert_eq!(flushed, vec![vec!["this".to_string()]]);
    assert_eq!(wr.get(), vec!["is"]);
}

#[test]
fn a_wrapped_line_is_flushed_once() {
    let font = test_font();
    let mut wr = Wrapper::new(new_smusher(&font), 4);
    let mut flushed = wr.wrap_str("this");
    flushed.extend(wr.wrap_str("   "));
    assert!(flushed.is_empty());
    flushed.extend(wr.wrap_str("is"));
    assert_eq!(flushed, vec![vec!["this".to_string()]]);
    assert_eq!(wr.get(), vec!["is"]);
}

#[test]
fn blanks_between_words_wait_for_the_word() {
    let font = test_font();
    let mut wr = Wrapper::new(new_smusher(&font), 30);
    assert!(wr.wrap_str("a").is_empty());
    assert!(wr.wrap_str("   ").is_empty());
    assert_eq!(wr.len(), 1);
    assert!(wr.wrap_str("b").is_empty());
    assert_eq!(wr.get(), vec!["a   b"]);
}

#[test]
fn zip_signature() {
    assert!(figdriver::flf::is_zip_header(b"PK\x03\x04"));
    assert!(!figdriver::flf::is_zip_header(b"flf2a$"));
    assert!(!figdriver::flf::is_zip_header(b"P"));
}
