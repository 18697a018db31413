use figdriver::cmdline::{
    choose_layout, control_file_name, first_line, font_candidates, layout_from_value, resolve_align,
    resolve_rtl, split_runs, strip_font_suffix, write_line, write_paragraph, Justify, PrintDir,
};
use figdriver::{Align, FIGchar, FIGfont, LayoutMode, Smusher, Wrapper, SMUSH_KERN};

fn strings(v: &[&str]) -> Vec<String> {
    v.iter().map(|s| s.to_string()).collect()
}

/// A one-row font in which every printable ASCII character is drawn as
/// itself, with `$` as the hardblank and kerning as its layout.
fn plain_font() -> FIGfont {
    let mut font = FIGfont::default();
    font.hardblank = '$';
    font.height = 1;
    font.layout = SMUSH_KERN;
    for c in 32u8..127 {
        let s = if c == b' ' { "$".to_string() } else { (c as char).to_string() };
        font.add_char(c as i32, FIGchar::from_lines(&vec![s.as_str()]).unwrap()).unwrap();
    }
    font
}

#[test]
fn first_line_of_text() {
    assert_eq!(first_line("abc\ndef"), "abc");
    assert_eq!(first_line("abc"), "abc");
    assert_eq!(first_line(""), "");
    assert_eq!(first_line("\nx"), "");
}

#[test]
fn font_suffixes() {
    assert_eq!(strip_font_suffix("standard.flf"), "standard");
    assert_eq!(strip_font_suffix("mono9.tlf"), "mono9");
    assert_eq!(strip_font_suffix("small"), "small");
    assert_eq!(strip_font_suffix(".flf"), "");
    assert_eq!(font_candidates("small"), strings(&["small.flf", "small.tlf"]));
    assert_eq!(font_candidates("big.tlf"), strings(&["big.tlf"]));
    assert_eq!(control_file_name("utf8"), "utf8.flc");
    assert_eq!(control_file_name("jis.flc"), "jis.flc");
}

#[test]
fn layout_values() {
    assert_eq!(layout_from_value(0), Some(LayoutMode::Kern));
    assert_eq!(layout_from_value(-1), Some(LayoutMode::FullWidth));
    assert_eq!(layout_from_value(-2), Some(LayoutMode::SmushDefault));
    assert_eq!(layout_from_value(24), Some(LayoutMode::Custom(24)));
    assert_eq!(layout_from_value(-3), None);
}

#[test]
fn later_layout_option_wins() {
    let o = Some(LayoutMode::Overlap);
    assert_eq!(choose_layout(Some(0), o, Some(3), Some(1)), Ok(Some(LayoutMode::Kern)));
    assert_eq!(choose_layout(Some(0), o, Some(1), Some(3)), Ok(o));
    assert_eq!(choose_layout(Some(0), None, Some(1), None), Ok(Some(LayoutMode::Kern)));
    assert_eq!(choose_layout(None, o, None, Some(2)), Ok(o));
    assert_eq!(choose_layout(None, None, None, None), Ok(None));
    assert_eq!(choose_layout(Some(-7), o, Some(3), Some(1)), Err(-7));
}

#[test]
fn direction_and_alignment() {
    assert!(!resolve_rtl(PrintDir::Ltr, true));
    assert!(resolve_rtl(PrintDir::Rtl, false));
    assert!(resolve_rtl(PrintDir::FontDefault, true));
    assert_eq!(resolve_align(Justify::Default, true), Align::Right);
    assert_eq!(resolve_align(Justify::Default, false), Align::Left);
    assert_eq!(resolve_align(Justify::Center, true), Align::Center);
    assert_eq!(resolve_align(Justify::Left, true), Align::Left);
    assert_eq!(resolve_align(Justify::Right, false), Align::Right);
}

#[test]
fn runs_of_a_line() {
    assert_eq!(split_runs("a   b"), strings(&["a", "   ", "b"]));
    assert_eq!(split_runs("a \t b"), strings(&["a", " ", "\t ", "b"]));
    assert_eq!(split_runs("  hello"), strings(&["  ", "hello"]));
    assert_eq!(split_runs("a\t\tb"), strings(&["a", "\t", "\t", "b"]));
    assert_eq!(split_runs(""), Vec::<String>::new());
    let s = "x  y\tz ";
    assert_eq!(split_runs(s).concat(), s);
}

#[test]
fn line_keeps_leading_and_inner_blanks() {
    let font = plain_font();
    let mut wr = Wrapper::new(Smusher::new(&font), 79);
    assert_eq!(write_line(&mut wr, "a   b"), vec![strings(&["a   b"])]);
    assert_eq!(write_line(&mut wr, "  hello"), vec![strings(&["  hello"])]);
    assert!(write_line(&mut wr, "").is_empty());
}

/// A blank that no longer fits on the line is dropped at the wrap.
#[test]
fn line_wraps_at_width() {
    let font = plain_font();
    let mut wr = Wrapper::new(Smusher::new(&font), 7);
    assert_eq!(
        write_line(&mut wr, "this is a test"),
        vec![strings(&["this is"]), strings(&["a test"])]
    );
}

#[test]
fn paragraph_joins_lines() {
    let font = plain_font();
    let mut wr = Wrapper::new(Smusher::new(&font), 79);
    assert!(write_paragraph(&mut wr, "hello").is_empty());
    assert!(write_paragraph(&mut wr, "world").is_empty());
    assert_eq!(wr.get(), strings(&["hello world"]));
    let blocks = write_paragraph(&mut wr, " indented");
    assert_eq!(blocks, vec![strings(&["hello world"])]);
    assert_eq!(wr.get(), strings(&[" indented"]));
}
