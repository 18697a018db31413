use figdriver::smusher::{amount, trim};
use figdriver::{FIGchar, FIGfont, LayoutMode, Smusher};

fn vec_of_strings(v: &[&str]) -> Vec<String> {
    v.iter().map(|s| s.to_string()).collect()
}

fn glyph(lines: &[&str]) -> FIGchar {
    FIGchar::from_lines(&lines.to_vec()).unwrap()
}

/// A font with the shapes and header of the standard FIGfont for the
/// characters space, A, B and C.
fn standard_font() -> FIGfont {
    let mut font = FIGfont::default();
    font.hardblank = '$';
    font.height = 6;
    font.baseline = 5;
    font.max_length = 16;
    font.old_layout = 15;
    font.layout = 24463;
    font.add_char(' ' as i32, glyph(&["$", "$", "$", "$", "$", "$"])).unwrap();
    font.add_char('A' as i32, glyph(&["    _    ", "   / \\   ", "  / _ \\  ", " / ___ \\ ", "/_/   \\_\\", "         "])).unwrap();
    font.add_char('B' as i32, glyph(&[" ____  ", "| __ ) ", "|  _ \\ ", "| |_) |", "|____/ ", "       "])).unwrap();
    font.add_char('C' as i32, glyph(&["  ____ ", " / ___|", "| |    ", "| |___ ", " \\____|", "       "])).unwrap();
    font
}

#[test]
fn test_amount() {
    let output = vec_of_strings(&["", "", "", ""]);
    let fc = glyph(&["   ", "  x", " xx", "xx "]);
    assert_eq!(amount(&output, &fc, '$', 0xbf, false), 0);

    let output = vec_of_strings(&["", "", "", ""]);
    let fc = glyph(&["   ", "  x", " xx", "   "]);
    assert_eq!(amount(&output, &fc, '$', 0xbf, false), 1);

    let output = vec_of_strings(&["xxx ", "xx  ", "x   ", "    "]);
    let fc = glyph(&["   y", "  yy", " yyy", "yyyy"]);
    assert_eq!(amount(&output, &fc, '$', 0xbf, false), 4);

    let output = vec_of_strings(&["xxxx ", "xxx  ", "xx   ", "x    "]);
    let fc = glyph(&["   x", "  xx", " xxx", "xxxx"]);
    assert_eq!(amount(&output, &fc, '$', 0xbf, false), 5);
}

#[test]
fn test_amount_utf8() {
    let output = vec_of_strings(&["", "", "", ""]);
    let fc = glyph(&["   ", "  á", " áá", "   "]);
    assert_eq!(amount(&output, &fc, '$', 0xbf, false), 1);

    let output = vec_of_strings(&["ááá ", "áá  ", "á   ", "    "]);
    let fc = glyph(&["   é", "  éé", " ééé", "éééé"]);
    assert_eq!(amount(&output, &fc, '$', 0xbf, false), 4);

    let output = vec_of_strings(&["áááá ", "ááá  ", "áá   ", "á    "]);
    let fc = glyph(&["   á", "  áá", " ááá", "áááá"]);
    assert_eq!(amount(&output, &fc, '$', 0xbf, false), 5);
}

#[test]
fn test_trim() {
    let output = vec_of_strings(&["12345", "abcde"]);
    assert_eq!(trim(&output, 3), vec_of_strings(&["123", "abc"]));
}

#[test]
fn test_trim_utf8() {
    let output = vec_of_strings(&["12345", "áéíóú"]);
    assert_eq!(trim(&output, 3), vec_of_strings(&["123", "áéí"]));
}

// get() replaces hardblank characters with spaces in the output
#[test]
fn test_smusher_get_hardblank_replacement() {
    let font = standard_font();
    let sm = Smusher::new(&font);
    let output = sm.get();
    for line in &output {
        assert!(!line.contains(font.hardblank));
    }
}

// is_empty() reports correct state before and after push
#[test]
fn test_smusher_is_empty() {
    let font = standard_font();
    let mut sm = Smusher::new(&font);
    assert!(sm.is_empty());
    sm.push('A');
    assert!(!sm.is_empty());
}

// clear() resets the smusher to empty, allowing reuse
#[test]
fn test_smusher_clear() {
    let font = standard_font();
    let mut sm = Smusher::new(&font);
    sm.push('A');
    assert!(!sm.is_empty());
    sm.clear();
    assert!(sm.is_empty());
    sm.push('B');
    assert!(!sm.is_empty());
}

// len() tracks character count through push and clear
#[test]
fn test_smusher_len() {
    let font = standard_font();
    let mut sm = Smusher::new(&font);
    assert_eq!(sm.len(), 0);
    sm.push('A');
    assert!(sm.len() > 0);
    sm.clear();
    assert_eq!(sm.len(), 0);
}

// push_str() appends multiple characters at once
#[test]
fn test_smusher_push_str() {
    let font = standard_font();
    let mut sm = Smusher::new(&font);
    sm.push_str("AB");
    let output = sm.get();
    assert!(!output[0].is_empty());
}

// trim() truncates the rendered output to the given width
#[test]
fn test_smusher_trim() {
    let font = standard_font();
    let mut sm = Smusher::new(&font);
    sm.push_str("ABC");
    let len_before = sm.len();
    sm.trim(2);
    assert_eq!(sm.len(), 2);
    assert!(sm.len() < len_before);
}

// full_width mode inserts space between characters
#[test]
fn test_smusher_full_width() {
    let font = standard_font();
    let mut sm = Smusher::builder(&font)
        .layout_mode(LayoutMode::FullWidth)
        .build();
    sm.push('A');
    sm.push('B');
    let output = sm.get();
    assert!(output[0].chars().count() > 1);
}

// Smusher picks up right_to_left from font header
#[test]
fn test_smusher_right2left_from_font() {
    let mut font = FIGfont::default();
    font.height = 3;
    font.right_to_left = false;
    let sm = Smusher::builder(&font).build();
    assert!(!sm.right2left);

    font.right_to_left = true;
    let sm = Smusher::builder(&font).build();
    assert!(sm.right2left);
}

// right_to_left builder option overrides font setting
#[test]
fn test_smusher_right_to_left_override() {
    let mut font = FIGfont::default();
    font.height = 3;
    font.right_to_left = false;
    let sm = Smusher::builder(&font)
        .right_to_left(true)
        .build();
    assert!(sm.right2left);

    font.right_to_left = true;
    let sm = Smusher::builder(&font)
        .right_to_left(false)
        .build();
    assert!(!sm.right2left);
}

// Rendering a string with a missing character produces the same output as
// rendering the string with that character removed.
#[test]
fn test_smusher_skips_missing_char() {
    let font = standard_font();

    let mut sm_with_unknown = Smusher::new(&font);
    sm_with_unknown.push_str("A\u{1F600}B");
    let output_with_unknown = sm_with_unknown.get();

    let mut sm_without_unknown = Smusher::new(&font);
    sm_without_unknown.push_str("AB");
    let output_without_unknown = sm_without_unknown.get();

    assert_eq!(output_with_unknown, output_without_unknown);
}

#[test]
fn standard_font_char() {
    let font = standard_font();
    let mut sm = Smusher::new(&font);
    sm.mode = font.layout;
    let mut wr = figdriver::Wrapper::new(sm, 60);
    assert!(!wr.push('A').is_err());
    assert_eq!(wr.get(), vec![r"    _    ",
                              r"   / \   ",
                              r"  / _ \  ",
                              r" / ___ \ ",
                              r"/_/   \_\",
                              r"         "]);
}
