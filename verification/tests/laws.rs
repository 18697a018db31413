use figdriver::control::decoder::{EncodingDecoder, InputEncoding, StreamingDecoder};
use figdriver::control::{FlcPipeline, FlcRange};
use figdriver::smusher::trim;
use figdriver::wrapper::add_pad;
use figdriver::{Align, Error, FIGchar, FIGfont, LayoutMode, Smusher, Wrapper};
use figdriver::{SMUSH_ENABLE, SMUSH_KERN};

fn glyph(lines: &[&str]) -> FIGchar {
    FIGchar::from_lines(&lines.to_vec()).unwrap()
}

fn strings(v: &[&str]) -> Vec<String> {
    v.iter().map(|s| s.to_string()).collect()
}

/// A one-row font in which every printable ASCII character is drawn as
/// itself, with `$` as the hardblank and kerning as its layout.
fn plain_font() -> FIGfont {
    let mut font = FIGfont::default();
    font.hardblank = '$';
    font.height = 1;
    font.baseline = 1;
    font.max_length = 3;
    font.old_layout = 0;
    font.layout = SMUSH_KERN;
    for c in 33u8..127 {
        let s = (c as char).to_string();
        font.add_char(c as i32, glyph(&[s.as_str()])).unwrap();
    }
    font.add_char(' ' as i32, glyph(&["$"])).unwrap();
    font
}

/// A two-row font with blocks for 'a', 'b' and a wide character.
fn block_font() -> FIGfont {
    let mut font = FIGfont::default();
    font.hardblank = '$';
    font.height = 2;
    font.layout = SMUSH_KERN;
    font.add_char('a' as i32, glyph(&["aa", "aa"])).unwrap();
    font.add_char('b' as i32, glyph(&["bbb", "b$b"])).unwrap();
    font.add_char('w' as i32, glyph(&["中", "中"])).unwrap();
    font
}

// ---- FIGfont ----

#[test]
fn font_read_after_add() {
    let mut font = FIGfont::default();
    font.height = 2;
    font.add_char(65, glyph(&["ab", "cd"])).unwrap();
    assert_eq!(font.get('A').unwrap().get(), &vec![vec!['a', 'b'], vec!['c', 'd']]);
    font.add_char(65, glyph(&["xy", "zw"])).unwrap();
    assert_eq!(font.get('A').unwrap().get(), &vec![vec!['x', 'y'], vec!['z', 'w']]);
    assert!(font.get('B').is_none());
}

#[test]
fn font_height_mismatch_refused() {
    let mut font = FIGfont::default();
    font.height = 2;
    assert_eq!(font.add_char(65, glyph(&["ab"])), Err(Error::HeightMismatch));
    assert!(font.get('A').is_none());
}

#[test]
fn figchar_needs_rows() {
    let empty: Vec<&str> = Vec::new();
    assert_eq!(FIGchar::from_lines(&empty).err(), Some(Error::EmptyFIGchar));
}

// ---- Smusher ----

#[test]
fn smusher_push_reports_rendering() {
    let font = plain_font();
    let mut sm = Smusher::new(&font);
    assert!(sm.push('x'));
    assert!(!sm.push('é'));
    assert_eq!(sm.push_str("aéb"), "ab".to_string());
    assert_eq!(sm.get(), vec!["xab".to_string()]);
}

#[test]
fn smusher_hardblank_shown_as_blank() {
    let font = plain_font();
    let mut sm = Smusher::new(&font);
    sm.push_str("a b");
    assert_eq!(sm.get_raw(), vec!["a$b".to_string()]);
    assert_eq!(sm.get(), vec!["a b".to_string()]);
}

#[test]
fn smusher_replace_hardblanks() {
    let font = plain_font();
    let sm = Smusher::new(&font);
    let mut lines = strings(&["$a$", "b"]);
    sm.replace_hardblanks(&mut lines);
    assert_eq!(lines, strings(&[" a ", "b"]));
}

#[test]
fn smusher_clear_empties() {
    let font = block_font();
    let mut sm = Smusher::new(&font);
    sm.push_str("ab");
    assert_eq!(sm.len(), 5);
    sm.clear();
    assert!(sm.is_empty());
    assert_eq!(sm.len(), 0);
    assert_eq!(sm.get(), strings(&["", ""]));
}

#[test]
fn smusher_wide_character_width() {
    let font = block_font();
    let mut sm = Smusher::new(&font);
    sm.push('w');
    assert_eq!(sm.len(), 2);
    sm.push('a');
    assert_eq!(sm.len(), 4);
}

#[test]
fn smusher_trim_fits_width() {
    let font = block_font();
    let mut sm = Smusher::new(&font);
    sm.push_str("wab");
    sm.trim(3);
    assert_eq!(sm.get(), strings(&["中a", "中a"]));
    assert!(sm.len() <= 3);
    sm.trim(10);
    assert_eq!(sm.get(), strings(&["中a", "中a"]));
}

#[test]
fn trim_keeps_lines_that_fit() {
    let output = strings(&["ab", "abcdef", "中中中"]);
    assert_eq!(trim(&output, 4), strings(&["ab", "abcd", "中中"]));
    assert_eq!(trim(&output, 5), strings(&["ab", "abcde", "中中"]));
}

#[test]
fn smusher_layout_modes() {
    let mut font = block_font();
    font.layout = 24463;
    font.old_layout = 15;
    let sm = Smusher::builder(&font).build();
    assert_eq!((sm.mode, sm.full_width), (24463, false));
    let sm = Smusher::builder(&font).layout_mode(LayoutMode::Overlap).build();
    assert_eq!((sm.mode, sm.full_width), (0, false));
    let sm = Smusher::builder(&font).layout_mode(LayoutMode::Kern).build();
    assert_eq!((sm.mode, sm.full_width), (SMUSH_KERN, false));
    let sm = Smusher::builder(&font).layout_mode(LayoutMode::FullWidth).build();
    assert_eq!((sm.mode, sm.full_width), (24463, true));
    let sm = Smusher::builder(&font).layout_mode(LayoutMode::Custom(5)).build();
    assert_eq!((sm.mode, sm.full_width), (5, false));
    let sm = Smusher::builder(&font).layout_mode(LayoutMode::SmushForce).build();
    assert_eq!((sm.mode, sm.full_width), (24463, false));
    font.layout = 0;
    font.old_layout = -1;
    let sm = Smusher::builder(&font).build();
    assert_eq!((sm.mode, sm.full_width), (0, true));
    let sm = Smusher::builder(&font).layout_mode(LayoutMode::SmushForce).build();
    assert_eq!((sm.mode, sm.full_width), (0, false));
    let sm = Smusher::builder(&font).layout_mode(LayoutMode::SmushDefault).build();
    assert_eq!((sm.mode, sm.full_width), (0, true));
    assert_eq!(SMUSH_ENABLE, 128);
}

#[test]
fn smusher_control_maps_characters() {
    let font = plain_font();
    let mut p = FlcPipeline::new();
    assert!(p.push_stage(vec![FlcRange { lo: 'a' as i32, hi: 'c' as i32, target: 'x' as i32 }]));
    let mut sm = Smusher::builder(&font).control(Some(&p)).build();
    sm.push_str("abcd");
    assert_eq!(sm.get(), vec!["xyzd".to_string()]);
}

#[test]
fn smusher_control_to_invalid_code_keeps_character() {
    let font = plain_font();
    let mut p = FlcPipeline::new();
    assert!(p.push_stage(vec![FlcRange { lo: 'a' as i32, hi: 'a' as i32, target: 0xD800 }]));
    let mut sm = Smusher::builder(&font).control(Some(&p)).build();
    sm.push('a');
    assert_eq!(sm.get(), vec!["a".to_string()]);
}

#[test]
fn smusher_right_to_left_order() {
    let font = plain_font();
    let mut sm = Smusher::builder(&font).right_to_left(true).build();
    sm.push_str("abc");
    assert_eq!(sm.get(), vec!["cba".to_string()]);
}

// ---- FlcPipeline ----

#[test]
fn pipeline_first_match_and_stages() {
    let mut p = FlcPipeline::new();
    assert_eq!(p.apply(65), 65);
    assert!(p.push_stage(vec![
        FlcRange { lo: 10, hi: 20, target: 100 },
        FlcRange { lo: 15, hi: 30, target: 200 },
    ]));
    assert_eq!(p.apply(15), 105);
    assert_eq!(p.apply(25), 210);
    assert!(p.push_stage(vec![FlcRange { lo: 105, hi: 105, target: 1 }]));
    assert_eq!(p.apply(15), 1);
    assert!(!p.push_stage(vec![FlcRange { lo: 5, hi: 4, target: 0 }]));
    assert_eq!(p.apply(15), 1);
}

// ---- Wrapper ----

#[test]
fn wrapper_refused_push_leaves_line() {
    let font = plain_font();
    let mut wr = Wrapper::new(Smusher::new(&font), 5);
    assert!(wr.push_str("abc").is_ok());
    assert_eq!(wr.push_str("def"), Err(Error::LineFull));
    assert_eq!(wr.get(), vec!["abc".to_string()]);
    assert_eq!(wr.push('g'), Ok(()));
    assert_eq!(wr.push('h'), Ok(()));
    assert_eq!(wr.push('i'), Err(Error::LineFull));
    assert_eq!(wr.get(), vec!["abcgh".to_string()]);
}

#[test]
fn wrapper_alignment() {
    let font = plain_font();
    let mut wr = Wrapper::new(Smusher::new(&font), 9);
    wr.push_str("abcd").unwrap();
    wr.align = Align::Right;
    assert_eq!(wr.get(), vec!["     abcd".to_string()]);
    wr.align = Align::Center;
    assert_eq!(wr.get(), vec!["   abcd".to_string()]);
    wr.align = Align::Left;
    assert_eq!(wr.get(), vec!["abcd".to_string()]);
}

#[test]
fn wrapper_block_is_rectangular() {
    let font = block_font();
    let mut wr = Wrapper::new(Smusher::new(&font), 10);
    wr.push_str("ab").unwrap();
    wr.align = Align::Right;
    let b = wr.get();
    assert_eq!(b, strings(&["     aabbb", "     aab b"]));
    assert!(b.iter().all(|l| l.chars().count() == 10));
}

#[test]
fn wrapper_wrap_word_breaks_characters() {
    let font = plain_font();
    let mut wr = Wrapper::new(Smusher::new(&font), 3);
    let flushed = wr.wrap_word("abcdefg");
    assert_eq!(flushed, vec![vec!["abc".to_string()], vec!["def".to_string()]]);
    assert_eq!(wr.get(), vec!["g".to_string()]);
}

#[test]
fn wrapper_wrap_str_words() {
    let font = plain_font();
    let mut wr = Wrapper::new(Smusher::new(&font), 8);
    let mut flushed = Vec::new();
    for w in ["this", " ", "is", " ", "a", " ", "test"] {
        flushed.extend(wr.wrap_str(w));
    }
    assert_eq!(flushed, vec![vec!["this is".to_string()]]);
    assert_eq!(wr.get(), vec!["a test".to_string()]);
}

#[test]
fn add_pad_prefixes() {
    assert_eq!(add_pad(&strings(&["a", ""]), 2), strings(&["  a", "  "]));
}

// ---- Decoders ----

fn decode_all(bytes: &[u8], enc: InputEncoding) -> Vec<i32> {
    let mut d = EncodingDecoder::new(bytes, enc, None);
    let mut out = Vec::new();
    while let Some(c) = d.next() {
        out.push(c);
    }
    out
}

#[test]
fn latin1_gives_bytes() {
    let bytes: Vec<u8> = (0u8..=255).collect();
    let expected: Vec<i32> = (0i32..=255).collect();
    assert_eq!(decode_all(&bytes, InputEncoding::Latin1), expected);
}

#[test]
fn utf8_roundtrip() {
    let s = "aé€😀\u{7FF}\u{800}\u{FFFF}\u{10000}\u{10FFFF}";
    let expected: Vec<i32> = s.chars().map(|c| c as i32).collect();
    assert_eq!(decode_all(s.as_bytes(), InputEncoding::UTF8), expected);
    let mut st = StreamingDecoder::new(InputEncoding::Default, None);
    assert_eq!(st.decode_bytes(s.as_bytes()), expected);
}

#[test]
fn stream_pieces_like_whole() {
    let text = "héllo wörld\n".as_bytes();
    let mut whole = StreamingDecoder::new(InputEncoding::UTF8, None);
    let all = whole.decode_bytes(&[text, text].concat());
    let mut st = StreamingDecoder::new(InputEncoding::UTF8, None);
    let mut parts = st.decode_bytes(text);
    parts.extend(st.decode_bytes(text));
    assert_eq!(parts, all);
}

#[test]
fn hz_mode_carries_across_pieces() {
    let a = b"A~{\x30\x21";
    let b = b"\x30\x22~}B";
    let mut whole = StreamingDecoder::new(InputEncoding::HZ, None);
    let all = whole.decode_bytes(&[&a[..], &b[..]].concat());
    assert_eq!(all, vec![65, 0x3021, 0x3022, 66]);
    let mut st = StreamingDecoder::new(InputEncoding::HZ, None);
    let mut parts = st.decode_bytes(a);
    parts.extend(st.decode_bytes(b));
    assert_eq!(parts, all);
}

#[test]
fn iso2022_registers_carry_across_pieces() {
    // ESC $ B designates a 94x94 set to G0; then two double-byte characters.
    let a = b"\x1b$B\x30\x21";
    let b = b"\x30\x22";
    let mut whole = StreamingDecoder::new(InputEncoding::ISO2022, None);
    let all = whole.decode_bytes(&[&a[..], &b[..]].concat());
    let mut st = StreamingDecoder::new(InputEncoding::ISO2022, None);
    let mut parts = st.decode_bytes(a);
    parts.extend(st.decode_bytes(b));
    assert_eq!(parts, all);
    assert_eq!(all.len(), 2);
}

#[test]
fn full_width_appends_whole_characters() {
    let mut font = FIGfont::default();
    font.height = 2;
    font.hardblank = '$';
    font.layout = 24463;
    font.add_char('x' as i32, glyph(&["x ", "xx"])).unwrap();
    font.add_char('y' as i32, glyph(&[" y", "yy"])).unwrap();
    let mut sm = Smusher::builder(&font).layout_mode(LayoutMode::FullWidth).build();
    sm.push_str("xy");
    assert_eq!(sm.get(), strings(&["x  y", "xxyy"]));
    let mut sm = Smusher::builder(&font).layout_mode(LayoutMode::FullWidth).right_to_left(true).build();
    sm.push_str("xy");
    assert_eq!(sm.get(), strings(&[" yx ", "yyxx"]));
    // Kerning moves by the least gap of the rows: the second row has none.
    let mut sm = Smusher::builder(&font).layout_mode(LayoutMode::Kern).build();
    sm.push_str("xy");
    assert_eq!(sm.get(), strings(&["x  y", "xxyy"]));
}

#[test]
fn wrapper_output_follows_line_after_wrapping() {
    let font = plain_font();
    let mut wr = Wrapper::new(Smusher::new(&font), 6);
    let mut flushed = Vec::new();
    for w in ["abc", " ", "defg", " ", "h"] {
        flushed.extend(wr.wrap_str(w));
    }
    assert_eq!(flushed, vec![vec!["abc".to_string()]]);
    // The line now holds "defg h"; a refused push leaves it as it was.
    assert_eq!(wr.push_str("ij"), Err(Error::LineFull));
    assert_eq!(wr.get(), vec!["defg h".to_string()]);
}

#[test]
fn utf8_bytes_that_start_nothing_give_128() {
    assert_eq!(decode_all(&[0xC0, 0xAF], InputEncoding::UTF8), vec![128, 128]);
    assert_eq!(decode_all(&[0xF5, 0x41], InputEncoding::UTF8), vec![128, 65]);
    assert_eq!(decode_all(&[0xFF, 0xC1, 0x80], InputEncoding::UTF8), vec![128, 128, 128]);
}

#[test]
fn iso2022_default_registers_read_latin1() {
    let mut st = StreamingDecoder::new(InputEncoding::ISO2022, None);
    let a: Vec<u8> = vec![0x41, 0x20, 0x7F, 0x90, 0xA0, 0xE9, 0xFF];
    assert_eq!(st.decode_bytes(&a), a.iter().map(|&b| b as i32).collect::<Vec<i32>>());
    assert_eq!(st.decode_bytes(b"DEF"), vec![68, 69, 70]);
}
