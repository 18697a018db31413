use figdriver::control::decoder::{EncodingDecoder, InputEncoding, StreamingDecoder};

fn collect(bytes: &[u8], encoding: InputEncoding) -> Vec<i32> {
    let mut dec = EncodingDecoder::new(bytes, encoding, None);
    let mut out = Vec::new();
    while let Some(c) = dec.next() {
        out.push(c);
    }
    out
}

fn collect_utf8(bytes: &[u8]) -> Vec<i32> {
    collect(bytes, InputEncoding::UTF8)
}

fn collect_dbcs(bytes: &[u8]) -> Vec<i32> {
    collect(bytes, InputEncoding::Dbcs)
}

fn collect_shiftjis(bytes: &[u8]) -> Vec<i32> {
    collect(bytes, InputEncoding::ShiftJIS)
}

fn collect_hz(bytes: &[u8]) -> Vec<i32> {
    collect(bytes, InputEncoding::HZ)
}

/* UTF-8 tests */

#[test]
fn utf8_empty_returns_none() {
    assert_eq!(collect_utf8(&[]), vec![]);
}

#[test]
fn utf8_ascii_single_byte() {
    assert_eq!(collect_utf8(b"ABC"), vec![65, 66, 67]);
}

#[test]
fn utf8_ascii_null() {
    assert_eq!(collect_utf8(&[0x00]), vec![0]);
}

#[test]
fn utf8_2byte_sequence() {
    // U+00E9 = e-acute, encoded as 0xC3 0xA9
    assert_eq!(collect_utf8(&[0xC3, 0xA9]), vec![0xE9]);
}

#[test]
fn utf8_3byte_sequence() {
    // U+0F60 = Tibetan vowel sign a, encoded as 0xE0 0xBD 0xA0
    assert_eq!(collect_utf8(&[0xE0, 0xBD, 0xA0]), vec![0xF60]);
}

#[test]
fn utf8_4byte_sequence() {
    // U+1F600 = grinning face, encoded as 0xF0 0x9F 0x98 0x80
    assert_eq!(collect_utf8(&[0xF0, 0x9F, 0x98, 0x80]), vec![0x1F600]);
}

#[test]
fn utf8_max_codepoint() {
    // U+10FFFF, encoded as 0xF4 0x8F 0xBF 0xBF
    assert_eq!(collect_utf8(&[0xF4, 0x8F, 0xBF, 0xBF]), vec![0x10FFFF]);
}

#[test]
fn utf8_overlong_1byte_as_2byte() {
    // 0xC0 0xAF is overlong encoding of '/', lead byte rejected (128),
    // continuation byte 0xAF is bare and also yields 128
    assert_eq!(collect_utf8(&[0xC0, 0xAF]), vec![128, 128]);
}

#[test]
fn utf8_overlong_2byte_as_3byte() {
    // 0xE0 0x80 0xAF is overlong encoding of '/', lead byte rejected (128),
    // remaining two continuation bytes each yield 128
    assert_eq!(collect_utf8(&[0xE0, 0x80, 0xAF]), vec![128, 128, 128]);
}

#[test]
fn utf8_overlong_3byte_as_4byte() {
    // 0xF0 0x80 0x80 0xAF is overlong encoding of '/', lead byte rejected (128),
    // remaining three continuation bytes each yield 128
    assert_eq!(collect_utf8(&[0xF0, 0x80, 0x80, 0xAF]), vec![128, 128, 128, 128]);
}

#[test]
fn utf8_surrogate_low_rejected() {
    // U+D800 is a surrogate, encoded as 0xED 0xA0 0x80,
    // lead byte rejected (128), two continuation bytes each yield 128
    assert_eq!(collect_utf8(&[0xED, 0xA0, 0x80]), vec![128, 128, 128]);
}

#[test]
fn utf8_surrogate_high_rejected() {
    // U+DFFF is a surrogate, encoded as 0xED 0xBF 0xBF,
    // lead byte rejected (128), two continuation bytes each yield 128
    assert_eq!(collect_utf8(&[0xED, 0xBF, 0xBF]), vec![128, 128, 128]);
}

#[test]
fn utf8_invalid_continuation_byte() {
    // 0xC2 followed by non-continuation byte 0x00
    assert_eq!(collect_utf8(&[0xC2, 0x00]), vec![128, 0]);
}

#[test]
fn utf8_bare_continuation_byte() {
    // 0x80 is a bare continuation byte
    assert_eq!(collect_utf8(&[0x80]), vec![128]);
}

#[test]
fn utf8_bare_continuation_byte_ff() {
    assert_eq!(collect_utf8(&[0xFF]), vec![128]);
}

#[test]
fn utf8_truncated_2byte() {
    assert_eq!(collect_utf8(&[0xC3]), vec![128]);
}

#[test]
fn utf8_truncated_3byte() {
    assert_eq!(collect_utf8(&[0xE0, 0xBD]), vec![128, 128]);
}

#[test]
fn utf8_truncated_4byte() {
    assert_eq!(collect_utf8(&[0xF0, 0x9F, 0x98]), vec![128, 128, 128]);
}

#[test]
fn utf8_codepoint_above_max() {
    // 0xF5 0x80 0x80 0x80 decodes to 0x110000, above U+10FFFF,
    // lead byte rejected (128), three continuation bytes each yield 128
    assert_eq!(collect_utf8(&[0xF5, 0x80, 0x80, 0x80]), vec![128, 128, 128, 128]);
}

#[test]
fn utf8_mixed_valid_and_invalid() {
    // 'A' (0x41) + valid 2-byte (0xC3 0xA9 = U+00E9) + bare continuation (0x80) + 'B' (0x42)
    assert_eq!(collect_utf8(&[0x41, 0xC3, 0xA9, 0x80, 0x42]), vec![65, 0xE9, 128, 66]);
}

/* DBCS tests */

#[test]
fn dbcs_empty_returns_none() {
    assert_eq!(collect_dbcs(&[]), vec![]);
}

#[test]
fn dbcs_ascii_bytes() {
    assert_eq!(collect_dbcs(b"AB"), vec![65, 66]);
}

#[test]
fn dbcs_high_byte_pair() {
    assert_eq!(collect_dbcs(&[0xA1, 0xA1]), vec![0xA1A1]);
}

#[test]
fn dbcs_mixed_ascii_and_high_bytes() {
    assert_eq!(collect_dbcs(&[0x41, 0xA1, 0xA1, 0x42]), vec![0x41, 0xA1A1, 0x42]);
}

#[test]
fn dbcs_trailing_stray_high_byte() {
    // High byte at end of input with no low byte partner
    assert_eq!(collect_dbcs(&[0x41, 0xA1]), vec![0x41, 0xA1]);
}

#[test]
fn dbcs_multiple_pairs() {
    assert_eq!(
        collect_dbcs(&[0x81, 0x40, 0x81, 0x41, 0x81, 0x42]),
        vec![0x8140, 0x8141, 0x8142]
    );
}

/* Shift-JIS tests */

#[test]
fn shiftjis_empty_returns_none() {
    assert_eq!(collect_shiftjis(&[]), vec![]);
}

#[test]
fn shiftjis_ascii_bytes() {
    assert_eq!(collect_shiftjis(b"AB"), vec![65, 66]);
}

#[test]
fn shiftjis_high_byte_range_1() {
    // 0x80-0x9F range
    assert_eq!(collect_shiftjis(&[0x81, 0x40]), vec![0x8140]);
}

#[test]
fn shiftjis_high_byte_range_2() {
    // 0xE0-0xEF range
    assert_eq!(collect_shiftjis(&[0xEA, 0x40]), vec![0xEA40]);
}

#[test]
fn shiftjis_non_high_byte_treated_as_single() {
    // 0xA0-0xDF and 0xF0-0xFF are NOT high bytes in Shift-JIS
    assert_eq!(collect_shiftjis(&[0xA0, 0xA1]), vec![0xA0, 0xA1]);
}

#[test]
fn shiftjis_mixed_content() {
    // ASCII + high-byte pair + ASCII
    assert_eq!(collect_shiftjis(&[0x41, 0x81, 0x40, 0x42]), vec![0x41, 0x8140, 0x42]);
}

#[test]
fn shiftjis_trailing_high_byte() {
    assert_eq!(collect_shiftjis(&[0x81]), vec![0x81]);
}

#[test]
fn shiftjis_high_byte_boundaries() {
    // 0x9F is last byte of first high-byte range
    assert_eq!(collect_shiftjis(&[0x9F, 0x40]), vec![0x9F40]);
    // 0xEF is last byte of second high-byte range
    assert_eq!(collect_shiftjis(&[0xEF, 0x40]), vec![0xEF40]);
    // 0x7F is NOT a high byte
    assert_eq!(collect_shiftjis(&[0x7F, 0x40]), vec![0x7F, 0x40]);
}

/* HZ tests */

#[test]
fn hz_empty_returns_none() {
    assert_eq!(collect_hz(&[]), vec![]);
}

#[test]
fn hz_ascii_default_mode() {
    assert_eq!(collect_hz(b"AB"), vec![65, 66]);
}

#[test]
fn hz_enter_two_byte_mode() {
    // ~{ enters two-byte mode, then two bytes form a pair
    assert_eq!(collect_hz(&[b'~', b'{', 0xA1, 0xA1]), vec![0xA1A1]);
}

#[test]
fn hz_exit_two_byte_mode() {
    // ~{ enters two-byte mode, ~} exits back to ASCII mode
    assert_eq!(
        collect_hz(&[b'~', b'{', 0xA1, 0xA1, b'~', b'}', b'A']),
        vec![0xA1A1, 65]
    );
}

#[test]
fn hz_tilde_tilde_escape() {
    // ~~ produces a literal tilde
    assert_eq!(collect_hz(&[b'~', b'~']), vec![b'~' as i32]);
}

#[test]
fn hz_stray_tilde_x() {
    // ~X (where X is not {, }, or ~) is removed from input per spec
    assert_eq!(collect_hz(&[b'~', b'X', b'A']), vec![65]);
}

#[test]
fn hz_trailing_tilde_at_end() {
    // Lone ~ at end of input: consumed silently
    assert_eq!(collect_hz(&[b'~']), vec![]);
}

#[test]
fn hz_two_byte_trailing_single_byte() {
    // In two-byte mode, odd byte at end yields single byte
    assert_eq!(
        collect_hz(&[b'~', b'{', 0xA1, 0xA2, 0xA3]),
        vec![0xA1A2, 0xA3]
    );
}

#[test]
fn hz_multiple_mode_switches() {
    // Switch modes multiple times
    assert_eq!(
        collect_hz(&[
            b'A',                   // ASCII: 65
            b'~', b'{',             // Enter two-byte
            0xA1, 0xA2,             // Two-byte: 0xA1A2
            b'~', b'}',             // Exit two-byte
            b'B',                   // ASCII: 66
            b'~', b'{',             // Enter two-byte again
            0xB1, 0xB2,             // Two-byte: 0xB1B2
        ]),
        vec![65, 0xA1A2, 66, 0xB1B2]
    );
}

#[test]
fn hz_stray_tilde_preserves_mode() {
    // ~{ enters two-byte, ~X is removed silently without affecting mode,
    // subsequent bytes are still decoded as two-byte pairs
    assert_eq!(
        collect_hz(&[b'~', b'{', b'~', b'X', 0xA1, 0xA2]),
        vec![0xA1A2]
    );
}

/* Latin1 tests */

#[test]
fn latin1_basic() {
    assert_eq!(collect(&[0x41, 0x42, 0x43], InputEncoding::Latin1), vec![0x41, 0x42, 0x43]);
}

#[test]
fn latin1_high_bytes() {
    assert_eq!(collect(&[0xE9, 0xF1], InputEncoding::Latin1), vec![0xE9, 0xF1]);
}

#[test]
fn latin1_empty() {
    assert_eq!(collect(&[], InputEncoding::Latin1), vec![]);
}

/* StreamingDecoder tests - cross-line state preservation */

#[test]
fn streaming_hz_two_byte_persists_across_lines() {
    // ~{ on line 1 should keep two-byte mode for line 2
    let mut dec = StreamingDecoder::new(InputEncoding::HZ, None);
    let line1 = dec.decode_bytes(&[b'~', b'{', 0xA1, 0xA2]);
    let line2 = dec.decode_bytes(&[0xB1, 0xB2]);
    assert_eq!(line1, vec![0xA1A2]);
    assert_eq!(line2, vec![0xB1B2]);
}

#[test]
fn streaming_hz_exit_mode_persists_across_lines() {
    // ~} on line 2 should exit two-byte mode started on line 1
    let mut dec = StreamingDecoder::new(InputEncoding::HZ, None);
    let line1 = dec.decode_bytes(&[b'~', b'{', 0xA1, 0xA2]);
    let line2 = dec.decode_bytes(&[b'~', b'}', b'A', b'B']);
    assert_eq!(line1, vec![0xA1A2]);
    assert_eq!(line2, vec![65, 66]);
}

#[test]
fn streaming_utf8_no_state_preservation_needed() {
    // UTF-8 has no state, streaming should work identically to per-call
    let mut dec = StreamingDecoder::new(InputEncoding::UTF8, None);
    assert_eq!(dec.decode_bytes(b"Hello"), vec![72, 101, 108, 108, 111]);
    assert_eq!(dec.decode_bytes(b"World"), vec![87, 111, 114, 108, 100]);
}

#[test]
fn streaming_latin1_no_state_preservation_needed() {
    let mut dec = StreamingDecoder::new(InputEncoding::Latin1, None);
    assert_eq!(dec.decode_bytes(&[0xE9, 0xF1]), vec![0xE9, 0xF1]);
    assert_eq!(dec.decode_bytes(&[0x41, 0x42]), vec![0x41, 0x42]);
}

#[test]
fn streaming_iso2022_gregister_persists_across_lines() {
    // ESC(B designates G0 as US-ASCII on line 1,
    // line 2 should still use the default G0
    let mut dec = StreamingDecoder::new(InputEncoding::ISO2022, None);
    let line1 = dec.decode_bytes(b"ABC");
    let line2 = dec.decode_bytes(b"DEF");
    assert_eq!(line1, vec![65, 66, 67]);
    assert_eq!(line2, vec![68, 69, 70]);
}

#[test]
fn streaming_iso2022_esc_sequence_on_line() {
    // ESC sequence in the middle of line
    let mut dec = StreamingDecoder::new(InputEncoding::ISO2022, None);
    // ESC n switches GL to G2
    let line1 = dec.decode_bytes(&[0x1B, b'n', b'A', b'B']);
    assert_eq!(line1, vec![65, 66]);
}

#[test]
fn streaming_iso2022_so_si_persists_across_lines() {
    // SO switches GL to G1 on line 1, should persist to line 2
    // Default G1 = 0x80, so 'A' -> 0x80 | 0x41 = 0xC1 = 193
    let mut dec = StreamingDecoder::new(InputEncoding::ISO2022, None);
    let line1 = dec.decode_bytes(&[0x0E, b'A']);
    let line2 = dec.decode_bytes(&[b'B']);
    assert_eq!(line1, vec![0x80 | 0x41]);
    assert_eq!(line2, vec![0x80 | 0x42]); // GL=G1 persists from line 1
}

#[test]
fn streaming_iso2022_esc_n_ss2() {
    // Designate G2 with ESC * D, then ESC N invokes it for one char
    // gn[2] = 0x44 << 16 = 0x440000, so 'A' -> 0x440041, 'B' restores to G0 -> 0x42
    let mut dec = StreamingDecoder::new(InputEncoding::ISO2022, None);
    let result = dec.decode_bytes(&[0x1B, b'*', b'D', 0x1B, b'N', b'A', b'B']);
    assert_eq!(result, vec![0x440041, 0x42]);
}

#[test]
fn streaming_iso2022_esc_o_ss3() {
    // Designate G3 with ESC + E, then ESC O invokes it for one char
    // gn[3] = 0x45 << 16 = 0x450000, so 'A' -> 0x450041, 'B' restores to G0 -> 0x42
    let mut dec = StreamingDecoder::new(InputEncoding::ISO2022, None);
    let result = dec.decode_bytes(&[0x1B, b'+', b'E', 0x1B, b'O', b'A', b'B']);
    assert_eq!(result, vec![0x450041, 0x42]);
}

#[test]
fn streaming_iso2022_94x94_double_byte() {
    // ESC $( X designates G0 as 94x94 with designator X
    // Then 'A' 'B' should produce double-byte code 0x584142
    let mut dec = StreamingDecoder::new(InputEncoding::ISO2022, None);
    let result = dec.decode_bytes(&[0x1B, b'$', b'(', b'X', b'A', b'B']);
    assert_eq!(result, vec![0x584142]);
}
