//! Reading FIGfont files (`flf2a`, and the `tlf2a` variant).
//!
//! A FIGfont file is a header line, comment lines, the FIGcharacters of the
//! codes 32..=126 and of seven German letters, one after the other, and then
//! any number of FIGcharacters each preceded by a line that gives its code.
//! Every FIGcharacter is `height` lines; each line ends with an end mark,
//! which is removed with all its repetitions.

use vstd::prelude::*;
use crate::Error;
use crate::figfont::{FIGchar, FIGfont, glyph_in, filed};
use crate::smusher::lines_of;
use crate::text::{str_chars, take_chars};
use crate::wrapper::{segments, split_lf};

verus! {

/// White space as C's `isspace` knows it.
pub open spec fn is_space(c: char) -> bool {
    c == ' ' || c == '\t' || c == '\n' || c == '\x0B' || c == '\x0C' || c == '\r'
}

fn is_space_char(c: char) -> (r: bool)
    ensures
        r == is_space(c),
{
    c == ' ' || c == '\t' || c == '\n' || c == '\x0B' || c == '\x0C' || c == '\r'
}

/// `l` without its trailing white space.
pub open spec fn trim_end_ws(l: Seq<char>) -> Seq<char>
    decreases l.len(),
{
    if l.len() > 0 && is_space(l.last()) {
        trim_end_ws(l.drop_last())
    } else {
        l
    }
}

/// `l` without the copies of `c` at its end.
pub open spec fn trim_end_char(l: Seq<char>, c: char) -> Seq<char>
    decreases l.len(),
{
    if l.len() > 0 && l.last() == c {
        trim_end_char(l.drop_last(), c)
    } else {
        l
    }
}

/// A row of a FIGcharacter as the file gives it: trailing white space goes,
/// then the end mark (the last character left) with all its repetitions.
pub open spec fn strip_row(l: Seq<char>) -> Seq<char> {
    let t = trim_end_ws(l);
    if t.len() == 0 {
        t
    } else {
        trim_end_char(t, t.last())
    }
}

/// The row `l` of a FIGcharacter without white space and end marks.
fn strip_line(l: &Vec<char>) -> (r: Vec<char>)
    ensures
        r@ == strip_row(l@),
{
    let mut end: usize = l.len();
    assert(l@.take(end as int) =~= l@);
    while end > 0 && is_space_char(l[end - 1])
        invariant
            end <= l@.len(),
            trim_end_ws(l@) == trim_end_ws(l@.take(end as int)),
        decreases end,
    {
        assert(l@.take(end as int).drop_last() =~= l@.take(end - 1));
        end -= 1;
    }
    assert(trim_end_ws(l@) == l@.take(end as int)) by {
        if end > 0 {
            assert(l@.take(end as int).last() == l@[end - 1]);
        }
    }
    if end == 0 {
        return take_chars(l, 0);
    }
    let mark = l[end - 1];
    let ghost t = l@.take(end as int);
    assert(t.last() == mark);
    while end > 0 && l[end - 1] == mark
        invariant
            end <= t.len(),
            t == l@.take(t.len() as int),
            t.len() <= l@.len(),
            trim_end_char(t, mark) == trim_end_char(l@.take(end as int), mark),
        decreases end,
    {
        assert(l@.take(end as int).drop_last() =~= l@.take(end - 1));
        end -= 1;
    }
    assert(trim_end_char(t, mark) == l@.take(end as int)) by {
        if end > 0 {
            assert(l@.take(end as int).last() == l@[end - 1]);
        }
    }
    take_chars(l, end)
}

/// The first index from `i` on that is not white space.
pub open spec fn ws_end(s: Seq<char>, i: int) -> int
    decreases s.len() - i,
{
    if 0 <= i < s.len() && is_space(s[i]) {
        ws_end(s, i + 1)
    } else {
        i
    }
}

/// The first index from `i` on that is white space (or the end).
pub open spec fn tok_end(s: Seq<char>, i: int) -> int
    decreases s.len() - i,
{
    if 0 <= i < s.len() && !is_space(s[i]) {
        tok_end(s, i + 1)
    } else {
        i
    }
}

/// Where the token after position `i` ends.
pub open spec fn next_cursor(s: Seq<char>, i: int) -> int {
    tok_end(s, ws_end(s, i))
}

/// The token after position `i`: white space skipped, then the characters
/// up to the next white space.
pub open spec fn token_at(s: Seq<char>, i: int) -> Seq<char> {
    s.subrange(ws_end(s, i), next_cursor(s, i))
}

/// Where the token after position `i` of `s` starts and ends.
fn token_bounds(s: &Vec<char>, i: usize) -> (r: (usize, usize))
    requires
        i <= s@.len(),
    ensures
        r.0 == ws_end(s@, i as int),
        r.1 == next_cursor(s@, i as int),
        i <= r.0 <= r.1 <= s@.len(),
{
    let mut a: usize = i;
    while a < s.len() && is_space_char(s[a])
        invariant
            i <= a <= s@.len(),
            ws_end(s@, i as int) == ws_end(s@, a as int),
        decreases s@.len() - a,
    {
        a += 1;
    }
    let mut b: usize = a;
    while b < s.len() && !is_space_char(s[b])
        invariant
            a <= b <= s@.len(),
            tok_end(s@, a as int) == tok_end(s@, b as int),
        decreases s@.len() - b,
    {
        b += 1;
    }
    (a, b)
}

/// The value of a digit in bases up to 16 (99 for a character that is no
/// digit).
pub open spec fn digit_val(c: char) -> int {
    if '0' <= c <= '9' {
        c as int - '0' as int
    } else if 'a' <= c <= 'f' {
        c as int - 'a' as int + 10
    } else if 'A' <= c <= 'F' {
        c as int - 'A' as int + 10
    } else {
        99
    }
}

fn digit_value(c: char) -> (r: u32)
    ensures
        r == digit_val(c),
{
    if '0' <= c && c <= '9' {
        (c as u32) - ('0' as u32)
    } else if 'a' <= c && c <= 'f' {
        (c as u32) - ('a' as u32) + 10
    } else if 'A' <= c && c <= 'F' {
        (c as u32) - ('A' as u32) + 10
    } else {
        99
    }
}

/// Every character of `d` is a digit of `base`.
pub open spec fn all_digits(d: Seq<char>, base: int) -> bool {
    forall|i: int| 0 <= i < d.len() ==> digit_val(#[trigger] d[i]) < base
}

/// The number that the digits `d` write in `base`.
pub open spec fn digits_val(d: Seq<char>, base: int) -> int
    decreases d.len(),
{
    if d.len() == 0 {
        0
    } else {
        digits_val(d.drop_last(), base) * base + digit_val(d.last())
    }
}

proof fn lemma_digits_grow(d: Seq<char>, base: int, i: int)
    requires
        base >= 1,
        0 <= i <= d.len(),
    ensures
        0 <= digits_val(d.take(i), base) <= digits_val(d, base),
    decreases d.len(),
{
    if i < d.len() {
        assert(d.drop_last().take(i) =~= d.take(i));
        lemma_digits_grow(d.drop_last(), base, i);
        let v = digits_val(d.drop_last(), base);
        assert(v * base >= v) by (nonlinear_arith)
            requires
                v >= 0,
                base >= 1,
        ;
    } else {
        assert(d.take(i) =~= d);
        lemma_digits_nonneg(d, base);
    }
}

proof fn lemma_digits_nonneg(d: Seq<char>, base: int)
    requires
        base >= 1,
    ensures
        digits_val(d, base) >= 0,
    decreases d.len(),
{
    if d.len() > 0 {
        lemma_digits_nonneg(d.drop_last(), base);
        let v = digits_val(d.drop_last(), base);
        assert(v * base >= 0) by (nonlinear_arith)
            requires
                v >= 0,
                base >= 1,
        ;
    }
}

/// The largest magnitude a number of a font file may have.
pub const NUM_CAP: i64 = 0x8000_0000;

/// The value of `s[a..b]` as digits of `base`, when they all are digits
/// and the value is at most `NUM_CAP`.
fn digits_value(s: &Vec<char>, a: usize, b: usize, base: u32) -> (r: Option<i64>)
    requires
        a <= b <= s@.len(),
        2 <= base <= 16,
    ensures
        ({
            let d = s@.subrange(a as int, b as int);
            r == if all_digits(d, base as int) && digits_val(d, base as int) <= NUM_CAP {
                Some(digits_val(d, base as int) as i64)
            } else {
                None::<i64>
            }
        }),
        r matches Some(x) ==> 0 <= x <= NUM_CAP,
{
    let ghost d = s@.subrange(a as int, b as int);
    let mut v: i64 = 0;
    let mut k: usize = a;
    while k < b
        invariant
            a <= k <= b <= s@.len(),
            2 <= base <= 16,
            d == s@.subrange(a as int, b as int),
            all_digits(d.take(k - a), base as int),
            v == digits_val(d.take(k - a), base as int),
            0 <= v <= NUM_CAP,
        decreases b - k,
    {
        let dv = digit_value(s[k]);
        assert(d[k - a] == s@[k as int]);
        if dv >= base {
            assert(!all_digits(d, base as int)) by {
                assert(digit_val(d[k - a]) >= base);
            }
            return None;
        }
        proof {
            assert(d.take(k - a + 1).drop_last() =~= d.take(k - a));
            assert(d.take(k - a + 1).last() == s@[k as int]);
        }
        let ghost nv = v * (base as int) + dv as int;
        assert(nv <= NUM_CAP * 16 + 16) by (nonlinear_arith)
            requires
                nv == v * (base as int) + dv as int,
                0 <= v <= NUM_CAP,
                base <= 16,
                dv < 16,
        ;
        assert(nv >= 0) by (nonlinear_arith)
            requires
                nv == v * (base as int) + dv as int,
                0 <= v,
                base >= 2,
                dv >= 0,
        ;
        v = v * (base as i64) + dv as i64;
        k += 1;
        assert(all_digits(d.take(k - a), base as int)) by {
            assert forall|i: int| 0 <= i < d.take(k - a).len() implies digit_val(
                #[trigger] d.take(k - a)[i],
            ) < base by {
                if i < k - a - 1 {
                    assert(d.take(k - a)[i] == d.take(k - a - 1)[i]);
                }
            }
        }
        if v > NUM_CAP {
            proof {
                lemma_digits_grow(d, base as int, k - a);
            }
            return None;
        }
    }
    assert(d.take(k - a) =~= d);
    proof {
        lemma_digits_nonneg(d, base as int);
    }
    Some(v)
}


/// A decimal number as a whole token: an optional sign, then one or more
/// digits.
pub open spec fn parse_dec(t: Seq<char>) -> Option<int> {
    let signed = t.len() > 0 && (t[0] == '-' || t[0] == '+');
    let d = if signed {
        t.skip(1)
    } else {
        t
    };
    if d.len() > 0 && all_digits(d, 10) {
        Some(
            if t.len() > 0 && t[0] == '-' {
                -digits_val(d, 10)
            } else {
                digits_val(d, 10)
            },
        )
    } else {
        None
    }
}

/// The base and the digits of a character code written without its sign:
/// hexadecimal after `0x` or `0X`, octal after a leading `0`, else decimal.
pub open spec fn code_digits(d: Seq<char>) -> (int, Seq<char>) {
    if d.len() >= 2 && d[0] == '0' && (d[1] == 'x' || d[1] == 'X') {
        (16, d.skip(2))
    } else if d.len() >= 1 && d[0] == '0' {
        (8, d.skip(1))
    } else {
        (10, d)
    }
}

/// A character code as a whole token: an optional minus, then a number in
/// the base that `code_digits` reads (`0` alone is zero).
pub open spec fn parse_code(t: Seq<char>) -> Option<int> {
    let neg = t.len() > 0 && t[0] == '-';
    let d = if neg {
        t.skip(1)
    } else {
        t
    };
    let (base, ds) = code_digits(d);
    if d.len() > 0 && (ds.len() > 0 || base == 8) && all_digits(ds, base) {
        Some(
            if neg {
                -digits_val(ds, base)
            } else {
                digits_val(ds, base)
            },
        )
    } else {
        None
    }
}

/// A number that fits in `i32`.
pub open spec fn in_i32(v: Option<int>) -> Option<i32> {
    match v {
        Some(x) => if i32::MIN <= x <= i32::MAX {
            Some(x as i32)
        } else {
            None
        },
        None => None,
    }
}

/// The number that `s[a..b]` writes (a character code when `code`, else a
/// decimal number), when it fits in `i32`.
fn read_number(s: &Vec<char>, a: usize, b: usize, code: bool) -> (r: Option<i32>)
    requires
        a <= b <= s@.len(),
    ensures
        r == in_i32(
            if code {
                parse_code(s@.subrange(a as int, b as int))
            } else {
                parse_dec(s@.subrange(a as int, b as int))
            },
        ),
{
    let ghost t = s@.subrange(a as int, b as int);
    let neg = a < b && s[a] == '-';
    let signed = a < b && (s[a] == '-' || (!code && s[a] == '+'));
    let start = if signed {
        a + 1
    } else {
        a
    };
    let ghost d = s@.subrange(start as int, b as int);
    assert(d =~= if signed {
        t.skip(1)
    } else {
        t
    });
    if start >= b {
        return None;
    }
    let mut base: u32 = 10;
    let mut first = start;
    if code {
        if b - start >= 2 && s[start] == '0' && (s[start + 1] == 'x' || s[start + 1] == 'X') {
            base = 16;
            first = start + 2;
        } else if s[start] == '0' {
            base = 8;
            first = start + 1;
        }
        assert(code_digits(d) == (base as int, s@.subrange(first as int, b as int))) by {
            assert(d[0] == s@[start as int]);
            if b - start >= 2 {
                assert(d[1] == s@[start + 1]);
                assert(d.skip(2) =~= s@.subrange(start + 2, b as int));
            }
            assert(d.skip(1) =~= s@.subrange(start + 1, b as int));
        }
        if first >= b && base != 8 {
            return None;
        }
    }
    assert(!code ==> s@.subrange(first as int, b as int) == d);
    assert(t[0] == s@[a as int]);
    let ghost ds = s@.subrange(first as int, b as int);
    let v = digits_value(s, first, b, base);
    match v {
        None => {
            proof {
                if all_digits(ds, base as int) {
                    lemma_digits_nonneg(ds, base as int);
                }
                if code {
                    assert(code_digits(d) == (base as int, ds));
                } else {
                    assert(d == ds);
                }
            }
            None
        },
        Some(x) => {
            let y: i64 = if neg {
                -x
            } else {
                x
            };
            proof {
                lemma_digits_nonneg(ds, base as int);
                if code {
                    assert(code_digits(d).1 == ds);
                    assert(code_digits(d).0 == base);
                    assert(parse_code(t) == Some(y as int));
                } else {
                    assert(d == ds);
                    assert(parse_dec(t) == Some(y as int));
                }
            }
            if y < (i32::MIN as i64) || y > (i32::MAX as i64) {
                None
            } else {
                Some(y as i32)
            }
        },
    }
}

/// The numbers of a header line.
pub struct FlfHeader {
    pub hardblank: char,
    pub height: int,
    pub baseline: int,
    pub max_length: int,
    pub old_layout: int,
    pub comment_lines: int,
    pub print_direction: Option<int>,
    pub full_layout: Option<int>,
}

/// The signature of a FIGfont file, `flf2a`, or `tlf2a`.
pub open spec fn has_signature(l: Seq<char>) -> bool {
    l.len() >= 5 && (l[0] == 'f' || l[0] == 't') && l[1] == 'l' && l[2] == 'f' && l[3] == '2'
        && l[4] == 'a'
}

/// The header line `l`: the signature, the hardblank right after it, and
/// then the numbers height, baseline, longest line, old layout and number
/// of comment lines, optionally followed by the print direction and the
/// full layout. The height is at least one; baseline, longest line, comment
/// lines and full layout are not negative; every number fits in `i32`.
pub open spec fn flf_header(l: Seq<char>) -> Option<FlfHeader> {
    if l.len() < 6 || !has_signature(l) {
        None
    } else {
        let c0 = 6int;
        let n1 = in_i32(parse_dec(token_at(l, c0)));
        let c1 = next_cursor(l, c0);
        let n2 = in_i32(parse_dec(token_at(l, c1)));
        let c2 = next_cursor(l, c1);
        let n3 = in_i32(parse_dec(token_at(l, c2)));
        let c3 = next_cursor(l, c2);
        let n4 = in_i32(parse_dec(token_at(l, c3)));
        let c4 = next_cursor(l, c3);
        let n5 = in_i32(parse_dec(token_at(l, c4)));
        let c5 = next_cursor(l, c4);
        let n6 = in_i32(parse_dec(token_at(l, c5)));
        let c6 = next_cursor(l, c5);
        let n7 = in_i32(parse_dec(token_at(l, c6)));
        if n1 is Some && n2 is Some && n3 is Some && n4 is Some && n5 is Some {
            let height = n1.unwrap() as int;
            let full = if n6 is Some {
                match n7 {
                    Some(v) => Some(v as int),
                    None => None,
                }
            } else {
                None
            };
            if height >= 1 && n2.unwrap() >= 0 && n3.unwrap() >= 0 && n5.unwrap() >= 0 && (
            full matches Some(v) ==> v >= 0) {
                Some(
                    FlfHeader {
                        hardblank: l[5],
                        height: height,
                        baseline: n2.unwrap() as int,
                        max_length: n3.unwrap() as int,
                        old_layout: n4.unwrap() as int,
                        comment_lines: n5.unwrap() as int,
                        print_direction: match n6 {
                            Some(v) => Some(v as int),
                            None => None,
                        },
                        full_layout: full,
                    },
                )
            } else {
                None
            }
        } else {
            None
        }
    }
}

/// The layout bits of a font: the full layout when the header gives it,
/// else the old layout turned into bits (0 is kerning, -1 full width, and
/// smushing rules plus one otherwise).
pub open spec fn flf_layout(h: FlfHeader) -> int {
    match h.full_layout {
        Some(v) => v,
        None => if h.old_layout == 0 {
            64
        } else if h.old_layout < 0 {
            0
        } else {
            h.old_layout % 32 + 128
        },
    }
}

/// A header as numbers of the machine.
struct HeaderVals {
    hardblank: char,
    height: usize,
    baseline: usize,
    max_length: usize,
    old_layout: i32,
    comment_lines: usize,
    print_direction: Option<i32>,
    full_layout: Option<i32>,
}

impl HeaderVals {
    spec fn view_as(self, h: FlfHeader) -> bool {
        &&& self.hardblank == h.hardblank
        &&& self.height == h.height
        &&& self.baseline == h.baseline
        &&& self.max_length == h.max_length
        &&& self.old_layout == h.old_layout
        &&& self.comment_lines == h.comment_lines
        &&& match (self.print_direction, h.print_direction) {
            (Some(a), Some(b)) => a == b,
            (None, None) => true,
            _ => false,
        }
        &&& match (self.full_layout, h.full_layout) {
            (Some(a), Some(b)) => a == b,
            (None, None) => true,
            _ => false,
        }
    }
}

/// The number of the token after position `i` of `s` (a character code
/// when `code`), and the position after the token.
fn number_at(s: &Vec<char>, i: usize, code: bool) -> (r: (Option<i32>, usize))
    requires
        i <= s@.len(),
    ensures
        r.0 == in_i32(
            if code {
                parse_code(token_at(s@, i as int))
            } else {
                parse_dec(token_at(s@, i as int))
            },
        ),
        r.1 == next_cursor(s@, i as int),
        i <= r.1 <= s@.len(),
{
    let (a, b) = token_bounds(s, i);
    (read_number(s, a, b, code), b)
}

/// Read the header line `l`.
fn parse_header(l: &Vec<char>) -> (r: Option<HeaderVals>)
    ensures
        match flf_header(l@) {
            Some(h) => r matches Some(v) && v.view_as(h),
            None => r is None,
        },
{
    if l.len() < 6 || !((l[0] == 'f' || l[0] == 't') && l[1] == 'l' && l[2] == 'f' && l[3] == '2'
        && l[4] == 'a') {
        return None;
    }
    let (n1, c1) = number_at(l, 6, false);
    let (n2, c2) = number_at(l, c1, false);
    let (n3, c3) = number_at(l, c2, false);
    let (n4, c4) = number_at(l, c3, false);
    let (n5, c5) = number_at(l, c4, false);
    let (n6, c6) = number_at(l, c5, false);
    let (n7, _c7) = number_at(l, c6, false);
    match (n1, n2, n3, n4, n5) {
        (Some(height), Some(baseline), Some(max_length), Some(old_layout), Some(comment_lines)) => {
            let full = if n6.is_some() {
                n7
            } else {
                None
            };
            let full_ok = match full {
                Some(v) => v >= 0,
                None => true,
            };
            if height >= 1 && baseline >= 0 && max_length >= 0 && comment_lines >= 0 && full_ok {
                Some(
                    HeaderVals {
                        hardblank: l[5],
                        height: height as usize,
                        baseline: baseline as usize,
                        max_length: max_length as usize,
                        old_layout,
                        comment_lines: comment_lines as usize,
                        print_direction: n6,
                        full_layout: full,
                    },
                )
            } else {
                None
            }
        },
        _ => None,
    }
}


/// The lines of a file: the pieces between line feeds, without the empty
/// piece after a final line feed.
pub open spec fn file_lines(s: Seq<char>) -> Seq<Seq<char>> {
    if s.len() > 0 && s.last() == '\n' {
        segments(s).drop_last()
    } else {
        segments(s)
    }
}

fn split_file_lines(s: &Vec<char>) -> (r: Vec<Vec<char>>)
    ensures
        lines_of(r@) == file_lines(s@),
{
    let mut v = split_lf(s);
    if s.len() > 0 && s[s.len() - 1] == '\n' {
        proof {
            crate::wrapper::lemma_segments_nonempty(s@);
        }
        let ghost before = lines_of(v@);
        v.pop();
        assert(lines_of(v@) =~= before.drop_last());
    }
    v
}

/// The code of the `k`-th FIGcharacter that every font has: 32..=126, then
/// Ä, Ö, Ü, ä, ö, ü and ß.
pub open spec fn required_code(k: int) -> i32 {
    if k < 95 {
        (32 + k) as i32
    } else if k == 95 {
        196
    } else if k == 96 {
        214
    } else if k == 97 {
        220
    } else if k == 98 {
        228
    } else if k == 99 {
        246
    } else if k == 100 {
        252
    } else {
        223
    }
}

/// The number of FIGcharacters that every font has.
pub const REQUIRED_CHARS: usize = 102;

fn required_code_of(k: usize) -> (r: i32)
    requires
        k < REQUIRED_CHARS,
    ensures
        r == required_code(k as int),
{
    if k < 95 {
        32 + k as i32
    } else if k == 95 {
        196
    } else if k == 96 {
        214
    } else if k == 97 {
        220
    } else if k == 98 {
        228
    } else if k == 99 {
        246
    } else if k == 100 {
        252
    } else {
        223
    }
}

/// The rows of the FIGcharacter whose `h` lines start at line `start`.
pub open spec fn glyph_rows(ls: Seq<Seq<char>>, start: int, h: nat) -> Seq<Seq<char>> {
    Seq::new(h, |i: int| strip_row(ls[start + i]))
}

/// The FIGcharacters that every font has, from the `k`-th on, read from
/// line `pos`: the codes and rows, the line after them, and whether all were
/// there (reading stops at the first one that the file cuts short).
pub open spec fn required_entries(ls: Seq<Seq<char>>, pos: int, h: nat, k: nat) -> (Seq<(i32, Seq<Seq<char>>)>, int, bool)
    decreases REQUIRED_CHARS - k,
{
    if k >= REQUIRED_CHARS {
        (Seq::empty(), pos, true)
    } else if pos + h <= ls.len() {
        let r = required_entries(ls, pos + h, h, k + 1);
        (seq![(required_code(k as int), glyph_rows(ls, pos, h))] + r.0, r.1, r.2)
    } else {
        (Seq::empty(), pos, false)
    }
}

/// The code that a code line gives: its first token, read as a character
/// code that fits in `i32`.
pub open spec fn code_of_line(l: Seq<char>) -> Option<i32> {
    in_i32(parse_code(token_at(l, 0)))
}

/// The FIGcharacters with code lines, from line `pos` on: reading stops at
/// a line that gives no code, or at a FIGcharacter that the file cuts short.
pub open spec fn tagged_entries(ls: Seq<Seq<char>>, pos: int, h: nat) -> Seq<(i32, Seq<Seq<char>>)>
    decreases ls.len() - pos,
{
    if pos < 0 || pos >= ls.len() {
        Seq::empty()
    } else {
        match code_of_line(ls[pos]) {
            None => Seq::empty(),
            Some(c) => if pos + 1 + h <= ls.len() {
                seq![(c, glyph_rows(ls, pos + 1, h))] + tagged_entries(ls, pos + 1 + h, h)
            } else {
                Seq::empty()
            },
        }
    }
}

/// The FIGcharacters of the file with the lines `ls` and the header `hd`,
/// in the order of the file.
pub open spec fn flf_entries(ls: Seq<Seq<char>>, hd: FlfHeader) -> Seq<(i32, Seq<Seq<char>>)> {
    let (req, next, complete) = required_entries(ls, 1 + hd.comment_lines, hd.height as nat, 0);
    if complete {
        req + tagged_entries(ls, next, hd.height as nat)
    } else {
        req
    }
}

/// The rows filed last under `c`: a later FIGcharacter of a code replaces
/// an earlier one.
pub open spec fn last_glyph(e: Seq<(i32, Seq<Seq<char>>)>, c: i32) -> Option<Seq<Seq<char>>>
    decreases e.len(),
{
    if e.len() == 0 {
        None
    } else if e.last().0 == c {
        Some(e.last().1)
    } else {
        last_glyph(e.drop_last(), c)
    }
}

/// The rows of the FIGcharacter whose `h` lines start at line `start`.
fn read_rows(lines: &Vec<Vec<char>>, start: usize, h: usize) -> (r: Vec<Vec<char>>)
    requires
        start + h <= lines@.len(),
    ensures
        lines_of(r@) == glyph_rows(lines_of(lines@), start as int, h as nat),
{
    let ghost ls = lines_of(lines@);
    let mut rows: Vec<Vec<char>> = Vec::new();
    let mut i: usize = 0;
    while i < h
        invariant
            start + h <= lines.len(),
            ls == lines_of(lines@),
            i <= h,
            lines_of(rows@) == glyph_rows(ls, start as int, h as nat).take(i as int),
        decreases h - i,
    {
        let ghost before = lines_of(rows@);
        assert(start + i < lines.len());
        let row = strip_line(&lines[start + i]);
        rows.push(row);
        proof {
            assert(ls[start + i] == lines@[start + i]@);
            assert(lines_of(rows@) =~= before.push(row@));
            assert(glyph_rows(ls, start as int, h as nat).take(i + 1) =~= glyph_rows(
                ls,
                start as int,
                h as nat,
            ).take(i as int).push(strip_row(ls[start + i])));
        }
        i += 1;
    }
    assert(glyph_rows(ls, start as int, h as nat).take(i as int) =~= glyph_rows(
        ls,
        start as int,
        h as nat,
    ));
    rows
}

/// The rows last filed under a code, after filing `e` too.
proof fn lemma_last_glyph_push(done: Seq<(i32, Seq<Seq<char>>)>, e: (i32, Seq<Seq<char>>), c: i32)
    ensures
        last_glyph(done.push(e), c) == if c == e.0 {
            Some(e.1)
        } else {
            last_glyph(done, c)
        },
{
    assert(done.push(e).drop_last() =~= done);
}

/// Reading stops once the start line is past the end.
proof fn lemma_required_past_end(ls: Seq<Seq<char>>, pos: int, h: nat, k: nat)
    requires
        pos >= ls.len(),
        h >= 1,
        k < REQUIRED_CHARS,
    ensures
        required_entries(ls, pos, h, k) == (Seq::<(i32, Seq<Seq<char>>)>::empty(), pos, false),
{
}

impl FIGfont {
    /// Read a FIGfont from the text of its file. A text that does not start
    /// with a valid header is refused with `InvalidHeader`; otherwise the
    /// font has the header's parameters and, under each code, the
    /// FIGcharacter that the file gives last for it.
    pub fn parse(text: &str) -> (r: Result<FIGfont, Error>)
        ensures
            ({
                let ls = file_lines(text@);
                let hd = if ls.len() > 0 {
                    flf_header(ls[0])
                } else {
                    None
                };
                match hd {
                    None => r == Err::<FIGfont, Error>(Error::InvalidHeader),
                    Some(h) => r matches Ok(f) && {
                        &&& f.wf()
                        &&& f.hardblank == h.hardblank
                        &&& f.height == h.height
                        &&& f.baseline == h.baseline
                        &&& f.max_length == h.max_length
                        &&& f.old_layout == h.old_layout
                        &&& f.layout == flf_layout(h)
                        &&& f.right_to_left == (h.print_direction == Some(1int))
                        &&& f.entries() == filed(flf_entries(ls, h))
                        &&& forall|c: i32| #[trigger] f.glyph(c) == last_glyph(flf_entries(ls, h), c)
                    },
                }
            }),
    {
        let chars = str_chars(text);
        let lines = split_file_lines(&chars);
        let ghost ls = file_lines(text@);
        if lines.len() == 0 {
            return Err(Error::InvalidHeader);
        }
        assert(ls[0] == lines@[0]@);
        let hv = match parse_header(&lines[0]) {
            None => {
                return Err(Error::InvalidHeader);
            },
            Some(v) => v,
        };
        let ghost hd = flf_header(ls[0]).unwrap();
        let layout: u32 = match hv.full_layout {
            Some(v) => v as u32,
            None => {
                if hv.old_layout == 0 {
                    64
                } else if hv.old_layout < 0 {
                    0
                } else {
                    (hv.old_layout % 32) as u32 + 128
                }
            },
        };
        let rtl = match hv.print_direction {
            Some(d) => d == 1,
            None => false,
        };
        let mut font = FIGfont::default();
        font.hardblank = hv.hardblank;
        font.height = hv.height;
        font.baseline = hv.baseline;
        font.max_length = hv.max_length;
        font.old_layout = hv.old_layout;
        font.layout = layout;
        font.right_to_left = rtl;
        let h = hv.height;
        let ghost start = 1 + hd.comment_lines;
        let ghost total = required_entries(ls, start, h as nat, 0);
        let mut pos: usize = if hv.comment_lines < lines.len() {
            1 + hv.comment_lines
        } else {
            lines.len()
        };
        let ghost mut done: Seq<(i32, Seq<Seq<char>>)> = Seq::empty();
        let mut k: usize = 0;
        let mut complete = true;
        if hv.comment_lines >= lines.len() {
            proof {
                lemma_required_past_end(ls, start, h as nat, 0);
            }
            complete = false;
        }
        while k < REQUIRED_CHARS && complete
            invariant
                ls == lines_of(lines@),
                ls.len() == lines@.len(),
                font.wf(),
                font.height == h,
                h >= 1,
                font.hardblank == hd.hardblank,
                font.layout == layout,
                font.old_layout == hd.old_layout,
                font.right_to_left == rtl,
                font.baseline == hd.baseline,
                font.max_length == hd.max_length,
                pos <= lines@.len(),
                k <= REQUIRED_CHARS,
                total == required_entries(ls, start, h as nat, 0),
                complete ==> total.0 == done + required_entries(ls, pos as int, h as nat, k as nat).0,
                complete ==> total.1 == required_entries(ls, pos as int, h as nat, k as nat).1,
                complete ==> total.2 == required_entries(ls, pos as int, h as nat, k as nat).2,
                !complete ==> total.0 == done && !total.2,
                forall|c: i32| #[trigger] font.glyph(c) == last_glyph(done, c),
                font.entries() == filed(done),
            decreases REQUIRED_CHARS - k + (if complete { 1int } else { 0int }),
        {
            if h <= lines.len() - pos {
                let rows = read_rows(&lines, pos, h);
                let code = required_code_of(k);
                let fc = FIGchar::from_rows(rows);
                let ghost e = (code, glyph_rows(ls, pos as int, h as nat));
                assert(fc.rows() == e.1) by {
                    assert(fc.rows() =~= lines_of(rows@));
                }
                let ghost before = done;
                let ghost f0 = font;
                let _ = font.add_char(code, fc);
                proof {
                    done = done.push(e);
                    assert(done.drop_last() =~= before);
                    assert forall|c: i32| #[trigger] font.glyph(c) == last_glyph(done, c) by {
                        assert(f0.glyph(c) == last_glyph(before, c));
                        lemma_last_glyph_push(before, e, c);
                    }
                    let r = required_entries(ls, pos + h, h as nat, (k + 1) as nat);
                    assert(before + (seq![e] + r.0) =~= done + r.0);
                }
                pos += h;
                k += 1;
            } else {
                complete = false;
                assert(total.0 + Seq::<(i32, Seq<Seq<char>>)>::empty() =~= total.0);
                assert(done + Seq::<(i32, Seq<Seq<char>>)>::empty() =~= done);
            }
        }
        proof {
            if complete {
                assert(done + Seq::<(i32, Seq<Seq<char>>)>::empty() =~= done);
            }
        }
        if complete {
            let ghost base = done;
            let mut go = true;
            while go && pos < lines.len()
                invariant
                    ls == lines_of(lines@),
                    ls.len() == lines@.len(),
                    font.wf(),
                    font.height == h,
                    h >= 1,
                    font.hardblank == hd.hardblank,
                    font.layout == layout,
                    font.old_layout == hd.old_layout,
                    font.right_to_left == rtl,
                    font.baseline == hd.baseline,
                    font.max_length == hd.max_length,
                    pos <= lines@.len(),
                    total == required_entries(ls, start, h as nat, 0),
                    total.2,
                    go ==> base + tagged_entries(ls, total.1, h as nat) == done + tagged_entries(
                        ls,
                        pos as int,
                        h as nat,
                    ),
                    !go ==> base + tagged_entries(ls, total.1, h as nat) == done,
                    forall|c: i32| #[trigger] font.glyph(c) == last_glyph(done, c),
                    font.entries() == filed(done),
                decreases lines@.len() - pos + (if go { 1int } else { 0int }),
            {
                let (code, _) = number_at(&lines[pos], 0, true);
                assert(code == code_of_line(ls[pos as int]));
                match code {
                    None => {
                        go = false;
                        assert(done + Seq::<(i32, Seq<Seq<char>>)>::empty() =~= done);
                    },
                    Some(c) => {
                        if h <= lines.len() - pos - 1 {
                            let rows = read_rows(&lines, pos + 1, h);
                            let fc = FIGchar::from_rows(rows);
                            let ghost e = (c, glyph_rows(ls, pos + 1, h as nat));
                            assert(fc.rows() == e.1) by {
                                assert(fc.rows() =~= lines_of(rows@));
                            }
                            let ghost before = done;
                            let ghost f0 = font;
                            let _ = font.add_char(c, fc);
                            proof {
                                done = done.push(e);
                                assert(done.drop_last() =~= before);
                                assert forall|cc: i32| #[trigger] font.glyph(cc) == last_glyph(done, cc) by {
                                    assert(f0.glyph(cc) == last_glyph(before, cc));
                                    lemma_last_glyph_push(before, e, cc);
                                }
                                let r = tagged_entries(ls, pos + 1 + h, h as nat);
                                assert(before + (seq![e] + r) =~= done + r);
                            }
                            pos += 1 + h;
                        } else {
                            go = false;
                            assert(done + Seq::<(i32, Seq<Seq<char>>)>::empty() =~= done);
                        }
                    },
                }
            }
            proof {
                if go {
                    assert(done + Seq::<(i32, Seq<Seq<char>>)>::empty() =~= done);
                }
            }
        }
        Ok(font)
    }
}


/// Whether the bytes of a font file start with the ZIP signature `PK`: the
/// font is compressed.
pub fn is_zip_header(bytes: &[u8]) -> (r: bool)
    ensures
        r == (bytes@.len() >= 2 && bytes@[0] == 0x50 && bytes@[1] == 0x4B),
{
    bytes.len() >= 2 && bytes[0] == 0x50 && bytes[1] == 0x4B
}


proof fn lemma_trim_ws_tail(x: Seq<char>, ws: Seq<char>)
    requires
        x.len() > 0,
        !is_space(x.last()),
        forall|i: int| 0 <= i < ws.len() ==> is_space(#[trigger] ws[i]),
    ensures
        trim_end_ws(x + ws) == x,
    decreases ws.len(),
{
    if ws.len() == 0 {
        assert(x + ws =~= x);
    } else {
        assert((x + ws).drop_last() =~= x + ws.drop_last());
        assert((x + ws).last() == ws.last());
        assert forall|i: int| 0 <= i < ws.drop_last().len() implies is_space(
            #[trigger] ws.drop_last()[i],
        ) by {
            assert(ws.drop_last()[i] == ws[i]);
        }
        lemma_trim_ws_tail(x, ws.drop_last());
    }
}

/// A row written with its end mark, once or twice, followed by any white
/// space, reads back as the row itself, when the row ends neither with the
/// mark nor with white space.
pub proof fn law_end_mark(r: Seq<char>, c: char, ws: Seq<char>)
    requires
        !is_space(c),
        r.len() > 0 ==> r.last() != c && !is_space(r.last()),
        forall|i: int| 0 <= i < ws.len() ==> is_space(#[trigger] ws[i]),
    ensures
        strip_row(r + seq![c] + ws) == r,
        strip_row(r + seq![c, c] + ws) == r,
{
    let one = r + seq![c];
    let two = r + seq![c, c];
    lemma_trim_ws_tail(one, ws);
    lemma_trim_ws_tail(two, ws);
    assert(one.drop_last() =~= r);
    assert(two.drop_last() =~= one);
    if r.len() > 0 {
        assert(r.last() != c);
    }
    assert(trim_end_char(r, c) == r);
    assert(one.last() == c && two.last() == c);
    assert(trim_end_char(one, c) == r);
    assert(trim_end_char(two, c) == trim_end_char(one, c));
}


/// The decimal digits of `n`, most significant first.
pub open spec fn dec_str(n: nat) -> Seq<char>
    decreases n,
{
    if n < 10 {
        seq![('0' as u32 + n) as char]
    } else {
        dec_str(n / 10) + seq![('0' as u32 + n % 10) as char]
    }
}

proof fn lemma_dec_str(n: nat)
    ensures
        dec_str(n).len() > 0,
        all_digits(dec_str(n), 10),
        digits_val(dec_str(n), 10) == n,
        dec_str(n)[0] != '-' && dec_str(n)[0] != '+',
        forall|i: int| 0 <= i < dec_str(n).len() ==> !is_space(#[trigger] dec_str(n)[i]),
    decreases n,
{
    let d = dec_str(n);
    if n < 10 {
        assert(digit_val(d[0]) == n);
        assert(d.drop_last() =~= Seq::<char>::empty());
        assert(d.last() == d[0]);
        assert(digits_val(Seq::<char>::empty(), 10) == 0);
        assert(digits_val(d, 10) == digits_val(d.drop_last(), 10) * 10 + digit_val(d.last()));
    } else {
        lemma_dec_str(n / 10);
        let p = dec_str(n / 10);
        assert(d.drop_last() =~= p);
        assert(d.last() == ('0' as u32 + n % 10) as char);
        assert(digit_val(d.last()) == n % 10);
        assert(digits_val(d, 10) == digits_val(p, 10) * 10 + digit_val(d.last()));
        assert((n / 10) * 10 + n % 10 == n);
        assert(d[0] == p[0]);
        assert forall|i: int| 0 <= i < d.len() implies digit_val(#[trigger] d[i]) < 10 by {
            if i < p.len() {
                assert(d[i] == p[i]);
            }
        }
        assert forall|i: int| 0 <= i < d.len() implies !is_space(#[trigger] d[i]) by {
            if i < p.len() {
                assert(d[i] == p[i]);
            }
        }
    }
}

/// A number written in decimal reads back as itself, with or without a
/// minus sign in front.
pub proof fn law_decimal_numbers(n: nat)
    ensures
        parse_dec(dec_str(n)) == Some(n as int),
        parse_dec(seq!['-'] + dec_str(n)) == Some(-(n as int)),
        parse_dec(seq!['+'] + dec_str(n)) == Some(n as int),
        dec_str(n)[0] != '0' || n == 0 ==> parse_code(dec_str(n)) == if n == 0 {
            Some(0int)
        } else {
            Some(n as int)
        },
{
    lemma_dec_str(n);
    let d = dec_str(n);
    assert((seq!['-'] + d).skip(1) =~= d);
    assert((seq!['+'] + d).skip(1) =~= d);
    if n == 0 {
        assert(d =~= seq!['0']);
        assert(d.skip(1) =~= Seq::<char>::empty());
    } else if d[0] != '0' {
        assert(code_digits(d) == (10int, d));
    }
}


proof fn lemma_tok_end_run(line: Seq<char>, start: int, k: int, end: int)
    requires
        0 <= start <= k <= end <= line.len(),
        forall|j: int| start <= j < end ==> !is_space(#[trigger] line[j]),
        end < line.len() ==> is_space(line[end]),
    ensures
        tok_end(line, k) == end,
    decreases end - k,
{
    if k < end {
        lemma_tok_end_run(line, start, k + 1, end);
    }
}

/// A blank and then a token without white space, followed by the end of
/// the line or by white space, is read as that token.
proof fn lemma_read_token(line: Seq<char>, prefix: Seq<char>, tok: Seq<char>, rest: Seq<char>)
    requires
        line == prefix + seq![' '] + tok + rest,
        tok.len() > 0,
        forall|j: int| 0 <= j < tok.len() ==> !is_space(#[trigger] tok[j]),
        rest.len() > 0 ==> rest[0] == ' ',
    ensures
        token_at(line, prefix.len() as int) == tok,
        next_cursor(line, prefix.len() as int) == prefix.len() + 1 + tok.len(),
{
    let i = prefix.len() as int;
    assert(line[i] == ' ');
    assert(line[i + 1] == tok[0]);
    assert(ws_end(line, i + 1) == i + 1);
    assert(ws_end(line, i) == i + 1);
    let end = i + 1 + tok.len();
    assert forall|j: int| i + 1 <= j < end implies !is_space(#[trigger] line[j]) by {
        assert(line[j] == tok[j - i - 1]);
    }
    if end < line.len() {
        assert(line[end] == rest[0]);
    }
    lemma_tok_end_run(line, i + 1, i + 1, end);
    assert(line.subrange(i + 1, end) =~= tok);
}

/// The tokens `ds`, each after a blank.
pub open spec fn spaced(ds: Seq<Seq<char>>) -> Seq<char>
    decreases ds.len(),
{
    if ds.len() == 0 {
        Seq::empty()
    } else {
        seq![' '] + ds[0] + spaced(ds.drop_first())
    }
}

proof fn lemma_spaced_concat(a: Seq<Seq<char>>, b: Seq<Seq<char>>)
    ensures
        spaced(a + b) == spaced(a) + spaced(b),
    decreases a.len(),
{
    if a.len() == 0 {
        assert(a + b =~= b);
        assert(spaced(a) + spaced(b) =~= spaced(b));
    } else {
        lemma_spaced_concat(a.drop_first(), b);
        assert((a + b).drop_first() =~= a.drop_first() + b);
        assert((a + b)[0] == a[0]);
        assert(seq![' '] + a[0] + (spaced(a.drop_first()) + spaced(b)) =~= (seq![' '] + a[0]
            + spaced(a.drop_first())) + spaced(b));
    }
}

/// Where the `k`-th of the tokens `ds` after `prefix` is read from.
pub open spec fn cursor(prefix: Seq<char>, ds: Seq<Seq<char>>, k: int) -> int {
    (prefix.len() + spaced(ds.take(k)).len()) as int
}

/// The `k`-th token after `prefix` reads as `ds[k]`.
proof fn lemma_spaced_token(prefix: Seq<char>, ds: Seq<Seq<char>>, k: int)
    requires
        0 <= k < ds.len(),
        forall|j: int| 0 <= j < ds.len() ==> (#[trigger] ds[j]).len() > 0,
        forall|j: int, q: int| 0 <= j < ds.len() && 0 <= q < ds[j].len() ==> !is_space(#[trigger] ds[j][q]),
    ensures
        token_at(prefix + spaced(ds), cursor(prefix, ds, k)) == ds[k],
        next_cursor(prefix + spaced(ds), cursor(prefix, ds, k)) == cursor(prefix, ds, k + 1),
{
    let a = ds.take(k);
    let rest = ds.skip(k + 1);
    assert(ds =~= a + (seq![ds[k]] + rest));
    lemma_spaced_concat(a, seq![ds[k]] + rest);
    assert((seq![ds[k]] + rest).drop_first() =~= rest);
    let line = prefix + spaced(ds);
    let pre = prefix + spaced(a);
    assert(line =~= pre + seq![' '] + ds[k] + spaced(rest));
    if rest.len() > 0 {
        assert(spaced(rest)[0] == ' ');
    }
    assert forall|q: int| 0 <= q < ds[k].len() implies !is_space(#[trigger] ds[k][q]) by {}
    lemma_read_token(line, pre, ds[k], spaced(rest));
    assert(ds.take(k + 1) =~= a + seq![ds[k]]);
    lemma_spaced_concat(a, seq![ds[k]]);
    let one = seq![ds[k]];
    assert(one.drop_first() =~= Seq::<Seq<char>>::empty());
    assert(spaced(Seq::<Seq<char>>::empty()) == Seq::<char>::empty());
    assert(spaced(one) == seq![' '] + ds[k] + spaced(one.drop_first()));
    assert(spaced(one).len() == 1 + ds[k].len());
}

/// A header line written as the signature `flf2a`, the hardblank, and the
/// height, baseline, longest line, old layout, comment lines, print
/// direction and full layout in decimal, each after a blank, reads back as
/// those values (the height at least one, every number in `i32`).
pub proof fn law_header_roundtrip(hb: char, h: nat, b: nat, ml: nat, ol: nat, cl: nat, pd: nat, fl: nat)
    requires
        1 <= h <= i32::MAX,
        b <= i32::MAX,
        ml <= i32::MAX,
        ol <= i32::MAX,
        cl <= i32::MAX,
        pd <= i32::MAX,
        fl <= i32::MAX,
    ensures
        flf_header(
            seq!['f', 'l', 'f', '2', 'a', hb] + spaced(
                seq![
                    dec_str(h),
                    dec_str(b),
                    dec_str(ml),
                    dec_str(ol),
                    dec_str(cl),
                    dec_str(pd),
                    dec_str(fl),
                ],
            ),
        ) == Some(
            FlfHeader {
                hardblank: hb,
                height: h as int,
                baseline: b as int,
                max_length: ml as int,
                old_layout: ol as int,
                comment_lines: cl as int,
                print_direction: Some(pd as int),
                full_layout: Some(fl as int),
            },
        ),
{
    let base = seq!['f', 'l', 'f', '2', 'a', hb];
    let ds = seq![dec_str(h), dec_str(b), dec_str(ml), dec_str(ol), dec_str(cl), dec_str(pd), dec_str(fl)];
    let nums = seq![h, b, ml, ol, cl, pd, fl];
    assert forall|j: int| 0 <= j < 7 implies ds[j] == dec_str(#[trigger] nums[j]) by {}
    assert forall|j: int| 0 <= j < 7 implies {
        &&& (#[trigger] ds[j]).len() > 0
        &&& parse_dec(ds[j]) == Some(nums[j] as int)
        &&& forall|q: int| 0 <= q < ds[j].len() ==> !is_space(#[trigger] ds[j][q])
    } by {
        lemma_dec_str(nums[j]);
        law_decimal_numbers(nums[j]);
    }
    assert(ds.len() == 7);
    let l = base + spaced(ds);
    assert(cursor(base, ds, 0) == 6) by {
        assert(ds.take(0) =~= Seq::<Seq<char>>::empty());
    }
    lemma_spaced_token(base, ds, 0);
    lemma_spaced_token(base, ds, 1);
    lemma_spaced_token(base, ds, 2);
    lemma_spaced_token(base, ds, 3);
    lemma_spaced_token(base, ds, 4);
    lemma_spaced_token(base, ds, 5);
    lemma_spaced_token(base, ds, 6);
    assert(l[0] == 'f' && l[1] == 'l' && l[2] == 'f' && l[3] == '2' && l[4] == 'a' && l[5] == hb);
}

/// The FIGcharacters every font has are those of the codes 32..=126 in
/// order, then Ä, Ö, Ü, ä, ö, ü and ß, each code once.
pub proof fn law_required_codes()
    ensures
        forall|k: int| 0 <= k < 95 ==> #[trigger] required_code(k) == 32 + k,
        required_code(95) == 'Ä' as i32,
        required_code(96) == 'Ö' as i32,
        required_code(97) == 'Ü' as i32,
        required_code(98) == 'ä' as i32,
        required_code(99) == 'ö' as i32,
        required_code(100) == 'ü' as i32,
        required_code(101) == 'ß' as i32,
        forall|j: int, k: int|
            0 <= j < k < REQUIRED_CHARS ==> #[trigger] required_code(j) != #[trigger] required_code(k),
{
}

proof fn lemma_required_at(ls: Seq<Seq<char>>, pos: int, h: nat, k0: nat, k: nat)
    requires
        k0 <= k < REQUIRED_CHARS,
        pos + (k - k0 + 1) * h <= ls.len(),
    ensures
        required_entries(ls, pos, h, k0).0.len() > k - k0,
        required_entries(ls, pos, h, k0).0[k - k0] == (
            required_code(k as int),
            glyph_rows(ls, pos + (k - k0) * h, h),
        ),
    decreases k - k0,
{
    let d = k - k0;
    assert((d + 1) * h >= h) by (nonlinear_arith)
        requires
            d >= 0,
            h >= 0,
    ;
    if k > k0 {
        assert(pos + h + (k - (k0 + 1) + 1) * h == pos + (k - k0 + 1) * h) by (nonlinear_arith);
        assert(pos + h + (k - (k0 + 1)) * h == pos + (k - k0) * h) by (nonlinear_arith);
        lemma_required_at(ls, pos + h, h, k0 + 1, k);
    } else {
        assert(pos + (k - k0) * h == pos) by (nonlinear_arith)
            requires
                k == k0,
        ;
    }
}

/// In a file whose lines reach that far, the `k`-th FIGcharacter that every
/// font has is read from the `height` lines that start `k * height` lines
/// after the comments, under its code.
pub proof fn law_required_positions(ls: Seq<Seq<char>>, hd: FlfHeader, k: nat)
    requires
        k < REQUIRED_CHARS,
        hd.height >= 1,
        hd.comment_lines >= 0,
        1 + hd.comment_lines + (k + 1) * hd.height <= ls.len(),
    ensures
        flf_entries(ls, hd)[k as int] == (
            required_code(k as int),
            glyph_rows(ls, 1 + hd.comment_lines + k * hd.height, hd.height as nat),
        ),
{
    let h = hd.height as nat;
    let start = 1 + hd.comment_lines;
    assert(start + (k - 0 + 1) * h == start + (k + 1) * hd.height);
    lemma_required_at(ls, start, h, 0, k);
    let req = required_entries(ls, start, h, 0);
    if req.2 {
        let all = req.0 + tagged_entries(ls, req.1, h);
        assert(all[k as int] == req.0[k as int]);
    }
}

/// After the FIGcharacters every font has, a line that gives a code is
/// followed by the `height` rows of that code's FIGcharacter.
pub proof fn law_tagged_entry(ls: Seq<Seq<char>>, pos: int, h: nat)
    requires
        0 <= pos,
        pos + 1 + h <= ls.len(),
        code_of_line(ls[pos]) is Some,
    ensures
        tagged_entries(ls, pos, h).len() > 0,
        tagged_entries(ls, pos, h)[0] == (code_of_line(ls[pos]).unwrap(), glyph_rows(ls, pos + 1, h)),
        tagged_entries(ls, pos, h).drop_first() == tagged_entries(ls, pos + 1 + h, h),
{
    let c = code_of_line(ls[pos]).unwrap();
    let t = seq![(c, glyph_rows(ls, pos + 1, h))] + tagged_entries(ls, pos + 1 + h, h);
    assert(t.drop_first() =~= tagged_entries(ls, pos + 1 + h, h));
}

} // verus!
