//! Word wrapping of smushed FIGcharacter output.

use vstd::prelude::*;
use crate::Error;
use crate::smusher::{Smusher, SmSetup, width_of, cut, lines_of};
use crate::smusher::strsmush::sat;
use crate::text::{str_chars, string_from_chars, replace_char};

verus! {

/// Text alignment.
#[derive(Clone, Copy, Debug, PartialEq, Eq, Structural)]
pub enum Align {
    Left,
    Right,
    Center,
}

/// The state of a wrapper: the smusher's output rows, the rendered text of
/// the current line, the whitespace waiting for the next word, and whether
/// the line was just wrapped.
pub struct WrapModel {
    pub lines: Seq<Seq<char>>,
    pub buffer: Seq<char>,
    pub pending: Option<Seq<char>>,
    pub just_flushed: bool,
}

/// `n` empty rows.
pub open spec fn empty_rows(n: nat) -> Seq<Seq<char>> {
    Seq::new(n, |i: int| Seq::<char>::empty())
}

/// The columns of the first row (at most `usize::MAX`).
pub open spec fn first_width(lines: Seq<Seq<char>>) -> nat {
    sat(width_of(lines[0]))
}

/// The output has no rows or an empty first row.
pub open spec fn rows_empty(lines: Seq<Seq<char>>) -> bool {
    lines.len() == 0 || lines[0].len() == 0
}

/// `n` blanks.
pub open spec fn spaces(n: nat) -> Seq<char> {
    Seq::new(n, |i: int| ' ')
}

/// The number of characters of the longest row.
pub open spec fn max_len(lines: Seq<Seq<char>>) -> nat
    decreases lines.len(),
{
    if lines.len() == 0 {
        0
    } else {
        let m = max_len(lines.drop_last());
        if lines.last().len() > m {
            lines.last().len()
        } else {
            m
        }
    }
}

/// Every row shorter than `n` characters filled with blanks to `n`.
pub open spec fn pad_to(lines: Seq<Seq<char>>, n: nat) -> Seq<Seq<char>> {
    lines.map_values(|l: Seq<char>| if l.len() < n { l + spaces((n - l.len()) as nat) } else { l })
}

/// Every row preceded by `p` blanks.
pub open spec fn indent(lines: Seq<Seq<char>>, p: nat) -> Seq<Seq<char>> {
    lines.map_values(|l: Seq<char>| spaces(p) + l)
}

/// What the wrapper shows of the output rows `lines`: the rows cut to the
/// width when the first is wider, filled with blanks to the widest row,
/// hardblanks shown as blanks, and indented for the alignment in the room
/// that the widest row leaves.
pub open spec fn shown_block(lines: Seq<Seq<char>>, hardblank: char, width: usize, align: Align) -> Seq<Seq<char>> {
    let mw = max_len(lines);
    let filled = pad_to(lines, mw).map_values(|l: Seq<char>| replace_char(l, hardblank, ' '));
    let w: nat = if width >= mw {
        (width - mw) as nat
    } else {
        0
    };
    match align {
        Align::Left => filled,
        Align::Center => indent(filled, w / 2 + w % 2),
        Align::Right => indent(filled, w),
    }
}

/// The rows of `lines` kept by `get`: all cut to the width when the first
/// row is wider than it.
pub open spec fn kept_rows(lines: Seq<Seq<char>>, width: usize) -> Seq<Seq<char>> {
    if first_width(lines) > width {
        lines.map_values(|l: Seq<char>| cut(l, width as nat))
    } else {
        lines
    }
}

impl WrapModel {
    pub open spec fn with_lines(self, lines: Seq<Seq<char>>) -> WrapModel {
        WrapModel { lines: lines, ..self }
    }

    pub open spec fn with_flushed(self, f: bool) -> WrapModel {
        WrapModel { just_flushed: f, ..self }
    }
}

/// `push_str`: the rendered characters of `s` are added; when the first
/// row then gets wider than `width`, the output is rebuilt from the buffer
/// and the call fails.
pub open spec fn w_push_str(sm: SmSetup, width: usize, m: WrapModel, s: Seq<char>) -> (bool, WrapModel) {
    let l1 = sm.push_seq(m.lines, s);
    if first_width(l1) > width {
        (false, m.with_lines(sm.push_seq(empty_rows(l1.len()), m.buffer)))
    } else {
        (true, WrapModel { lines: l1, buffer: m.buffer + sm.rendered_of(s), ..m })
    }
}

/// `push`: as `push_str` for one character.
pub open spec fn w_push(sm: SmSetup, width: usize, m: WrapModel, ch: char) -> (bool, WrapModel) {
    let l1 = sm.push_one(m.lines, ch);
    if first_width(l1) > width {
        (false, m.with_lines(sm.push_seq(empty_rows(l1.len()), m.buffer)))
    } else {
        (
            true,
            WrapModel {
                lines: l1,
                buffer: if sm.renders(ch) {
                    m.buffer.push(ch)
                } else {
                    m.buffer
                },
                ..m
            },
        )
    }
}

/// `clear`: empty rows, empty buffer, nothing pending, not wrapped.
pub open spec fn w_clear(m: WrapModel) -> WrapModel {
    WrapModel {
        lines: empty_rows(m.lines.len()),
        buffer: Seq::empty(),
        pending: None,
        just_flushed: false,
    }
}

/// `get`: the block shown, and the state with the kept rows.
pub open spec fn w_get(sm: SmSetup, width: usize, align: Align, m: WrapModel) -> (Seq<Seq<char>>, WrapModel) {
    let lines = kept_rows(m.lines, width);
    (shown_block(lines, sm.font.hardblank, width, align), m.with_lines(lines))
}

/// A flush: the block shown, then a cleared state.
pub open spec fn w_flush(sm: SmSetup, width: usize, align: Align, m: WrapModel) -> (Seq<Seq<char>>, WrapModel) {
    let (b, m1) = w_get(sm, width, align, m);
    (b, w_clear(m1))
}

/// One character of `wrap_word`: it is pushed; when it does not fit, a
/// nonempty line is flushed (and marked as wrapped) and the character is
/// added to the output as it is.
pub open spec fn w_word_step(sm: SmSetup, width: usize, align: Align, m: WrapModel, c: char) -> (WrapModel, Seq<Seq<Seq<char>>>) {
    let (ok, m1) = w_push(sm, width, m, c);
    if ok {
        (m1, Seq::empty())
    } else {
        let (m2, bs) = if m1.buffer.len() > 0 {
            let (b, mc) = w_flush(sm, width, align, m1);
            (mc.with_flushed(true), seq![b])
        } else {
            (m1, Seq::empty())
        };
        (
            WrapModel {
                lines: sm.push_one(m2.lines, c),
                buffer: if sm.renders(c) {
                    m2.buffer.push(c)
                } else {
                    m2.buffer
                },
                ..m2
            },
            bs,
        )
    }
}

/// `wrap_word`: the characters of `word` one after the other; the state and
/// the blocks flushed.
pub open spec fn w_wrap_word(sm: SmSetup, width: usize, align: Align, m: WrapModel, word: Seq<char>) -> (WrapModel, Seq<Seq<Seq<char>>>)
    decreases word.len(),
{
    if word.len() == 0 {
        (m, Seq::empty())
    } else {
        let (m1, b1) = w_wrap_word(sm, width, align, m, word.drop_last());
        let (m2, b2) = w_word_step(sm, width, align, m1, word.last());
        (m2, b1 + b2)
    }
}

/// Unicode whitespace (the `White_Space` property, as `char::is_whitespace`
/// documents it).
pub open spec fn is_ws(c: char) -> bool {
    let v = c as u32;
    (0x09 <= v <= 0x0D) || v == 0x20 || v == 0x85 || v == 0xA0 || v == 0x1680 || (0x2000 <= v
        <= 0x200A) || v == 0x2028 || v == 0x2029 || v == 0x202F || v == 0x205F || v == 0x3000
}

/// Every character of `s` is whitespace.
pub open spec fn all_ws(s: Seq<char>) -> bool {
    forall|i: int| 0 <= i < s.len() ==> is_ws(#[trigger] s[i])
}

/// A word pushed onto the current line: when it does not fit, a nonempty
/// line is flushed and the word starts the next line; a word wider than a
/// line is wrapped character by character.
pub open spec fn w_place_word(sm: SmSetup, width: usize, align: Align, m: WrapModel, s: Seq<char>) -> (WrapModel, Seq<Seq<Seq<char>>>) {
    let (ok1, m1) = w_push_str(sm, width, m, s);
    if ok1 {
        (m1, Seq::empty())
    } else {
        let (m2, b1) = if m1.buffer.len() > 0 {
            let (b, mc) = w_flush(sm, width, align, m1);
            (mc, seq![b])
        } else {
            (m1, Seq::empty())
        };
        let (ok2, m3) = w_push_str(sm, width, m2, s);
        if ok2 {
            (m3, b1)
        } else {
            let (m4, b2) = w_wrap_word(sm, width, align, m3, s);
            (m4.with_flushed(false), b1 + b2)
        }
    }
}

/// `wrap_segment` on a piece of text without line breaks. Whitespace is
/// dropped right after a wrap, rendered at the start of a line, and kept
/// pending between words. A word after pending whitespace on a nonempty
/// line that was not just wrapped commits the whitespace first: when the
/// whitespace does not fit, the line is flushed, the whitespace (now at a
/// wrap point) is dropped and the word starts the next line; when the word
/// does not fit behind the whitespace, the line is flushed as it was before
/// the whitespace and the word starts the next line. Any other word is
/// placed on the line (`w_place_word`), its pending whitespace dropped.
pub open spec fn w_wrap_segment(sm: SmSetup, width: usize, align: Align, m: WrapModel, s: Seq<char>) -> (WrapModel, Seq<Seq<Seq<char>>>) {
    if all_ws(s) {
        if m.just_flushed {
            (m, Seq::empty())
        } else if m.buffer.len() == 0 {
            (w_push_str(sm, width, m, s).1, Seq::empty())
        } else {
            (
                WrapModel {
                    pending: Some(
                        match m.pending {
                            Some(p) => p,
                            None => Seq::<char>::empty(),
                        } + s,
                    ),
                    ..m
                },
                Seq::empty(),
            )
        }
    } else {
        let m0 = WrapModel { just_flushed: false, pending: None, ..m };
        match m.pending {
            Some(sp) => if !m.just_flushed && m0.buffer.len() > 0 {
                let pre = m0.buffer;
                let (ok1, m1) = w_push_str(sm, width, m0, sp);
                if !ok1 {
                    let (b, mc) = w_flush(sm, width, align, m1);
                    let (m2, b2) = w_place_word(sm, width, align, mc, s);
                    (m2, seq![b] + b2)
                } else {
                    let (ok2, m3) = w_push_str(sm, width, m1, s);
                    if ok2 {
                        (m3, Seq::empty())
                    } else {
                        let m4 = m3.with_lines(sm.push_seq(empty_rows(m3.lines.len()), pre));
                        let (b, m5) = w_flush(sm, width, align, m4);
                        let (m6, b2) = w_place_word(sm, width, align, m5, s);
                        (m6, seq![b] + b2)
                    }
                }
            } else {
                w_place_word(sm, width, align, m0, s)
            },
            None => w_place_word(sm, width, align, m0, s),
        }
    }
}

/// `s` with each CR LF pair and each other CR turned into LF.
pub open spec fn normalize(s: Seq<char>) -> Seq<char>
    decreases s.len(),
{
    if s.len() == 0 {
        s
    } else if s[0] == '\r' && s.len() > 1 && s[1] == '\n' {
        normalize(s.drop_first())
    } else if s[0] == '\r' {
        seq!['\n'] + normalize(s.drop_first())
    } else {
        seq![s[0]] + normalize(s.drop_first())
    }
}

/// The pieces of `s` between line feeds (one more than there are line
/// feeds).
pub open spec fn segments(s: Seq<char>) -> Seq<Seq<char>>
    decreases s.len(),
{
    if s.len() == 0 {
        seq![Seq::<char>::empty()]
    } else {
        let r = segments(s.drop_first());
        if s[0] == '\n' {
            seq![Seq::<char>::empty()] + r
        } else {
            r.update(0, seq![s[0]] + r[0])
        }
    }
}

/// The pieces `segs[i..]` of a text with line breaks: before every piece
/// but the first the line is flushed if it is not empty, and an empty piece
/// that is not the last flushes an empty line; nonempty pieces are wrapped.
pub open spec fn w_lines(sm: SmSetup, width: usize, align: Align, m: WrapModel, segs: Seq<Seq<char>>, i: nat) -> (WrapModel, Seq<Seq<Seq<char>>>)
    decreases segs.len() - i,
{
    if i >= segs.len() {
        (m, Seq::empty())
    } else {
        let seg = segs[i as int];
        let (ma, ba) = if i > 0 && !rows_empty(m.lines) {
            let (b, mc) = w_flush(sm, width, align, m);
            (mc, seq![b])
        } else {
            (m, Seq::empty())
        };
        let (mb, bb) = if i > 0 && seg.len() == 0 && i + 1 < segs.len() {
            let (b, mc) = w_flush(sm, width, align, ma);
            (mc, ba.push(b))
        } else {
            (ma, ba)
        };
        let (m2, b2) = if seg.len() == 0 {
            (mb, Seq::empty())
        } else {
            w_wrap_segment(sm, width, align, mb, seg)
        };
        let (m3, b3) = w_lines(sm, width, align, m2, segs, i + 1);
        (m3, bb + b2 + b3)
    }
}

/// `wrap_str`: a text without line breaks is one segment; otherwise the
/// pieces between line breaks (CR LF and CR count as LF) in turn.
pub open spec fn w_wrap_str(sm: SmSetup, width: usize, align: Align, m: WrapModel, s: Seq<char>) -> (WrapModel, Seq<Seq<Seq<char>>>) {
    let ns = normalize(s);
    if ns.contains('\n') {
        w_lines(sm, width, align, m, segments(ns), 0)
    } else {
        w_wrap_segment(sm, width, align, m, s)
    }
}


/// The blocks flushed, as character rows.
pub open spec fn blocks_view(v: Seq<Vec<String>>) -> Seq<Seq<Seq<char>>> {
    v.map_values(|b: Vec<String>| b@.map_values(|s: String| s@))
}

/// Render smushed ASCII-art characters with word wrapping.
///
/// Wrapper receives string or character input and renders the corresponding
/// FIGcharacters if the output text fits inside the maximum width specified
/// on creation. The wrapper flushes the output buffer earlier if the line is
/// too long, thus producing multiple "lines" of output text; the flushed
/// blocks are returned to the caller in order.
pub struct Wrapper<'a> {
    /// The smusher that renders the current line.
    pub sm: Smusher<'a>,
    /// The rendered characters of the current line.
    pub buffer: Vec<char>,
    /// Whitespace waiting for the next word.
    pub pending_space: Option<Vec<char>>,
    /// Whether the line was just wrapped.
    pub just_flushed: bool,
    pub width: usize,
    pub align: Align,
}

impl<'a> Wrapper<'a> {
    /// The smusher's setup.
    pub open spec fn setup(self) -> SmSetup {
        self.sm.setup()
    }

    pub open spec fn smusher_wf(self) -> bool {
        self.sm.wf()
    }

    /// The state of the wrapper.
    pub open spec fn model(self) -> WrapModel {
        WrapModel {
            lines: self.sm.lines(),
            buffer: self.buffer@,
            pending: match self.pending_space {
                Some(v) => Some(v@),
                None => None,
            },
            just_flushed: self.just_flushed,
        }
    }

    pub open spec fn width_spec(self) -> usize {
        self.width
    }

    pub open spec fn align_spec(self) -> Align {
        self.align
    }

    /// The smusher is well formed and has at least one row.
    pub open spec fn inv(self) -> bool {
        self.smusher_wf() && self.model().lines.len() > 0
    }

    /// Same setup, width and alignment as `other`.
    pub open spec fn keeps(self, other: Wrapper<'a>) -> bool {
        &&& self.setup() == other.setup()
        &&& self.width_spec() == other.width_spec()
        &&& self.align_spec() == other.align_spec()
    }

    /// Create a new wrapper using the specified Smusher and terminal width,
    /// aligned left.
    pub fn new(sm: Smusher<'a>, width: usize) -> (r: Self)
        ensures
            r.setup() == sm.setup(),
            r.smusher_wf() == sm.wf(),
            r.model() == (WrapModel {
                lines: sm.lines(),
                buffer: Seq::empty(),
                pending: None,
                just_flushed: false,
            }),
            r.width_spec() == width,
            r.align_spec() == Align::Left,
    {
        Wrapper {
            sm,
            width,
            buffer: Vec::new(),
            align: Align::Left,
            pending_space: None,
            just_flushed: false,
        }
    }

    /// Clear the output buffer.
    pub fn clear(&mut self)
        requires
            old(self).smusher_wf(),
        ensures
            final(self).smusher_wf(),
            final(self).keeps(*old(self)),
            final(self).model() == w_clear(old(self).model()),
    {
        self.sm.clear();
        self.buffer.clear();
        self.pending_space = None;
        self.just_flushed = false;
        assert(self.model().lines =~= empty_rows(old(self).model().lines.len()));
    }

    /// Get the length in sub-characters of the first row of the output
    /// buffer.
    pub fn len(&self) -> (r: usize)
        requires
            self.inv(),
        ensures
            r == first_width(self.model().lines),
    {
        self.sm.len()
    }

    /// Verify whether the output buffer is empty.
    pub fn is_empty(&self) -> (r: bool)
        ensures
            r == rows_empty(self.model().lines),
    {
        self.sm.is_empty()
    }

    /// Add a string to the output buffer.
    ///
    /// # Errors
    ///
    /// If adding the string results in a line wider than the maximum number
    /// of columns, the string is not added to the output buffer and a
    /// LineFull error is returned.
    pub fn push_str(&mut self, s: &str) -> (r: Result<(), Error>)
        requires
            old(self).inv(),
        ensures
            final(self).inv(),
            final(self).keeps(*old(self)),
            (r is Ok, final(self).model()) == w_push_str(
                old(self).setup(),
                old(self).width_spec(),
                old(self).model(),
                s@,
            ),
            r is Err ==> r == Err::<(), Error>(Error::LineFull),
            consistent(old(self).setup(), old(self).model()) ==> {
                &&& r is Err ==> final(self).model() == old(self).model()
                &&& consistent(final(self).setup(), final(self).model())
            },
    {
        let v = str_chars(s);
        let r = self.push_chars(&v);
        proof {
            if consistent(old(self).setup(), old(self).model()) {
                lemma_push_str_law(old(self).setup(), old(self).width_spec(), old(self).model(), s@);
            }
        }
        r
    }

    fn push_chars(&mut self, s: &Vec<char>) -> (r: Result<(), Error>)
        requires
            old(self).inv(),
        ensures
            final(self).inv(),
            final(self).keeps(*old(self)),
            (r is Ok, final(self).model()) == w_push_str(
                old(self).setup(),
                old(self).width_spec(),
                old(self).model(),
                s@,
            ),
            r is Err ==> r == Err::<(), Error>(Error::LineFull),
    {
        let text = string_from_chars(s);
        let rendered = self.sm.push_str(text.as_str());
        if self.sm.len() > self.width {
            self.sm.clear();
            let buf = string_from_chars(&self.buffer);
            self.sm.push_str(buf.as_str());
            return Err(Error::LineFull);
        }
        let mut more = str_chars(rendered.as_str());
        self.buffer.append(&mut more);
        Ok(())
    }

    /// Add a character to the output buffer.
    ///
    /// # Errors
    ///
    /// If adding the character results in a line wider than the maximum
    /// number of columns, the character is not added to the output buffer
    /// and a LineFull error is returned.
    pub fn push(&mut self, ch: char) -> (r: Result<(), Error>)
        requires
            old(self).inv(),
        ensures
            final(self).inv(),
            final(self).keeps(*old(self)),
            (r is Ok, final(self).model()) == w_push(
                old(self).setup(),
                old(self).width_spec(),
                old(self).model(),
                ch,
            ),
            r is Err ==> r == Err::<(), Error>(Error::LineFull),
            consistent(old(self).setup(), old(self).model()) ==> {
                &&& r is Err ==> final(self).model() == old(self).model()
                &&& consistent(final(self).setup(), final(self).model())
            },
    {
        let rendered = self.sm.push(ch);
        if self.sm.len() > self.width {
            self.sm.clear();
            let buf = string_from_chars(&self.buffer);
            self.sm.push_str(buf.as_str());
            proof {
                if consistent(old(self).setup(), old(self).model()) {
                    lemma_push_law(old(self).setup(), old(self).width_spec(), old(self).model(), ch);
                }
            }
            return Err(Error::LineFull);
        }
        if rendered {
            self.buffer.push(ch);
        }
        proof {
            if consistent(old(self).setup(), old(self).model()) {
                lemma_push_law(old(self).setup(), old(self).width_spec(), old(self).model(), ch);
            }
        }
        Ok(())
    }
}


/// `row` filled with blanks to `n` characters.
fn pad_row(row: &Vec<char>, n: usize) -> (r: Vec<char>)
    ensures
        r@ == (if row@.len() < n {
            row@ + spaces((n - row@.len()) as nat)
        } else {
            row@
        }),
{
    let mut v: Vec<char> = Vec::new();
    let mut i: usize = 0;
    while i < row.len()
        invariant
            i <= row@.len(),
            v@ == row@.take(i as int),
        decreases row@.len() - i,
    {
        v.push(row[i]);
        i += 1;
        assert(v@ =~= row@.take(i as int));
    }
    assert(row@.take(i as int) =~= row@);
    let ghost base = v@;
    while v.len() < n
        invariant
            base == row@,
            v@.len() >= row@.len(),
            v@ == row@ + spaces((v@.len() - row@.len()) as nat),
            row@.len() < n ==> v@.len() <= n,
            row@.len() >= n ==> v@.len() == row@.len(),
        decreases n - v@.len(),
    {
        v.push(' ');
        assert(v@ =~= row@ + spaces((v@.len() - row@.len()) as nat));
    }
    proof {
        if row@.len() >= n {
            assert(row@ + spaces(0) =~= row@);
            assert(v@ =~= row@);
        }
    }
    v
}

/// Prefix every line with `pad_size` blanks.
pub fn add_pad(v: &Vec<String>, pad_size: usize) -> (r: Vec<String>)
    ensures
        r@.map_values(|s: String| s@) == indent(v@.map_values(|s: String| s@), pad_size as nat),
{
    let mut p: Vec<char> = Vec::new();
    while p.len() < pad_size
        invariant
            p@ == spaces(p@.len()),
            p@.len() <= pad_size,
        decreases pad_size - p@.len(),
    {
        p.push(' ');
        assert(p@ =~= spaces(p@.len()));
    }
    let ghost target = indent(v@.map_values(|s: String| s@), pad_size as nat);
    let mut res: Vec<String> = Vec::new();
    let mut i: usize = 0;
    while i < v.len()
        invariant
            p@ == spaces(pad_size as nat),
            target == indent(v@.map_values(|s: String| s@), pad_size as nat),
            i <= v@.len(),
            res@.map_values(|s: String| s@) == target.take(i as int),
        decreases v@.len() - i,
    {
        let mut line = take_all(&p);
        let mut rest = str_chars(v[i].as_str());
        line.append(&mut rest);
        let s = string_from_chars(&line);
        let ghost before = res@.map_values(|s: String| s@);
        res.push(s);
        proof {
            assert(res@.map_values(|s: String| s@) =~= before.push(s@));
            assert(target.take(i + 1) =~= target.take(i as int).push(target[i as int]));
        }
        i += 1;
    }
    assert(target.take(i as int) =~= target);
    res
}

/// A copy of `s`.
fn take_all(s: &Vec<char>) -> (r: Vec<char>)
    ensures
        r@ == s@,
{
    let r = crate::text::take_chars(s, s.len());
    assert(s@.take(s@.len() as int) =~= s@);
    r
}

/// The longest row of `rows` has `max_len` characters.
fn max_row_len(rows: &Vec<Vec<char>>) -> (r: usize)
    ensures
        r == max_len(lines_of(rows@)),
{
    let mut m: usize = 0;
    let mut i: usize = 0;
    while i < rows.len()
        invariant
            i <= rows@.len(),
            m == max_len(lines_of(rows@).take(i as int)),
        decreases rows@.len() - i,
    {
        proof {
            assert(lines_of(rows@).take(i + 1).drop_last() =~= lines_of(rows@).take(i as int));
        }
        if rows[i].len() > m {
            m = rows[i].len();
        }
        i += 1;
    }
    assert(lines_of(rows@).take(i as int) =~= lines_of(rows@));
    m
}

impl<'a> Wrapper<'a> {
    /// Retrieve the output buffer lines: when the first row is wider than
    /// the width, every row is cut to it (in the buffer too); the rows are
    /// filled with blanks to the widest one, hardblanks are shown as blanks,
    /// and the block is indented for the alignment.
    pub fn get(&mut self) -> (r: Vec<String>)
        requires
            old(self).inv(),
        ensures
            final(self).inv(),
            final(self).keeps(*old(self)),
            (r@.map_values(|s: String| s@), final(self).model()) == w_get(
                old(self).setup(),
                old(self).width_spec(),
                old(self).align_spec(),
                old(self).model(),
            ),
            first_width(final(self).model().lines) <= old(self).width_spec(),
    {
        proof {
            lemma_kept_fits(old(self).model().lines, self.width);
        }
        if self.len() > self.width {
            self.sm.trim(self.width);
        }
        let v = self.sm.get_raw();
        let ghost lines = self.model().lines;
        let mut rows: Vec<Vec<char>> = Vec::new();
        let mut i: usize = 0;
        while i < v.len()
            invariant
                v@.map_values(|s: String| s@) == lines,
                i <= v@.len(),
                lines_of(rows@) == lines.take(i as int),
            decreases v@.len() - i,
        {
            let row = str_chars(v[i].as_str());
            let ghost before = lines_of(rows@);
            rows.push(row);
            proof {
                assert(lines_of(rows@) =~= before.push(row@));
                assert(lines.take(i + 1) =~= lines.take(i as int).push(lines[i as int]));
            }
            i += 1;
        }
        assert(lines.take(i as int) =~= lines);
        let max_w = max_row_len(&rows);
        let mut out: Vec<String> = Vec::new();
        let mut j: usize = 0;
        while j < rows.len()
            invariant
                lines_of(rows@) == lines,
                max_w == max_len(lines),
                j <= rows@.len(),
                out@.map_values(|s: String| s@) == pad_to(lines, max_w as nat).take(j as int),
            decreases rows@.len() - j,
        {
            let padded = pad_row(&rows[j], max_w);
            let s = string_from_chars(&padded);
            let ghost before = out@.map_values(|s: String| s@);
            out.push(s);
            proof {
                assert(out@.map_values(|s: String| s@) =~= before.push(s@));
                assert(pad_to(lines, max_w as nat).take(j + 1) =~= pad_to(lines, max_w as nat).take(
                    j as int,
                ).push(pad_to(lines, max_w as nat)[j as int]));
            }
            j += 1;
        }
        assert(pad_to(lines, max_w as nat).take(j as int) =~= pad_to(lines, max_w as nat));
        self.sm.replace_hardblanks(&mut out);
        proof {
            let filled = pad_to(lines, max_w as nat).map_values(
                |l: Seq<char>| replace_char(l, self.setup().font.hardblank, ' '),
            );
            assert(out@.map_values(|s: String| s@) =~= filled);
        }
        let w = self.width.saturating_sub(max_w);
        match self.align {
            Align::Left => out,
            Align::Center => add_pad(&out, w / 2 + w % 2),
            Align::Right => add_pad(&out, w),
        }
    }
}


pub(crate) fn is_whitespace_char(c: char) -> (r: bool)
    ensures
        r == is_ws(c),
{
    let v = c as u32;
    (0x09 <= v && v <= 0x0D) || v == 0x20 || v == 0x85 || v == 0xA0 || v == 0x1680 || (0x2000 <= v
        && v <= 0x200A) || v == 0x2028 || v == 0x2029 || v == 0x202F || v == 0x205F || v == 0x3000
}

fn all_whitespace(s: &Vec<char>) -> (r: bool)
    ensures
        r == all_ws(s@),
{
    let mut i: usize = 0;
    while i < s.len()
        invariant
            i <= s@.len(),
            forall|k: int| 0 <= k < i ==> is_ws(#[trigger] s@[k]),
        decreases s@.len() - i,
    {
        if !is_whitespace_char(s[i]) {
            return false;
        }
        i += 1;
    }
    true
}

/// The characters of `s` with CR LF and CR turned into LF.
fn normalize_newlines(s: &Vec<char>) -> (r: Vec<char>)
    ensures
        r@ == normalize(s@),
{
    let mut out: Vec<char> = Vec::new();
    let mut i: usize = 0;
    assert(s@.skip(0) =~= s@);
    while i < s.len()
        invariant
            i <= s@.len(),
            normalize(s@) == out@ + normalize(s@.skip(i as int)),
        decreases s@.len() - i,
    {
        let ghost t = s@.skip(i as int);
        assert(t.drop_first() =~= s@.skip(i + 1));
        let c = s[i];
        if c == '\r' && i + 1 < s.len() && s[i + 1] == '\n' {
        } else if c == '\r' {
            out.push('\n');
            assert(normalize(s@) =~= out@ + normalize(s@.skip(i + 1)));
        } else {
            out.push(c);
            assert(normalize(s@) =~= out@ + normalize(s@.skip(i + 1)));
        }
        i += 1;
    }
    assert(s@.skip(i as int) =~= Seq::<char>::empty());
    assert(out@ + Seq::<char>::empty() =~= out@);
    out
}

fn contains_lf(s: &Vec<char>) -> (r: bool)
    ensures
        r == s@.contains('\n'),
{
    let mut i: usize = 0;
    while i < s.len()
        invariant
            i <= s@.len(),
            forall|k: int| 0 <= k < i ==> s@[k] != '\n',
        decreases s@.len() - i,
    {
        if s[i] == '\n' {
            assert(s@[i as int] == '\n');
            return true;
        }
        i += 1;
    }
    false
}

/// `segs` with `cur` put before its first piece.
pub open spec fn prefix_first(segs: Seq<Seq<char>>, cur: Seq<char>) -> Seq<Seq<char>> {
    segs.update(0, cur + segs[0])
}

pub proof fn lemma_segments_nonempty(s: Seq<char>)
    ensures
        segments(s).len() >= 1,
    decreases s.len(),
{
    if s.len() > 0 {
        lemma_segments_nonempty(s.drop_first());
    }
}

/// The pieces of `s` between line feeds.
pub(crate) fn split_lf(s: &Vec<char>) -> (r: Vec<Vec<char>>)
    ensures
        lines_of(r@) == segments(s@),
{
    let mut done: Vec<Vec<char>> = Vec::new();
    let mut cur: Vec<char> = Vec::new();
    let mut i: usize = 0;
    proof {
        assert(s@.skip(0) =~= s@);
        lemma_segments_nonempty(s@);
        assert(prefix_first(segments(s@), cur@) =~= segments(s@));
    }
    while i < s.len()
        invariant
            i <= s@.len(),
            segments(s@) == lines_of(done@) + prefix_first(segments(s@.skip(i as int)), cur@),
        decreases s@.len() - i,
    {
        let ghost t = s@.skip(i as int);
        assert(t.drop_first() =~= s@.skip(i + 1));
        proof {
            lemma_segments_nonempty(s@.skip(i + 1));
        }
        let c = s[i];
        if c == '\n' {
            let ghost before = lines_of(done@);
            let ghost cv = cur@;
            done.push(cur);
            cur = Vec::new();
            proof {
                let r = segments(s@.skip(i + 1));
                assert(lines_of(done@) =~= before.push(cv));
                assert(prefix_first(r, cur@) =~= r);
                assert(prefix_first(segments(t), cv) =~= seq![cv] + r);
                assert(segments(s@) =~= lines_of(done@) + prefix_first(r, cur@));
            }
        } else {
            let ghost cv = cur@;
            cur.push(c);
            proof {
                let r = segments(s@.skip(i + 1));
                assert(t[0] == c);
                assert(segments(t) == r.update(0, seq![c] + r[0]));
                assert(cv + (seq![c] + r[0]) =~= cur@ + r[0]);
                assert(prefix_first(segments(t), cv) =~= prefix_first(r, cur@));
            }
        }
        i += 1;
    }
    proof {
        assert(s@.skip(i as int) =~= Seq::<char>::empty());
        assert(prefix_first(segments(Seq::<char>::empty()), cur@) =~= seq![cur@]);
    }
    let ghost before = lines_of(done@);
    let ghost cv = cur@;
    done.push(cur);
    assert(lines_of(done@) =~= before.push(cv));
    done
}

impl<'a> Wrapper<'a> {
    /// Add a word to the output buffer, breaking it if necessary.
    ///
    /// Add this word to the output character by character. If a new
    /// character causes the output to be wider than the maximum width, the
    /// current buffer contents (if any) are flushed and the buffer is
    /// cleared, and the new character is added to the buffer. If the
    /// character is wider than the maximum width, it is added without any
    /// additional processing. The flushed blocks are returned in order.
    pub fn wrap_word(&mut self, word: &str) -> (r: Vec<Vec<String>>)
        requires
            old(self).inv(),
        ensures
            final(self).inv(),
            final(self).keeps(*old(self)),
            (final(self).model(), blocks_view(r@)) == w_wrap_word(
                old(self).setup(),
                old(self).width_spec(),
                old(self).align_spec(),
                old(self).model(),
                word@,
            ),
    {
        let w = str_chars(word);
        self.wrap_word_chars(&w)
    }

    fn wrap_word_chars(&mut self, word: &Vec<char>) -> (r: Vec<Vec<String>>)
        requires
            old(self).inv(),
        ensures
            final(self).inv(),
            final(self).keeps(*old(self)),
            (final(self).model(), blocks_view(r@)) == w_wrap_word(
                old(self).setup(),
                old(self).width_spec(),
                old(self).align_spec(),
                old(self).model(),
                word@,
            ),
    {
        let mut blocks: Vec<Vec<String>> = Vec::new();
        let mut i: usize = 0;
        assert(word@.take(0) =~= Seq::<char>::empty());
        while i < word.len()
            invariant
                self.inv(),
                self.keeps(*old(self)),
                i <= word@.len(),
                (self.model(), blocks_view(blocks@)) == w_wrap_word(
                    old(self).setup(),
                    old(self).width_spec(),
                    old(self).align_spec(),
                    old(self).model(),
                    word@.take(i as int),
                ),
            decreases word@.len() - i,
        {
            let c = word[i];
            proof {
                assert(word@.take(i + 1).drop_last() =~= word@.take(i as int));
                assert(word@.take(i + 1).last() == c);
            }
            let ghost b0 = blocks_view(blocks@);
            if self.push(c).is_err() {
                if self.buffer.len() > 0 {
                    let b = self.get();
                    blocks.push(b);
                    self.clear();
                    self.just_flushed = true;
                    assert(blocks_view(blocks@) =~= b0 + seq![b@.map_values(|s: String| s@)]);
                } else {
                    assert(blocks_view(blocks@) =~= b0 + Seq::empty());
                }
                if self.sm.push(c) {
                    self.buffer.push(c);
                }
            } else {
                assert(blocks_view(blocks@) =~= b0 + Seq::empty());
            }
            i += 1;
        }
        assert(word@.take(i as int) =~= word@);
        blocks
    }

    /// Flush the current line: the block shown, then a cleared buffer.
    fn flush_into(&mut self, blocks: &mut Vec<Vec<String>>)
        requires
            old(self).inv(),
        ensures
            final(self).inv(),
            final(self).keeps(*old(self)),
            ({
                let (b, m) = w_flush(
                    old(self).setup(),
                    old(self).width_spec(),
                    old(self).align_spec(),
                    old(self).model(),
                );
                &&& final(self).model() == m
                &&& blocks_view(final(blocks)@) == blocks_view(old(blocks)@).push(b)
            }),
    {
        let b = self.get();
        let ghost b0 = blocks_view(blocks@);
        blocks.push(b);
        assert(blocks_view(blocks@) =~= b0.push(b@.map_values(|s: String| s@)));
        self.clear();
    }

    fn append_blocks(blocks: &mut Vec<Vec<String>>, more: Vec<Vec<String>>)
        ensures
            blocks_view(final(blocks)@) == blocks_view(old(blocks)@) + blocks_view(more@),
    {
        let mut more = more;
        let ghost b0 = blocks_view(blocks@);
        let ghost b1 = blocks_view(more@);
        blocks.append(&mut more);
        assert(blocks_view(blocks@) =~= b0 + b1);
    }

    /// Internal wrapper logic for a single segment (no newlines).
    fn wrap_segment(&mut self, s: &Vec<char>) -> (r: Vec<Vec<String>>)
        requires
            old(self).inv(),
        ensures
            final(self).inv(),
            final(self).keeps(*old(self)),
            (final(self).model(), blocks_view(r@)) == w_wrap_segment(
                old(self).setup(),
                old(self).width_spec(),
                old(self).align_spec(),
                old(self).model(),
                s@,
            ),
            all_ws(s@) && (old(self).model().buffer.len() > 0 || old(self).model().just_flushed)
                ==> r@.len() == 0 && final(self).model().lines == old(self).model().lines
                && final(self).model().buffer == old(self).model().buffer,
            sound(old(self).setup(), old(self).model()) && !all_ws(s@) && first_width(
                old(self).setup().push_seq(empty_rows(old(self).model().lines.len()), s@),
            ) <= old(self).width_spec() ==> {
                &&& r@.len() <= 1
                &&& r@.len() == 1 ==> {
                    &&& r@[0]@.map_values(|x: String| x@) == w_get(
                        old(self).setup(),
                        old(self).width_spec(),
                        old(self).align_spec(),
                        old(self).model(),
                    ).0
                    &&& final(self).model().buffer == old(self).setup().rendered_of(s@)
                }
            },
    {
        proof {
            if sound(old(self).setup(), old(self).model()) && !all_ws(s@) && first_width(
                old(self).setup().push_seq(empty_rows(old(self).model().lines.len()), s@),
            ) <= old(self).width_spec() {
                lemma_wrap_point(
                    old(self).setup(),
                    old(self).width_spec(),
                    old(self).align_spec(),
                    old(self).model(),
                    s@,
                );
            }
        }
        let mut blocks: Vec<Vec<String>> = Vec::new();
        assert(blocks_view(blocks@) =~= Seq::empty());
        let empty = all_whitespace(s);

        // Whitespace: dropped at a wrap point, rendered at the start of a
        // line, kept pending between words.
        if empty {
            if self.just_flushed {
                return blocks;
            }
            if self.buffer.len() == 0 {
                let _ = self.push_chars(s);
                return blocks;
            }
            let mut p = match self.pending_space.take() {
                Some(p) => p,
                None => Vec::new(),
            };
            let ghost p0 = p@;
            let mut sc = take_all(s);
            p.append(&mut sc);
            self.pending_space = Some(p);
            assert(self.model() =~= (WrapModel {
                pending: Some(
                    match old(self).model().pending {
                        Some(q) => q,
                        None => Seq::<char>::empty(),
                    } + s@,
                ),
                ..old(self).model()
            }));
            return blocks;
        }

        let after_wrap = self.just_flushed;
        self.just_flushed = false;
        let space = self.pending_space.take();
        match space {
            Some(sp) => {
                if !after_wrap && self.buffer.len() > 0 {
                    let pre = take_all(&self.buffer);
                    if self.push_chars(&sp).is_err() {
                        // The whitespace does not fit: the line ends here,
                        // and whitespace at a wrap point is dropped.
                        self.flush_into(&mut blocks);
                        let more = self.place_word(s);
                        Self::append_blocks(&mut blocks, more);
                        return blocks;
                    }
                    if self.push_chars(s).is_err() {
                        // The word does not fit behind the whitespace: the
                        // line ends before the whitespace.
                        self.sm.clear();
                        let t = string_from_chars(&pre);
                        self.sm.push_str(t.as_str());
                        self.flush_into(&mut blocks);
                        let more = self.place_word(s);
                        Self::append_blocks(&mut blocks, more);
                    }
                    blocks
                } else {
                    self.place_word(s)
                }
            },
            None => self.place_word(s),
        }
    }

    /// Put a word on the current line, flushing a nonempty line first when
    /// the word does not fit, and wrapping a word wider than a line
    /// character by character.
    fn place_word(&mut self, s: &Vec<char>) -> (r: Vec<Vec<String>>)
        requires
            old(self).inv(),
        ensures
            final(self).inv(),
            final(self).keeps(*old(self)),
            (final(self).model(), blocks_view(r@)) == w_place_word(
                old(self).setup(),
                old(self).width_spec(),
                old(self).align_spec(),
                old(self).model(),
                s@,
            ),
    {
        let mut blocks: Vec<Vec<String>> = Vec::new();
        assert(blocks_view(blocks@) =~= Seq::empty());
        if self.push_chars(s).is_err() {
            if self.buffer.len() > 0 {
                self.flush_into(&mut blocks);
            }
            if self.push_chars(s).is_err() {
                let more = self.wrap_word_chars(s);
                Self::append_blocks(&mut blocks, more);
                self.just_flushed = false;
            }
        }
        blocks
    }

    /// Add a string to the output buffer, wrapping it if necessary.
    ///
    /// If the new string causes the output to be wider than the maximum
    /// width, the current buffer contents (if any) are flushed, the buffer is
    /// cleared, and the new string is added to the buffer. If the string is
    /// wider than the output buffer, it is wrapped at character level.
    /// Whitespace is kept between words, and dropped at a wrap point.
    ///
    /// Explicit newline characters ('\n', and CR LF or CR) in the input force
    /// a flush of the current buffer, starting a new output line. The flushed
    /// blocks are returned in order.
    #[verifier::rlimit(40)]
    pub fn wrap_str(&mut self, s: &str) -> (r: Vec<Vec<String>>)
        requires
            old(self).inv(),
        ensures
            final(self).inv(),
            final(self).keeps(*old(self)),
            (final(self).model(), blocks_view(r@)) == w_wrap_str(
                old(self).setup(),
                old(self).width_spec(),
                old(self).align_spec(),
                old(self).model(),
                s@,
            ),
    {
        let chars = str_chars(s);
        let normalized = normalize_newlines(&chars);
        if contains_lf(&normalized) {
            let segments = split_lf(&normalized);
            let ghost segs = lines_of(segments@);
            let ghost st = old(self).setup();
            let ghost width = old(self).width_spec();
            let ghost align = old(self).align_spec();
            let num_segments = segments.len();
            let mut blocks: Vec<Vec<String>> = Vec::new();
            let mut i: usize = 0;
            assert(blocks_view(blocks@) + w_lines(st, width, align, self.model(), segs, 0).1
                =~= w_lines(st, width, align, self.model(), segs, 0).1);
            while i < num_segments
                invariant
                    self.inv(),
                    self.keeps(*old(self)),
                    st == old(self).setup(),
                    width == old(self).width_spec(),
                    align == old(self).align_spec(),
                    num_segments == segments@.len(),
                    segs == lines_of(segments@),
                    i <= num_segments,
                    w_lines(st, width, align, old(self).model(), segs, 0).0 == w_lines(
                        st,
                        width,
                        align,
                        self.model(),
                        segs,
                        i as nat,
                    ).0,
                    w_lines(st, width, align, old(self).model(), segs, 0).1 == blocks_view(blocks@)
                        + w_lines(st, width, align, self.model(), segs, i as nat).1,
                decreases num_segments - i,
            {
                let ghost m = self.model();
                let ghost b0 = blocks_view(blocks@);
                let segment = &segments[i];
                assert(segs[i as int] == segment@);
                if i > 0 {
                    if !self.is_empty() {
                        self.flush_into(&mut blocks);
                    }
                    if segment.len() == 0 && i < num_segments - 1 {
                        self.flush_into(&mut blocks);
                    }
                }
                let ghost bb = blocks_view(blocks@);
                if segment.len() > 0 {
                    let more = self.wrap_segment(segment);
                    Self::append_blocks(&mut blocks, more);
                }
                proof {
                    let total = w_lines(st, width, align, old(self).model(), segs, 0);
                    let rest = w_lines(st, width, align, self.model(), segs, (i + 1) as nat);
                    let here = w_lines(st, width, align, m, segs, i as nat);
                    assert(here.0 == rest.0);
                    assert(here.1 =~= (blocks_view(blocks@).skip(b0.len() as int)) + rest.1);
                    assert(b0 + here.1 =~= blocks_view(blocks@) + rest.1);
                }
                i += 1;
            }
            assert(blocks_view(blocks@) + Seq::<Seq<Seq<char>>>::empty() =~= blocks_view(blocks@));
            return blocks;
        }
        self.wrap_segment(&chars)
    }
}


/// The output rows are those of the rendered text of the current line.
pub open spec fn consistent(sm: SmSetup, m: WrapModel) -> bool {
    m.lines == sm.push_seq(empty_rows(m.lines.len()), m.buffer)
}

/// In a well-formed font every FIGcharacter has as many rows as the font.
pub proof fn lemma_glyph_height(sm: SmSetup, ch: char)
    requires
        sm.font.wf(),
    ensures
        sm.glyph_for(ch) matches Some(g) ==> g.len() == sm.font.height,
{
    let e = sm.font.entries();
    let code = sm.mapped_code(ch);
    if exists|k: int| 0 <= k < e.len() && (#[trigger] e[k]).0 == code {
        let k = choose|k: int| 0 <= k < e.len() && (#[trigger] e[k]).0 == code;
        assert(e[k].1.len() == sm.font.height);
    }
}

/// Adding text to rows as many as the font's height keeps their number.
pub proof fn lemma_push_seq_len(sm: SmSetup, lines: Seq<Seq<char>>, s: Seq<char>)
    requires
        sm.font.wf(),
        lines.len() == sm.font.height,
    ensures
        sm.push_seq(lines, s).len() == lines.len(),
    decreases s.len(),
{
    if s.len() > 0 {
        lemma_push_seq_len(sm, lines, s.drop_last());
        lemma_glyph_height(sm, s.last());
    }
}

/// A refused `push_str` leaves the wrapper as it was, and an accepted one
/// adds the text to the output and its rendered characters to the line.
pub proof fn lemma_push_str_law(sm: SmSetup, width: usize, m: WrapModel, s: Seq<char>)
    requires
        sm.font.wf(),
        m.lines.len() == sm.font.height,
        consistent(sm, m),
    ensures
        ({
            let (ok, m2) = w_push_str(sm, width, m, s);
            &&& !ok ==> m2 == m
            &&& ok ==> m2.lines == sm.push_seq(m.lines, s) && m2.buffer == m.buffer
                + sm.rendered_of(s)
            &&& consistent(sm, m2)
            &&& m2.lines.len() == m.lines.len()
        }),
{
    let n = m.lines.len();
    lemma_push_seq_len(sm, m.lines, s);
    let (ok, m2) = w_push_str(sm, width, m, s);
    if ok {
        crate::smusher::lemma_push_seq_concat(sm, empty_rows(n), m.buffer, sm.rendered_of(s));
        crate::smusher::lemma_missing_skipped(sm, m.lines, s);
    } else {
        assert(m2 == m);
    }
}

/// A refused `push` leaves the wrapper as it was, and an accepted one adds
/// the character to the output, and to the line when it renders.
pub proof fn lemma_push_law(sm: SmSetup, width: usize, m: WrapModel, ch: char)
    requires
        sm.font.wf(),
        m.lines.len() == sm.font.height,
        consistent(sm, m),
    ensures
        ({
            let (ok, m2) = w_push(sm, width, m, ch);
            &&& !ok ==> m2 == m
            &&& ok ==> m2.lines == sm.push_one(m.lines, ch)
            &&& consistent(sm, m2)
            &&& m2.lines.len() == m.lines.len()
        }),
{
    let n = m.lines.len();
    lemma_glyph_height(sm, ch);
    let (ok, m2) = w_push(sm, width, m, ch);
    if ok {
        if sm.renders(ch) {
            let b = m.buffer.push(ch);
            assert(b.drop_last() =~= m.buffer);
        }
    } else {
        assert(m2 == m);
    }
}

/// A cleared wrapper is consistent and empty.
pub proof fn lemma_clear_law(sm: SmSetup, m: WrapModel)
    ensures
        consistent(sm, w_clear(m)),
        w_clear(m).lines.len() == m.lines.len(),
        rows_empty(w_clear(m).lines),
{
}

/// No row is longer than the longest.
pub proof fn lemma_max_len(lines: Seq<Seq<char>>)
    ensures
        forall|i: int| 0 <= i < lines.len() ==> (#[trigger] lines[i]).len() <= max_len(lines),
        lines.len() > 0 ==> exists|i: int| 0 <= i < lines.len() && (#[trigger] lines[i]).len() == max_len(lines),
    decreases lines.len(),
{
    if lines.len() > 0 {
        let t = lines.drop_last();
        lemma_max_len(t);
        assert forall|i: int| 0 <= i < lines.len() implies (#[trigger] lines[i]).len() <= max_len(lines) by {
            if i < t.len() {
                assert(lines[i] == t[i]);
            }
        }
        if lines.last().len() <= max_len(t) && t.len() > 0 {
            let k = choose|k: int| 0 <= k < t.len() && (#[trigger] t[k]).len() == max_len(t);
            assert(lines[k] == t[k]);
        } else {
            assert(lines[lines.len() - 1] == lines.last());
        }
    }
}

/// The block that `get` shows is rectangular: its rows are all as long as
/// the widest row plus the indentation of the alignment; right aligned in
/// a width that the widest row fits, every row is exactly `width` long.
pub proof fn lemma_shown_block_rect(lines: Seq<Seq<char>>, hardblank: char, width: usize, align: Align)
    ensures
        ({
            let b = shown_block(lines, hardblank, width, align);
            let mw = max_len(lines);
            let w: nat = if width >= mw { (width - mw) as nat } else { 0 };
            let p: nat = match align {
                Align::Left => 0,
                Align::Center => w / 2 + w % 2,
                Align::Right => w,
            };
            &&& b.len() == lines.len()
            &&& forall|i: int| 0 <= i < b.len() ==> (#[trigger] b[i]).len() == mw + p
            &&& (align == Align::Right && mw <= width) ==> forall|i: int|
                0 <= i < b.len() ==> (#[trigger] b[i]).len() == width
        }),
{
    lemma_max_len(lines);
}


/// What `get` keeps of the output has a first row that fits the width.
pub proof fn lemma_kept_fits(lines: Seq<Seq<char>>, width: usize)
    requires
        lines.len() > 0,
    ensures
        kept_rows(lines, width).len() == lines.len(),
        first_width(kept_rows(lines, width)) <= width,
{
    if first_width(lines) > width {
        crate::smusher::lemma_cut_law(lines[0], width as nat);
    }
}


/// The wrapper's state is sound for the font: the font is well formed, the
/// output has a row for each row of the font, and the output is the
/// rendering of the current line.
pub open spec fn sound(sm: SmSetup, m: WrapModel) -> bool {
    &&& sm.font.wf()
    &&& m.lines.len() == sm.font.height
    &&& consistent(sm, m)
}

proof fn lemma_flush_sound(sm: SmSetup, width: usize, align: Align, m: WrapModel)
    requires
        sm.font.wf(),
        m.lines.len() == sm.font.height,
    ensures
        sound(sm, w_flush(sm, width, align, m).1),
{
    let lines = kept_rows(m.lines, width);
    assert(lines.len() == m.lines.len());
}

proof fn lemma_word_step_sound(sm: SmSetup, width: usize, align: Align, m: WrapModel, c: char)
    requires
        sound(sm, m),
    ensures
        sound(sm, w_word_step(sm, width, align, m, c).0),
{
    lemma_push_law(sm, width, m, c);
    let (ok, m1) = w_push(sm, width, m, c);
    if !ok {
        let m2 = if m1.buffer.len() > 0 {
            lemma_flush_sound(sm, width, align, m1);
            w_flush(sm, width, align, m1).1.with_flushed(true)
        } else {
            m1
        };
        assert(sound(sm, m2));
        lemma_glyph_height(sm, c);
        if sm.renders(c) {
            let b = m2.buffer.push(c);
            assert(b.drop_last() =~= m2.buffer);
        }
    }
}

proof fn lemma_wrap_word_sound(sm: SmSetup, width: usize, align: Align, m: WrapModel, word: Seq<char>)
    requires
        sound(sm, m),
    ensures
        sound(sm, w_wrap_word(sm, width, align, m, word).0),
    decreases word.len(),
{
    if word.len() > 0 {
        lemma_wrap_word_sound(sm, width, align, m, word.drop_last());
        let m1 = w_wrap_word(sm, width, align, m, word.drop_last()).0;
        lemma_word_step_sound(sm, width, align, m1, word.last());
    }
}

proof fn lemma_push_str_sound(sm: SmSetup, width: usize, m: WrapModel, s: Seq<char>)
    requires
        sound(sm, m),
    ensures
        sound(sm, w_push_str(sm, width, m, s).1),
{
    lemma_push_str_law(sm, width, m, s);
}

proof fn lemma_place_word_sound(sm: SmSetup, width: usize, align: Align, m: WrapModel, s: Seq<char>)
    requires
        sound(sm, m),
    ensures
        sound(sm, w_place_word(sm, width, align, m, s).0),
{
    lemma_push_str_sound(sm, width, m, s);
    let (ok1, m1) = w_push_str(sm, width, m, s);
    if !ok1 {
        let m2 = if m1.buffer.len() > 0 {
            lemma_flush_sound(sm, width, align, m1);
            w_flush(sm, width, align, m1).1
        } else {
            m1
        };
        lemma_push_str_sound(sm, width, m2, s);
        let (ok2, m3) = w_push_str(sm, width, m2, s);
        if !ok2 {
            lemma_wrap_word_sound(sm, width, align, m3, s);
        }
    }
}

proof fn lemma_segment_sound(sm: SmSetup, width: usize, align: Align, m: WrapModel, s: Seq<char>)
    requires
        sound(sm, m),
    ensures
        sound(sm, w_wrap_segment(sm, width, align, m, s).0),
{
    if all_ws(s) {
        if !m.just_flushed && m.buffer.len() == 0 {
            lemma_push_str_sound(sm, width, m, s);
        }
    } else {
        let m0 = WrapModel { just_flushed: false, pending: None, ..m };
        assert(sound(sm, m0));
        match m.pending {
            Some(sp) => {
                if !m.just_flushed && m0.buffer.len() > 0 {
                    let pre = m0.buffer;
                    lemma_push_str_sound(sm, width, m0, sp);
                    let (ok1, m1) = w_push_str(sm, width, m0, sp);
                    if !ok1 {
                        lemma_flush_sound(sm, width, align, m1);
                        let mc = w_flush(sm, width, align, m1).1;
                        lemma_place_word_sound(sm, width, align, mc, s);
                    } else {
                        lemma_push_str_sound(sm, width, m1, s);
                        let (ok2, m3) = w_push_str(sm, width, m1, s);
                        if !ok2 {
                            let m4 = m3.with_lines(sm.push_seq(empty_rows(m3.lines.len()), pre));
                            lemma_push_seq_len(sm, empty_rows(m3.lines.len()), pre);
                            lemma_flush_sound(sm, width, align, m4);
                            let m5 = w_flush(sm, width, align, m4).1;
                            lemma_place_word_sound(sm, width, align, m5, s);
                        }
                    }
                } else {
                    lemma_place_word_sound(sm, width, align, m0, s);
                }
            },
            None => {
                lemma_place_word_sound(sm, width, align, m0, s);
            },
        }
    }
}

proof fn lemma_lines_sound(sm: SmSetup, width: usize, align: Align, m: WrapModel, segs: Seq<Seq<char>>, i: nat)
    requires
        sound(sm, m),
    ensures
        sound(sm, w_lines(sm, width, align, m, segs, i).0),
    decreases segs.len() - i,
{
    if i < segs.len() {
        let seg = segs[i as int];
        let ma = if i > 0 && !rows_empty(m.lines) {
            lemma_flush_sound(sm, width, align, m);
            w_flush(sm, width, align, m).1
        } else {
            m
        };
        let mb = if i > 0 && seg.len() == 0 && i + 1 < segs.len() {
            lemma_flush_sound(sm, width, align, ma);
            w_flush(sm, width, align, ma).1
        } else {
            ma
        };
        let m2 = if seg.len() == 0 {
            mb
        } else {
            lemma_segment_sound(sm, width, align, mb, seg);
            w_wrap_segment(sm, width, align, mb, seg).0
        };
        lemma_lines_sound(sm, width, align, m2, segs, i + 1);
    }
}

/// Wrapping text keeps the wrapper sound: its output stays the rendering
/// of its current line, whatever was flushed on the way.
pub proof fn lemma_wrap_str_sound(sm: SmSetup, width: usize, align: Align, m: WrapModel, s: Seq<char>)
    requires
        sound(sm, m),
    ensures
        sound(sm, w_wrap_str(sm, width, align, m, s).0),
{
    let ns = normalize(s);
    if ns.contains('\n') {
        lemma_lines_sound(sm, width, align, m, segments(ns), 0);
    } else {
        lemma_segment_sound(sm, width, align, m, s);
    }
}


/// A wrapper on a fresh smusher starts sound.
pub proof fn lemma_fresh_sound(sm: SmSetup)
    requires
        sm.font.wf(),
    ensures
        sound(
            sm,
            WrapModel {
                lines: empty_rows(sm.font.height as nat),
                buffer: Seq::empty(),
                pending: None,
                just_flushed: false,
            },
        ),
{
}


/// Placing a word that fits a line on its own onto an empty line keeps it
/// there alone.
proof fn lemma_place_on_empty(sm: SmSetup, width: usize, align: Align, m: WrapModel, s: Seq<char>)
    requires
        sound(sm, m),
        m.buffer.len() == 0,
        m.lines.len() > 0,
        first_width(sm.push_seq(empty_rows(m.lines.len()), s)) <= width,
    ensures
        ({
            let (m2, bs) = w_place_word(sm, width, align, m, s);
            &&& bs.len() == 0
            &&& m2.lines == sm.push_seq(empty_rows(m.lines.len()), s)
            &&& m2.buffer == sm.rendered_of(s)
        }),
{
    assert(m.lines == empty_rows(m.lines.len()));
    assert(Seq::<char>::empty() + sm.rendered_of(s) =~= sm.rendered_of(s));
}

/// A wrap hands out at most one line, and only whole: when a word that fits
/// a line on its own does not fit behind the current line (or behind the
/// whitespace waiting for it), the line is shown once, as it was before the
/// word and the whitespace, and the next line holds the word alone; the
/// whitespace at the wrap point is dropped.
pub proof fn lemma_wrap_point(sm: SmSetup, width: usize, align: Align, m: WrapModel, s: Seq<char>)
    requires
        sound(sm, m),
        m.lines.len() > 0,
        !all_ws(s),
        first_width(sm.push_seq(empty_rows(m.lines.len()), s)) <= width,
    ensures
        ({
            let (m2, bs) = w_wrap_segment(sm, width, align, m, s);
            &&& bs.len() <= 1
            &&& bs.len() == 1 ==> {
                &&& bs[0] == w_get(sm, width, align, m).0
                &&& m2.lines == sm.push_seq(empty_rows(m.lines.len()), s)
                &&& m2.buffer == sm.rendered_of(s)
            }
        }),
{
    let n = m.lines.len();
    let m0 = WrapModel { just_flushed: false, pending: None, ..m };
    assert(sound(sm, m0));
    let commit = match m.pending {
        Some(sp) => !m.just_flushed && m0.buffer.len() > 0,
        None => false,
    };
    if commit {
        let sp = m.pending.unwrap();
        let pre = m0.buffer;
        lemma_push_str_law(sm, width, m0, sp);
        let (ok1, m1) = w_push_str(sm, width, m0, sp);
        if !ok1 {
            lemma_flush_sound(sm, width, align, m1);
            let mc = w_flush(sm, width, align, m1).1;
            lemma_place_on_empty(sm, width, align, mc, s);
            let (m2, b2) = w_place_word(sm, width, align, mc, s);
            assert(seq![w_flush(sm, width, align, m1).0] + b2 =~= seq![w_flush(sm, width, align, m1).0]);
        } else {
            lemma_push_str_law(sm, width, m1, s);
            let (ok2, m3) = w_push_str(sm, width, m1, s);
            if !ok2 {
                let m4 = m3.with_lines(sm.push_seq(empty_rows(m3.lines.len()), pre));
                assert(m4.lines == m.lines);
                lemma_flush_sound(sm, width, align, m4);
                let m5 = w_flush(sm, width, align, m4).1;
                lemma_place_on_empty(sm, width, align, m5, s);
                let (m6, b2) = w_place_word(sm, width, align, m5, s);
                assert(seq![w_flush(sm, width, align, m4).0] + b2 =~= seq![w_flush(sm, width, align, m4).0]);
            }
        }
    } else {
        lemma_push_str_law(sm, width, m0, s);
        let (ok1, m1) = w_push_str(sm, width, m0, s);
        if !ok1 {
            if m1.buffer.len() > 0 {
                lemma_flush_sound(sm, width, align, m1);
                let mc = w_flush(sm, width, align, m1).1;
                lemma_push_str_law(sm, width, mc, s);
                assert(mc.lines == empty_rows(n));
                assert(Seq::<char>::empty() + sm.rendered_of(s) =~= sm.rendered_of(s));
            } else {
                assert(m0.lines == empty_rows(n));
            }
        }
    }
}


/// Whitespace on a nonempty line, or right after a wrap, hands out nothing
/// and leaves the output and the line as they are: it is drawn only once the
/// next word arrives, or dropped at a wrap point.
pub proof fn lemma_blank_piece(sm: SmSetup, width: usize, align: Align, m: WrapModel, s: Seq<char>)
    requires
        all_ws(s),
        m.buffer.len() > 0 || m.just_flushed,
    ensures
        ({
            let (m2, bs) = w_wrap_segment(sm, width, align, m, s);
            &&& bs.len() == 0
            &&& m2.lines == m.lines
            &&& m2.buffer == m.buffer
        }),
{
}


/// `n` line feeds.
pub open spec fn line_feeds(n: nat) -> Seq<char> {
    Seq::new(n, |i: int| '\n')
}

/// What `get` shows of a line with nothing on it, `n` rows high.
pub open spec fn blank_block(sm: SmSetup, width: usize, align: Align, n: nat) -> Seq<Seq<char>> {
    shown_block(empty_rows(n), sm.font.hardblank, width, align)
}

proof fn lemma_normalize_lf(n: nat)
    ensures
        normalize(line_feeds(n)) == line_feeds(n),
        segments(line_feeds(n)) == Seq::new(n + 1, |i: int| Seq::<char>::empty()),
    decreases n,
{
    let s = line_feeds(n);
    if n > 0 {
        assert(s.drop_first() =~= line_feeds((n - 1) as nat));
        lemma_normalize_lf((n - 1) as nat);
        assert(s[0] == '\n');
        assert(normalize(s) =~= seq!['\n'] + normalize(s.drop_first()));
        assert(seq!['\n'] + line_feeds((n - 1) as nat) =~= s);
        assert(seq![Seq::<char>::empty()] + Seq::new(n as nat, |i: int| Seq::<char>::empty())
            =~= Seq::new(n + 1, |i: int| Seq::<char>::empty()));
    } else {
        assert(s =~= Seq::<char>::empty());
        assert(seq![Seq::<char>::empty()] =~= Seq::new(1, |i: int| Seq::<char>::empty()));
    }
}

/// From an empty line, the empty pieces `segs[i..]` of a text made of line
/// feeds show one blank line for each piece but the last.
proof fn lemma_blank_pieces(sm: SmSetup, width: usize, align: Align, c: WrapModel, segs: Seq<Seq<char>>, i: nat)
    requires
        c == w_clear(c),
        c.lines.len() > 0,
        forall|j: int| 0 <= j < segs.len() ==> (#[trigger] segs[j]).len() == 0,
        1 <= i <= segs.len(),
    ensures
        w_lines(sm, width, align, c, segs, i) == (
            c,
            Seq::new(
                if i + 1 < segs.len() {
                    (segs.len() - 1 - i) as nat
                } else {
                    0nat
                },
                |j: int| blank_block(sm, width, align, c.lines.len()),
            ),
        ),
    decreases segs.len() - i,
{
    let n = c.lines.len();
    if i < segs.len() {
        assert(segs[i as int].len() == 0);
        let b = blank_block(sm, width, align, n);
        assert(kept_rows(c.lines, width) == c.lines) by {
            assert(c.lines[0] =~= Seq::<char>::empty());
        }
        if i + 1 < segs.len() {
            assert(w_flush(sm, width, align, c) == (b, c));
        }
        lemma_blank_pieces(sm, width, align, c, segs, i + 1);
        if i + 1 < segs.len() {
            let rest = Seq::new(
                if i + 2 < segs.len() {
                    (segs.len() - 1 - (i + 1)) as nat
                } else {
                    0nat
                },
                |j: int| b,
            );
            assert(seq![b] + Seq::<Seq<Seq<char>>>::empty() + rest =~= Seq::new(
                (segs.len() - 1 - i) as nat,
                |j: int| b,
            ));
        } else {
            assert(Seq::<Seq<Seq<char>>>::empty() + Seq::<Seq<Seq<char>>>::empty()
                + Seq::<Seq<Seq<char>>>::empty() =~= Seq::new(0nat, |j: int| b));
        }
    } else {
        assert(Seq::<Seq<Seq<char>>>::empty() =~= Seq::new(
            0nat,
            |j: int| blank_block(sm, width, align, n),
        ));
    }
}

/// Line feeds end lines and make blank lines: wrapping `k + 1` line feeds
/// shows the current line (when it holds anything) and then one blank line
/// for each line feed after the first, and leaves an empty line.
pub proof fn law_blank_lines(sm: SmSetup, width: usize, align: Align, m: WrapModel, k: nat)
    requires
        m.lines.len() > 0,
        rows_empty(m.lines) ==> m.lines == empty_rows(m.lines.len()),
    ensures
        ({
            let (m2, bs) = w_wrap_str(sm, width, align, m, line_feeds(k + 1));
            &&& bs == (if rows_empty(m.lines) {
                Seq::<Seq<Seq<char>>>::empty()
            } else {
                seq![w_get(sm, width, align, m).0]
            }) + Seq::new(k, |j: int| blank_block(sm, width, align, m.lines.len()))
            &&& rows_empty(m2.lines)
        }),
{
    let n = m.lines.len();
    let s = line_feeds(k + 1);
    lemma_normalize_lf(k + 1);
    assert(s[0] == '\n');
    assert(normalize(s).contains('\n'));
    let segs = segments(s);
    assert(segs.len() == k + 2);
    assert forall|j: int| 0 <= j < segs.len() implies (#[trigger] segs[j]).len() == 0 by {}
    let b = blank_block(sm, width, align, n);
    let c = w_clear(m);
    assert(c == w_clear(c));
    assert(kept_rows(c.lines, width) == c.lines) by {
        assert(c.lines[0] =~= Seq::<char>::empty());
    }
    // The first piece is empty and shows nothing.
    assert(w_lines(sm, width, align, m, segs, 0) == w_lines(sm, width, align, m, segs, 1)) by {
        assert(w_lines(sm, width, align, m, segs, 0).1 =~= Seq::<Seq<Seq<char>>>::empty()
            + Seq::<Seq<Seq<char>>>::empty() + w_lines(sm, width, align, m, segs, 1).1);
    }
    let head: Seq<Seq<Seq<char>>> = if rows_empty(m.lines) {
        Seq::empty()
    } else {
        seq![w_get(sm, width, align, m).0]
    };
    if rows_empty(m.lines) {
        assert(kept_rows(m.lines, width) == m.lines) by {
            assert(m.lines[0] =~= Seq::<char>::empty());
        }
        if k >= 1 {
            assert(w_flush(sm, width, align, m) == (b, c));
        }
    } else {
        assert(w_flush(sm, width, align, m).1.lines == empty_rows(n));
        assert(w_flush(sm, width, align, m).1 == c);
        if k >= 1 {
            assert(w_flush(sm, width, align, c) == (b, c));
        }
    }
    if k >= 1 {
        lemma_blank_pieces(sm, width, align, c, segs, 2);
        let rest = Seq::new(
            if 3 < segs.len() {
                (segs.len() - 1 - 2) as nat
            } else {
                0nat
            },
            |j: int| b,
        );
        assert(head.push(b) + Seq::<Seq<Seq<char>>>::empty() + rest =~= head + Seq::new(
            k,
            |j: int| b,
        ));
    } else {
        let ma = if rows_empty(m.lines) {
            m
        } else {
            c
        };
        assert(w_lines(sm, width, align, ma, segs, 2).1 =~= Seq::<Seq<Seq<char>>>::empty());
        assert(head + Seq::<Seq<Seq<char>>>::empty() + Seq::<Seq<Seq<char>>>::empty()
            =~= head + Seq::new(k, |j: int| b));
    }
}


/// A word that fits goes on the current line and nothing is handed out:
/// with no whitespace waiting, the word is added to the line; with
/// whitespace waiting on a line that was not just wrapped, the whitespace
/// and then the word are added, when each fits.
pub proof fn law_word_fits(sm: SmSetup, width: usize, align: Align, m: WrapModel, s: Seq<char>)
    requires
        sound(sm, m),
        !all_ws(s),
    ensures
        ({
            let (m2, bs) = w_wrap_segment(sm, width, align, m, s);
            &&& (m.pending is None && first_width(sm.push_seq(m.lines, s)) <= width) ==> {
                &&& bs.len() == 0
                &&& m2.lines == sm.push_seq(m.lines, s)
                &&& m2.buffer == m.buffer + sm.rendered_of(s)
                &&& m2.pending is None
            }
            &&& (m.pending is Some && !m.just_flushed && m.buffer.len() > 0 && first_width(
                sm.push_seq(m.lines, m.pending.unwrap()),
            ) <= width && first_width(sm.push_seq(m.lines, m.pending.unwrap() + s)) <= width)
                ==> {
                &&& bs.len() == 0
                &&& m2.lines == sm.push_seq(m.lines, m.pending.unwrap() + s)
                &&& m2.buffer == m.buffer + sm.rendered_of(m.pending.unwrap() + s)
                &&& m2.pending is None
            }
        }),
{
    let m0 = WrapModel { just_flushed: false, pending: None, ..m };
    if let Some(sp) = m.pending {
        if !m.just_flushed && m.buffer.len() > 0 && first_width(sm.push_seq(m.lines, sp)) <= width
            && first_width(sm.push_seq(m.lines, sp + s)) <= width {
            crate::smusher::lemma_push_seq_concat(sm, m.lines, sp, s);
            crate::smusher::lemma_rendered_concat(sm, sp, s);
            assert(m.buffer + sm.rendered_of(sp) + sm.rendered_of(s) =~= m.buffer + (sm.rendered_of(
                sp,
            ) + sm.rendered_of(s)));
        }
    }
}


/// The pieces joined with line feeds between them.
pub open spec fn join_lf(segs: Seq<Seq<char>>) -> Seq<char>
    decreases segs.len(),
{
    if segs.len() == 0 {
        Seq::empty()
    } else if segs.len() == 1 {
        segs[0]
    } else {
        segs[0] + seq!['\n'] + join_lf(segs.drop_first())
    }
}

/// Cutting a text at its line feeds loses nothing: the pieces hold no line
/// feed, and joined with line feeds they give the text back.
pub proof fn law_segments(s: Seq<char>)
    ensures
        segments(s).len() >= 1,
        join_lf(segments(s)) == s,
        forall|i: int| 0 <= i < segments(s).len() ==> !(#[trigger] segments(s)[i]).contains('\n'),
    decreases s.len(),
{
    if s.len() > 0 {
        let t = s.drop_first();
        law_segments(t);
        let r = segments(t);
        if s[0] == '\n' {
            let g = seq![Seq::<char>::empty()] + r;
            assert(g.drop_first() =~= r);
            assert(join_lf(g) =~= seq!['\n'] + join_lf(r));
            assert(seq!['\n'] + t =~= s);
            assert forall|i: int| 0 <= i < g.len() implies !(#[trigger] g[i]).contains('\n') by {
                if i > 0 {
                    assert(g[i] == r[i - 1]);
                } else {
                    assert(g[0] =~= Seq::<char>::empty());
                }
            }
        } else {
            let g = r.update(0, seq![s[0]] + r[0]);
            if r.len() == 1 {
                assert(join_lf(g) == g[0]);
                assert(g[0] =~= s);
            } else {
                assert(g.drop_first() =~= r.drop_first());
                assert(join_lf(g) =~= seq![s[0]] + join_lf(r));
                assert(seq![s[0]] + t =~= s);
            }
            assert forall|i: int| 0 <= i < g.len() implies !(#[trigger] g[i]).contains('\n') by {
                if i == 0 {
                    if g[0].contains('\n') {
                        let k = choose|k: int| 0 <= k < g[0].len() && g[0][k] == '\n';
                        if k > 0 {
                            assert(r[0][k - 1] == '\n');
                            assert(r[0].contains('\n'));
                        }
                    }
                } else {
                    assert(g[i] == r[i]);
                }
            }
        }
    } else {
        assert(segments(s) =~= seq![Seq::<char>::empty()]);
    }
}

} // verus!
