//! Placing FIGcharacters side by side.

use vstd::prelude::*;
use unicode_width::UnicodeWidthChar;
pub use crate::figfont::{FIGchar, FIGfont};
use crate::text::{take_chars, string_from_chars, string_push, str_chars, char_from_u32, replaced, replace_char};
use crate::control::{FlcPipeline, pipeline_map};
use crate::{SMUSH_ENABLE, SMUSH_KERN};

pub mod charsmush;
pub mod strsmush;

verus! {

use strsmush::{sat, gap, join, overlap_blank};

/// The display width that unicode-width gives a character (`None` for
/// control characters).
pub uninterp spec fn unicode_char_width(c: char) -> Option<usize>;

/// U+0020..=U+007E.
pub open spec fn printable_ascii(c: char) -> bool {
    0x20 <= c as u32 <= 0x7E
}

/// U+0000..=U+001F and U+007F..=U+009F.
pub open spec fn control_char(c: char) -> bool {
    (c as u32) < 0x20 || (0x7F <= c as u32 <= 0x9F)
}

/// `UnicodeWidthChar::width` of unicode-width: the number of columns that
/// `c` takes on a terminal, or `None` for a control character. As the
/// crate's source shows, U+0020..=U+007E take one column, U+0000..=U+001F
/// and U+007F..=U+009F are control characters, and every other character
/// has a width read from a table of `u8` values.
#[verifier::external_body]
fn char_width(c: char) -> (r: Option<usize>)
    ensures
        r == unicode_char_width(c),
        printable_ascii(c) ==> r == Some(1usize),
        control_char(c) ==> r is None,
        !printable_ascii(c) && !control_char(c) ==> r is Some && r.unwrap() <= 255,
{
    c.width()
}

/// The columns a sub-character takes: its display width, and one for a
/// control character.
pub open spec fn cols_of(c: char) -> nat {
    match unicode_char_width(c) {
        Some(w) => w as nat,
        None => 1,
    }
}

/// The columns that the characters of `s` take together.
pub open spec fn width_of(s: Seq<char>) -> nat
    decreases s.len(),
{
    if s.len() == 0 {
        0
    } else {
        cols_of(s[0]) + width_of(s.drop_first())
    }
}

pub proof fn lemma_width_push(s: Seq<char>, c: char)
    ensures
        width_of(s.push(c)) == width_of(s) + cols_of(c),
    decreases s.len(),
{
    if s.len() > 0 {
        assert(s.push(c).drop_first() =~= s.drop_first().push(c));
        assert(s.push(c)[0] == s[0]);
        lemma_width_push(s.drop_first(), c);
    } else {
        assert(s.push(c).drop_first() =~= Seq::<char>::empty());
        assert(s.push(c)[0] == c);
        assert(width_of(Seq::<char>::empty()) == 0);
    }
}

fn cols(c: char) -> (r: usize)
    ensures
        r == cols_of(c),
        r <= 255,
{
    match char_width(c) {
        Some(w) => w,
        None => 1,
    }
}

/// The number of columns the characters of `s` take (at most `usize::MAX`).
pub(crate) fn display_width(s: &Vec<char>) -> (r: usize)
    ensures
        r == sat(width_of(s@)),
{
    let mut total: usize = 0;
    let mut i: usize = 0;
    while i < s.len()
        invariant
            i <= s@.len(),
            total == sat(width_of(s@.take(i as int))),
        decreases s@.len() - i,
    {
        proof {
            assert(s@.take(i + 1) =~= s@.take(i as int).push(s@[i as int]));
            lemma_width_push(s@.take(i as int), s@[i as int]);
        }
        total = total.saturating_add(cols(s[i]));
        i += 1;
    }
    assert(s@.take(i as int) =~= s@);
    total
}

/// How many characters at the start of `s` fit in `budget` columns: a
/// character is taken while the columns taken so far and its own fit.
pub open spec fn fit(s: Seq<char>, budget: nat) -> nat
    decreases s.len(),
{
    if s.len() == 0 {
        0
    } else if cols_of(s[0]) > budget {
        0
    } else {
        1 + fit(s.drop_first(), (budget - cols_of(s[0])) as nat)
    }
}

/// The longest start of `s` that fits in `width` columns.
pub open spec fn cut(s: Seq<char>, width: nat) -> Seq<char> {
    s.take(fit(s, width) as int)
}

pub proof fn lemma_fit_len(s: Seq<char>, budget: nat)
    ensures
        fit(s, budget) <= s.len(),
    decreases s.len(),
{
    if s.len() > 0 && cols_of(s[0]) <= budget {
        lemma_fit_len(s.drop_first(), (budget - cols_of(s[0])) as nat);
    }
}

/// A line that fits is taken whole.
pub proof fn lemma_fit_all(s: Seq<char>, budget: nat)
    requires
        width_of(s) <= budget,
    ensures
        fit(s, budget) == s.len(),
    decreases s.len(),
{
    if s.len() > 0 {
        lemma_fit_all(s.drop_first(), (budget - cols_of(s[0])) as nat);
    }
}

/// What `cut` keeps fits in the width.
pub proof fn lemma_cut_fits(s: Seq<char>, budget: nat)
    ensures
        width_of(cut(s, budget)) <= budget,
    decreases s.len(),
{
    lemma_fit_len(s, budget);
    if s.len() == 0 || cols_of(s[0]) > budget {
        assert(cut(s, budget) =~= Seq::<char>::empty());
    } else {
        let rest = s.drop_first();
        let b2 = (budget - cols_of(s[0])) as nat;
        lemma_cut_fits(rest, b2);
        assert(cut(s, budget).drop_first() =~= cut(rest, b2));
    }
}

/// Cut the line `s` to the columns of `width`.
fn trim_line(s: &Vec<char>, width: usize) -> (r: Vec<char>)
    ensures
        r@ == cut(s@, width as nat),
{
    let w = display_width(s);
    if w <= width && w < usize::MAX {
        proof {
            lemma_fit_all(s@, width as nat);
        }
        return take_chars(s, s.len());
    }
    let mut total: usize = 0;
    let mut end: usize = 0;
    proof {
        assert(s@.skip(0) =~= s@);
    }
    while end < s.len() && cols(s[end]) <= width - total
        invariant
            end <= s@.len(),
            total <= width,
            fit(s@, width as nat) == end + fit(s@.skip(end as int), (width - total) as nat),
        decreases s@.len() - end,
    {
        let cw = cols(s[end]);
        proof {
            assert(s@.skip(end as int).drop_first() =~= s@.skip(end + 1));
        }
        total += cw;
        end += 1;
    }
    proof {
        if end == s@.len() {
            assert(s@.skip(end as int) =~= Seq::<char>::empty());
        }
        lemma_fit_len(s@, width as nat);
    }
    take_chars(s, end)
}

/// The lines of a block of output.
pub open spec fn lines_of(v: Seq<Vec<char>>) -> Seq<Seq<char>> {
    v.map_values(|l: Vec<char>| l@)
}

/// Cut every line of `output` to the columns of `width`.
fn trim_rows(output: &Vec<Vec<char>>, width: usize) -> (r: Vec<Vec<char>>)
    ensures
        lines_of(r@) == lines_of(output@).map_values(|l: Seq<char>| cut(l, width as nat)),
{
    let mut res: Vec<Vec<char>> = Vec::new();
    let mut i: usize = 0;
    while i < output.len()
        invariant
            i <= output@.len(),
            lines_of(res@) == lines_of(output@).map_values(|l: Seq<char>| cut(l, width as nat)).take(
                i as int,
            ),
        decreases output@.len() - i,
    {
        let ghost before = lines_of(res@);
        let line = trim_line(&output[i], width);
        res.push(line);
        proof {
            let target = lines_of(output@).map_values(|l: Seq<char>| cut(l, width as nat));
            assert(lines_of(res@) =~= before.push(line@));
            assert(target[i as int] == cut(output@[i as int]@, width as nat));
            assert(target.take(i + 1) =~= target.take(i as int).push(target[i as int]));
        }
        i += 1;
    }
    assert(lines_of(output@).map_values(|l: Seq<char>| cut(l, width as nat)).take(i as int)
        =~= lines_of(output@).map_values(|l: Seq<char>| cut(l, width as nat)));
    res
}


/// By how many columns the FIGcharacter row `g` can be moved onto the
/// output row `o` (to its right, or to its left right to left).
pub open spec fn row_gap(o: Seq<char>, g: Seq<char>, hardblank: char, mode: u32, rtl: bool) -> nat {
    if rtl {
        gap(g, o, hardblank, mode, true)
    } else {
        gap(o, g, hardblank, mode, false)
    }
}

/// The number of rows that output and FIGcharacter have in common.
pub open spec fn rows(o: Seq<Seq<char>>, g: Seq<Seq<char>>) -> nat {
    if o.len() < g.len() {
        o.len()
    } else {
        g.len()
    }
}

/// The least gap over the first `n` rows, and 9999 over none.
pub open spec fn min_gap(o: Seq<Seq<char>>, g: Seq<Seq<char>>, n: nat, hardblank: char, mode: u32, rtl: bool) -> nat
    decreases n,
{
    if n == 0 {
        9999
    } else {
        let m = min_gap(o, g, (n - 1) as nat, hardblank, mode, rtl);
        let r = row_gap(o[n - 1], g[n - 1], hardblank, mode, rtl);
        if r < m {
            r
        } else {
            m
        }
    }
}

/// By how many columns a FIGcharacter moves onto the output: the least gap
/// over the rows they have in common.
pub open spec fn smush_amount(o: Seq<Seq<char>>, g: Seq<Seq<char>>, hardblank: char, mode: u32, rtl: bool) -> nat {
    min_gap(o, g, rows(o, g), hardblank, mode, rtl)
}

/// The output after adding the FIGcharacter `g`: every common row joined,
/// moved by the smush amount (by none in full width), to the right of the
/// output or to its left right to left.
pub open spec fn smushed(o: Seq<Seq<char>>, g: Seq<Seq<char>>, hardblank: char, full_width: bool, mode: u32, rtl: bool) -> Seq<Seq<char>> {
    let amt = if full_width {
        0
    } else {
        smush_amount(o, g, hardblank, mode, rtl)
    };
    Seq::new(
        rows(o, g),
        |i: int|
            if rtl {
                join(g[i], o[i], amt, hardblank, mode, true)
            } else {
                join(o[i], g[i], amt, hardblank, mode, false)
            },
    )
}

/// By how many columns the FIGcharacter `c` moves onto `output`.
fn amount_rows(output: &Vec<Vec<char>>, c: &FIGchar, hardblank: char, mode: u32, right2left: bool) -> (r: usize)
    ensures
        r == smush_amount(lines_of(output@), c.rows(), hardblank, mode, right2left),
{
    let cl = c.get();
    let n = if output.len() < cl.len() {
        output.len()
    } else {
        cl.len()
    };
    let mut amt: usize = 9999;
    let mut i: usize = 0;
    while i < n
        invariant
            n == rows(lines_of(output@), c.rows()),
            n <= output@.len(),
            n <= cl@.len(),
            lines_of(cl@) == c.rows(),
            i <= n,
            amt == min_gap(lines_of(output@), c.rows(), i as nat, hardblank, mode, right2left),
            amt <= 9999,
        decreases n - i,
    {
        let r = strsmush::amount(&output[i], &cl[i], hardblank, mode, right2left);
        proof {
            assert(lines_of(output@)[i as int] == output@[i as int]@);
            assert(c.rows()[i as int] == cl@[i as int]@);
        }
        if r < amt {
            amt = r;
        }
        i += 1;
    }
    amt
}

/// The rows of `v` as character sequences.
fn char_rows(v: &Vec<String>) -> (r: Vec<Vec<char>>)
    ensures
        lines_of(r@) == v@.map_values(|s: String| s@),
{
    let mut res: Vec<Vec<char>> = Vec::new();
    let mut i: usize = 0;
    while i < v.len()
        invariant
            i <= v@.len(),
            lines_of(res@) == v@.map_values(|s: String| s@).take(i as int),
        decreases v@.len() - i,
    {
        let ghost before = lines_of(res@);
        let row = str_chars(v[i].as_str());
        res.push(row);
        proof {
            assert(lines_of(res@) =~= before.push(row@));
            assert(v@.map_values(|s: String| s@).take(i + 1) =~= v@.map_values(|s: String| s@).take(
                i as int,
            ).push(v@[i as int]@));
        }
        i += 1;
    }
    assert(v@.map_values(|s: String| s@).take(i as int) =~= v@.map_values(|s: String| s@));
    res
}

/// The rows `v` as strings.
fn string_rows(v: &Vec<Vec<char>>) -> (r: Vec<String>)
    ensures
        r@.map_values(|s: String| s@) == lines_of(v@),
{
    let mut res: Vec<String> = Vec::new();
    let mut i: usize = 0;
    while i < v.len()
        invariant
            i <= v@.len(),
            res@.map_values(|s: String| s@) == lines_of(v@).take(i as int),
        decreases v@.len() - i,
    {
        let ghost before = res@.map_values(|s: String| s@);
        let row = string_from_chars(&v[i]);
        res.push(row);
        proof {
            assert(res@.map_values(|s: String| s@) =~= before.push(row@));
            assert(lines_of(v@).take(i + 1) =~= lines_of(v@).take(i as int).push(v@[i as int]@));
        }
        i += 1;
    }
    assert(lines_of(v@).take(i as int) =~= lines_of(v@));
    res
}

/// Cut every line of `output` to the columns of `width`.
pub fn trim(output: &Vec<String>, width: usize) -> (r: Vec<String>)
    ensures
        r@.map_values(|s: String| s@) == output@.map_values(|s: String| s@).map_values(
            |l: Seq<char>| cut(l, width as nat),
        ),
{
    let rows = char_rows(output);
    let cut_rows = trim_rows(&rows, width);
    string_rows(&cut_rows)
}

/// By how many columns the FIGcharacter `c` moves onto `output`.
pub fn amount(output: &Vec<String>, c: &FIGchar, hardblank: char, mode: u32, right2left: bool) -> (r: usize)
    ensures
        r == smush_amount(output@.map_values(|s: String| s@), c.rows(), hardblank, mode, right2left),
{
    let rows = char_rows(output);
    amount_rows(&rows, c, hardblank, mode, right2left)
}

/// Add the FIGcharacter `c` to `output`.
fn smush(output: &Vec<Vec<char>>, c: &FIGchar, hardblank: char, full_width: bool, mode: u32, right2left: bool) -> (r: Vec<Vec<char>>)
    ensures
        lines_of(r@) == smushed(lines_of(output@), c.rows(), hardblank, full_width, mode, right2left),
{
    let amt = match full_width {
        true => 0,
        false => amount_rows(output, c, hardblank, mode, right2left),
    };
    let cl = c.get();
    let n = if output.len() < cl.len() {
        output.len()
    } else {
        cl.len()
    };
    let ghost target = smushed(lines_of(output@), c.rows(), hardblank, full_width, mode, right2left);
    let mut res: Vec<Vec<char>> = Vec::new();
    let mut i: usize = 0;
    while i < n
        invariant
            n == rows(lines_of(output@), c.rows()),
            n <= output@.len(),
            n <= cl@.len(),
            lines_of(cl@) == c.rows(),
            target == smushed(lines_of(output@), c.rows(), hardblank, full_width, mode, right2left),
            amt == (if full_width {
                0
            } else {
                smush_amount(lines_of(output@), c.rows(), hardblank, mode, right2left)
            }),
            i <= n,
            lines_of(res@) == target.take(i as int),
        decreases n - i,
    {
        proof {
            assert(lines_of(output@)[i as int] == output@[i as int]@);
            assert(c.rows()[i as int] == cl@[i as int]@);
        }
        let line = if right2left {
            strsmush::smush_rtl(&output[i], &cl[i], amt, hardblank, mode)
        } else {
            strsmush::smush(&output[i], &cl[i], amt, hardblank, mode)
        };
        let ghost before = lines_of(res@);
        res.push(line);
        proof {
            assert(lines_of(res@) =~= before.push(line@));
            assert(target.take(i + 1) =~= target.take(i as int).push(target[i as int]));
        }
        i += 1;
    }
    assert(target.take(n as int) =~= target);
    res
}


/// Layout mode for horizontal character arrangement.
///
/// Determines how FIGcharacters are spaced and whether they overlap.
/// Each variant resolves to a `(mode, full_width)` pair when the smusher is
/// built.
#[derive(Clone, Copy, Debug, PartialEq, Eq, Structural)]
pub enum LayoutMode {
    /// Use the font's own layout settings (default when no flag is given).
    Default,
    /// No smushing; each character takes its full width.
    FullWidth,
    /// Characters overlap each other (mode = 0, full_width = false).
    Overlap,
    /// Kerning mode (mode = SMUSH_KERN, full_width = false).
    Kern,
    /// Smush using the font layout if SMUSH_ENABLE is set; otherwise fall
    /// back to the font default.
    SmushDefault,
    /// Force smush using the font layout if SMUSH_ENABLE is set; otherwise
    /// overlap (mode = 0).
    SmushForce,
    /// An arbitrary bit-mask of smush flags; full_width is forced to false.
    Custom(u32),
}

/// The `(mode, full_width)` pair that a layout mode gives for a font with
/// the full layout `layout` and the old layout `old_layout`.
pub open spec fn resolve_mode(m: LayoutMode, layout: u32, old_layout: i32) -> (u32, bool) {
    match m {
        LayoutMode::Default => (layout, old_layout == -1),
        LayoutMode::FullWidth => (layout, true),
        LayoutMode::Overlap => (0, false),
        LayoutMode::Kern => (SMUSH_KERN, false),
        LayoutMode::SmushDefault => if (layout & SMUSH_ENABLE) != 0 {
            (layout, false)
        } else {
            (layout, old_layout == -1)
        },
        LayoutMode::SmushForce => if (layout & SMUSH_ENABLE) != 0 {
            (layout, false)
        } else {
            (0, false)
        },
        LayoutMode::Custom(v) => (v, false),
    }
}

impl LayoutMode {
    /// Resolve the layout mode to concrete `(mode, full_width)` values.
    fn resolve(&self, font: &FIGfont) -> (r: (u32, bool))
        ensures
            r == resolve_mode(*self, font.layout, font.old_layout),
    {
        match self {
            LayoutMode::Default => (font.layout, font.old_layout == -1),
            LayoutMode::FullWidth => (font.layout, true),
            LayoutMode::Overlap => (0, false),
            LayoutMode::Kern => (SMUSH_KERN, false),
            LayoutMode::SmushDefault => {
                if (font.layout & SMUSH_ENABLE) != 0 {
                    (font.layout, false)
                } else {
                    (font.layout, font.old_layout == -1)
                }
            },
            LayoutMode::SmushForce => {
                if (font.layout & SMUSH_ENABLE) != 0 {
                    (font.layout, false)
                } else {
                    (0, false)
                }
            },
            LayoutMode::Custom(v) => (*v, false),
        }
    }
}

/// Builder for configuring a `Smusher`.
pub struct SmusherBuilder<'a> {
    font: &'a FIGfont,
    control: Option<&'a FlcPipeline>,
    layout_mode: LayoutMode,
    right_to_left: Option<bool>,
}

impl<'a> SmusherBuilder<'a> {
    pub closed spec fn font_spec(self) -> FIGfont {
        *self.font
    }

    pub closed spec fn control_spec(self) -> Option<FlcPipeline> {
        match self.control {
            Some(p) => Some(*p),
            None => None,
        }
    }

    pub closed spec fn layout_mode_spec(self) -> LayoutMode {
        self.layout_mode
    }

    pub closed spec fn right_to_left_spec(self) -> Option<bool> {
        self.right_to_left
    }

    /// Set an optional character-mapping control pipeline.
    pub fn control(self, control: Option<&'a FlcPipeline>) -> (r: Self)
        ensures
            r.control_spec() == (match control {
                Some(p) => Some(*p),
                None => None,
            }),
            r.font_spec() == self.font_spec(),
            r.layout_mode_spec() == self.layout_mode_spec(),
            r.right_to_left_spec() == self.right_to_left_spec(),
    {
        SmusherBuilder { control, ..self }
    }

    /// Override the layout mode. Defaults to `LayoutMode::Default`.
    pub fn layout_mode(self, mode: LayoutMode) -> (r: Self)
        ensures
            r.layout_mode_spec() == mode,
            r.font_spec() == self.font_spec(),
            r.control_spec() == self.control_spec(),
            r.right_to_left_spec() == self.right_to_left_spec(),
    {
        SmusherBuilder { layout_mode: mode, ..self }
    }

    /// Override the right-to-left setting. Defaults to the font's
    /// `right_to_left`.
    pub fn right_to_left(self, val: bool) -> (r: Self)
        ensures
            r.right_to_left_spec() == Some(val),
            r.font_spec() == self.font_spec(),
            r.control_spec() == self.control_spec(),
            r.layout_mode_spec() == self.layout_mode_spec(),
    {
        SmusherBuilder { right_to_left: Some(val), ..self }
    }

    /// Build the Smusher: its layout resolved from the layout mode and the
    /// font, its direction the one set or else the font's, and its output
    /// `height` empty rows.
    pub fn build(self) -> (r: Smusher<'a>)
        requires
            self.font_spec().wf(),
            self.control_spec() matches Some(p) ==> p.wf(),
        ensures
            r.wf(),
            r.setup().font == self.font_spec(),
            r.setup().control == self.control_spec(),
            (r.setup().mode, r.setup().full_width) == resolve_mode(
                self.layout_mode_spec(),
                self.font_spec().layout,
                self.font_spec().old_layout,
            ),
            r.setup().right2left == match self.right_to_left_spec() {
                Some(v) => v,
                None => self.font_spec().right_to_left,
            },
            r.lines() == Seq::new(self.font_spec().height as nat, |i: int| Seq::<char>::empty()),
    {
        let (mode, full_width) = self.layout_mode.resolve(self.font);
        let mut sm = Smusher {
            font: self.font,
            mode,
            full_width,
            right2left: self.right_to_left.unwrap_or(self.font.right_to_left),
            output: Vec::new(),
            control: self.control,
        };
        let mut i: usize = 0;
        while i < sm.font.height
            invariant
                i <= sm.font.height,
                sm.font == self.font,
                sm.mode == mode,
                sm.full_width == full_width,
                sm.control == self.control,
                sm.right2left == self.right_to_left.unwrap_or(self.font.right_to_left),
                sm.lines() == Seq::new(i as nat, |k: int| Seq::<char>::empty()),
            decreases sm.font.height - i,
        {
            let ghost before = sm.lines();
            let row: Vec<char> = Vec::new();
            sm.output.push(row);
            i += 1;
            assert(sm.lines() =~= before.push(row@));
            assert(sm.lines() =~= Seq::new(i as nat, |k: int| Seq::<char>::empty()));
        }
        sm
    }
}

/// Creates a message written with ASCII-art characters.
///
/// The Smusher adds FIGcharacters to an output buffer and controls how they
/// fit together in a line. Details of how exactly this fitting happens is
/// given by the layout mode: full width, kerning (FIGcharacters are moved
/// closer to each other without overlapping), or smushing (borders overlap).
#[derive(Debug)]
pub struct Smusher<'a> {
    pub mode: u32,
    pub full_width: bool,
    pub right2left: bool,
    /// The font; every method but the constructors needs it well formed.
    pub font: &'a FIGfont,
    /// The output rows, one for each row of the font.
    pub output: Vec<Vec<char>>,
    /// The optional character-mapping pipeline.
    pub control: Option<&'a FlcPipeline>,
}

/// A valid Unicode scalar value.
pub open spec fn is_scalar(code: i32) -> bool {
    0 <= code <= 0x10FFFF && !(0xD800 <= code <= 0xDFFF)
}

/// What a smusher renders with: the font, the control pipeline, the
/// layout mode, full width and the print direction.
pub struct SmSetup {
    pub font: FIGfont,
    pub control: Option<FlcPipeline>,
    pub mode: u32,
    pub full_width: bool,
    pub right2left: bool,
}

impl SmSetup {
    /// The code under which `ch` is looked up: the code that the control
    /// pipeline maps it to, or its own where that is no Unicode scalar value.
    pub open spec fn mapped_code(self, ch: char) -> i32 {
        let code = ch as i32;
        let m = match self.control {
            Some(p) => pipeline_map(p.stages(), code),
            None => code,
        };
        if is_scalar(m) {
            m
        } else {
            code
        }
    }

    /// The rows that `ch` renders as, if the font has them.
    pub open spec fn glyph_for(self, ch: char) -> Option<Seq<Seq<char>>> {
        self.font.glyph(self.mapped_code(ch))
    }

    /// Whether `ch` renders (the font has a FIGcharacter for it).
    pub open spec fn renders(self, ch: char) -> bool {
        self.glyph_for(ch) is Some
    }

    /// The output rows `lines` after adding `ch`; unchanged when `ch` does
    /// not render.
    pub open spec fn push_one(self, lines: Seq<Seq<char>>, ch: char) -> Seq<Seq<char>> {
        match self.glyph_for(ch) {
            Some(g) => smushed(
                lines,
                g,
                self.font.hardblank,
                self.full_width,
                self.mode,
                self.right2left,
            ),
            None => lines,
        }
    }

    /// The output rows `lines` after adding the characters of `s` in order.
    pub open spec fn push_seq(self, lines: Seq<Seq<char>>, s: Seq<char>) -> Seq<Seq<char>>
        decreases s.len(),
    {
        if s.len() == 0 {
            lines
        } else {
            self.push_one(self.push_seq(lines, s.drop_last()), s.last())
        }
    }

    /// The characters of `s` that render, in order.
    pub open spec fn rendered_of(self, s: Seq<char>) -> Seq<char>
        decreases s.len(),
    {
        if s.len() == 0 {
            s
        } else if self.renders(s.last()) {
            self.rendered_of(s.drop_last()).push(s.last())
        } else {
            self.rendered_of(s.drop_last())
        }
    }

    /// `lines` with hardblanks shown as blanks.
    pub open spec fn shown(self, lines: Seq<Seq<char>>) -> Seq<Seq<char>> {
        lines.map_values(|l: Seq<char>| replace_char(l, self.font.hardblank, ' '))
    }
}

impl<'a> Smusher<'a> {
    /// The rows of the output.
    pub open spec fn lines(self) -> Seq<Seq<char>> {
        lines_of(self.output@)
    }

    /// The font, control pipeline and layout of the smusher.
    pub open spec fn setup(self) -> SmSetup {
        SmSetup {
            font: *self.font,
            control: match self.control {
                Some(p) => Some(*p),
                None => None,
            },
            mode: self.mode,
            full_width: self.full_width,
            right2left: self.right2left,
        }
    }

    /// The font is well formed, the output has as many rows as the font,
    /// and the control pipeline is well formed.
    pub open spec fn wf(self) -> bool {
        &&& self.setup().font.wf()
        &&& self.lines().len() == self.setup().font.height
        &&& (self.setup().control matches Some(p) ==> p.wf())
    }

    /// Replace hardblanks in the given lines with spaces.
    pub fn replace_hardblanks(&self, lines: &mut Vec<String>)
        ensures
            final(lines)@.len() == old(lines)@.len(),
            forall|i: int|
                0 <= i < old(lines)@.len() ==> (#[trigger] final(lines)@[i])@ == replace_char(
                    old(lines)@[i]@,
                    self.setup().font.hardblank,
                    ' ',
                ),
    {
        let hb = self.font.hardblank;
        let mut i: usize = 0;
        while i < lines.len()
            invariant
                hb == self.setup().font.hardblank,
                i <= lines@.len(),
                lines@.len() == old(lines)@.len(),
                forall|k: int|
                    0 <= k < i ==> (#[trigger] lines@[k])@ == replace_char(old(lines)@[k]@, hb, ' '),
                forall|k: int| i <= k < lines@.len() ==> (#[trigger] lines@[k]) == old(lines)@[k],
            decreases lines@.len() - i,
        {
            let chars = str_chars(lines[i].as_str());
            let line = string_from_chars(&replaced(&chars, hb, ' '));
            lines.set(i, line);
            i += 1;
        }
    }

    /// Create a new smusher using the specified FIGfont.
    ///
    /// Equivalent to `Smusher::builder(font).build()`.
    pub fn new(font: &'a FIGfont) -> (r: Self)
        requires
            font.wf(),
        ensures
            r.wf(),
            r.setup().font == *font,
            r.setup().control is None,
            (r.setup().mode, r.setup().full_width) == resolve_mode(
                LayoutMode::Default,
                font.layout,
                font.old_layout,
            ),
            r.setup().right2left == font.right_to_left,
            r.lines() == Seq::new(font.height as nat, |i: int| Seq::<char>::empty()),
    {
        Self::builder(font).build()
    }

    /// Create a builder for configuring the Smusher: no control pipeline,
    /// the default layout mode and the font's direction.
    pub fn builder(font: &'a FIGfont) -> (r: SmusherBuilder<'a>)
        ensures
            r.font_spec() == *font,
            r.control_spec() is None,
            r.layout_mode_spec() == LayoutMode::Default,
            r.right_to_left_spec() is None,
    {
        SmusherBuilder { font, control: None, layout_mode: LayoutMode::Default, right_to_left: None }
    }

    /// Get the contents of the output buffer, replacing hardblanks with
    /// spaces.
    pub fn get(&self) -> (r: Vec<String>)
        ensures
            r@.map_values(|s: String| s@) == self.setup().shown(self.lines()),
            self.setup().font.hardblank != ' ' ==> forall|i: int|
                0 <= i < r@.len() ==> !(#[trigger] r@[i]@).contains(self.setup().font.hardblank),
    {
        let hb = self.font.hardblank;
        let mut res: Vec<String> = Vec::new();
        let mut i: usize = 0;
        while i < self.output.len()
            invariant
                hb == self.setup().font.hardblank,
                i <= self.output@.len(),
                res@.map_values(|s: String| s@) == self.setup().shown(self.lines()).take(i as int),
            decreases self.output@.len() - i,
        {
            let ghost before = res@.map_values(|s: String| s@);
            let line = string_from_chars(&replaced(&self.output[i], hb, ' '));
            res.push(line);
            proof {
                assert(res@.map_values(|s: String| s@) =~= before.push(line@));
                assert(self.setup().shown(self.lines()).take(i + 1) =~= self.setup().shown(self.lines()).take(
                    i as int,
                ).push(self.setup().shown(self.lines())[i as int]));
            }
            i += 1;
        }
        assert(self.setup().shown(self.lines()).take(i as int) =~= self.setup().shown(self.lines()));
        proof {
            if hb != ' ' {
                lemma_shown_no_hardblank(self.setup(), self.lines());
                assert forall|i: int| 0 <= i < res@.len() implies !(#[trigger] res@[i]@).contains(hb) by {
                    assert(res@[i]@ == res@.map_values(|s: String| s@)[i]);
                }
            }
        }
        res
    }

    /// Get the contents of the output buffer, preserving hardblanks for
    /// further processing.
    pub fn get_raw(&self) -> (r: Vec<String>)
        ensures
            r@.map_values(|s: String| s@) == self.lines(),
    {
        let mut res: Vec<String> = Vec::new();
        let mut i: usize = 0;
        while i < self.output.len()
            invariant
                i <= self.output@.len(),
                res@.map_values(|s: String| s@) == self.lines().take(i as int),
            decreases self.output@.len() - i,
        {
            let ghost before = res@.map_values(|s: String| s@);
            let line = string_from_chars(&self.output[i]);
            res.push(line);
            proof {
                assert(res@.map_values(|s: String| s@) =~= before.push(line@));
                assert(self.lines().take(i + 1) =~= self.lines().take(i as int).push(
                    self.lines()[i as int],
                ));
            }
            i += 1;
        }
        assert(self.lines().take(i as int) =~= self.lines());
        res
    }

    /// Verify whether output buffer is empty: it has no rows or an empty
    /// first row.
    pub fn is_empty(&self) -> (r: bool)
        ensures
            r == (self.lines().len() == 0 || self.lines()[0].len() == 0),
    {
        self.output.len() == 0 || self.output[0].len() == 0
    }

    /// Clear the output buffer: every row becomes empty.
    pub fn clear(&mut self)
        ensures
            final(self).setup() == old(self).setup(),
            final(self).lines() == Seq::new(
                old(self).lines().len(),
                |i: int| Seq::<char>::empty(),
            ),
    {
        let mut i: usize = 0;
        while i < self.output.len()
            invariant
                self.setup() == old(self).setup(),
                i <= self.output@.len(),
                self.output@.len() == old(self).output@.len(),
                forall|k: int| 0 <= k < i ==> (#[trigger] self.output@[k])@.len() == 0,
            decreases self.output@.len() - i,
        {
            self.output.set(i, Vec::new());
            i += 1;
        }
        assert forall|k: int| 0 <= k < self.lines().len() implies self.lines()[k] =~= Seq::<char>::empty() by {
            assert(self.lines()[k] == self.output@[k]@);
        }
        assert(self.lines() =~= Seq::new(old(self).lines().len(), |i: int| Seq::<char>::empty()));
    }

    /// Add a character to the output buffer, applying the smushing rules
    /// specified in the font layout.
    ///
    /// Returns `true` if the character was rendered, `false` if it was
    /// missing from the font and skipped.
    pub fn push(&mut self, ch: char) -> (r: bool)
        requires
            old(self).wf(),
        ensures
            final(self).wf(),
            final(self).setup() == old(self).setup(),
            r == old(self).setup().renders(ch),
            final(self).lines() == old(self).setup().push_one(old(self).lines(), ch),
    {
        let code = ch as i32;
        let code = if let Some(ctrl) = self.control {
            ctrl.apply(code)
        } else {
            code
        };
        // Convert the mapped code to a char. Invalid codes (negative,
        // > 0x10FFFF, surrogates) fall back to the character itself.
        let ghost m = code;
        let ch2 = if code < 0 {
            ch
        } else {
            match char_from_u32(code as u32) {
                Some(c) => {
                    assert(c as i32 == code);
                    c
                },
                None => ch,
            }
        };
        assert(ch as i32 == ch as u32);
        assert(m == match self.setup().control {
            Some(p) => pipeline_map(p.stages(), ch as i32),
            None => ch as i32,
        });
        assert(ch2 as i32 == self.setup().mapped_code(ch));
        if let Some(fc) = self.font.get(ch2) {
            self.output = smush(
                &self.output,
                fc,
                self.font.hardblank,
                self.full_width,
                self.mode,
                self.right2left,
            );
            proof {
                let g = fc.rows();
                let o = old(self).lines();
                assert(self.lines().len() == rows(o, g));
                assert(g.len() == self.setup().font.height) by {
                    let e = self.setup().font.entries();
                    let k = choose|k: int| 0 <= k < e.len() && (#[trigger] e[k]).0 == ch2 as i32;
                    assert(e[k].1.len() == self.setup().font.height);
                }
            }
            true
        } else {
            false
        }
    }

    /// Add a string to the output buffer, applying the smushing rules
    /// specified in the font layout.
    ///
    /// Returns the subset of characters that were actually rendered
    /// (characters missing from the font are omitted).
    pub fn push_str(&mut self, s: &str) -> (r: String)
        requires
            old(self).wf(),
        ensures
            final(self).wf(),
            final(self).setup() == old(self).setup(),
            r@ == old(self).setup().rendered_of(s@),
            final(self).lines() == old(self).setup().push_seq(old(self).lines(), s@),
    {
        let mut rendered = String::new();
        let chars = str_chars(s);
        let mut i: usize = 0;
        while i < chars.len()
            invariant
                chars@ == s@,
                i <= chars@.len(),
                self.wf(),
                self.setup() == old(self).setup(),
                rendered@ == old(self).setup().rendered_of(s@.take(i as int)),
                self.lines() == old(self).setup().push_seq(old(self).lines(), s@.take(i as int)),
            decreases chars@.len() - i,
        {
            let x = chars[i];
            proof {
                assert(s@.take(i + 1).drop_last() =~= s@.take(i as int));
                assert(s@.take(i + 1).last() == x);
            }
            let pushed = self.push(x);
            if pushed {
                string_push(&mut rendered, x);
            }
            i += 1;
        }
        assert(s@.take(i as int) =~= s@);
        rendered
    }

    /// Obtain the size, in sub-characters, of the first row of the output
    /// buffer (at most `usize::MAX`).
    pub fn len(&self) -> (r: usize)
        requires
            self.lines().len() > 0,
        ensures
            r == sat(width_of(self.lines()[0])),
    {
        display_width(&self.output[0])
    }

    /// Limit the size, in sub-characters, of the output buffer. If a row is
    /// wider than `width`, the rightmost sub-characters are removed.
    pub fn trim(&mut self, width: usize)
        requires
            old(self).wf(),
        ensures
            final(self).wf(),
            final(self).setup() == old(self).setup(),
            final(self).lines() == old(self).lines().map_values(
                |l: Seq<char>| cut(l, width as nat),
            ),
            forall|i: int|
                0 <= i < final(self).lines().len() ==> width_of(#[trigger] final(self).lines()[i])
                    <= width,
    {
        self.output = trim_rows(&self.output, width);
        proof {
            assert forall|i: int| 0 <= i < self.lines().len() implies width_of(
                #[trigger] self.lines()[i],
            ) <= width by {
                lemma_cut_law(old(self).lines()[i], width as nat);
            }
        }
    }
}

/// Characters that the font lacks leave no trace: adding `s` gives the same
/// rows as adding only the characters of `s` that render.
pub proof fn lemma_missing_skipped(sm: SmSetup, lines: Seq<Seq<char>>, s: Seq<char>)
    ensures
        sm.push_seq(lines, s) == sm.push_seq(lines, sm.rendered_of(s)),
    decreases s.len(),
{
    if s.len() > 0 {
        let t = s.drop_last();
        let c = s.last();
        lemma_missing_skipped(sm, lines, t);
        if sm.renders(c) {
            let rt = sm.rendered_of(t).push(c);
            assert(rt.drop_last() =~= sm.rendered_of(t));
            assert(rt.last() == c);
        }
    }
}

/// Adding `a` and then `b` is adding `a + b`.
pub proof fn lemma_push_seq_concat(sm: SmSetup, lines: Seq<Seq<char>>, a: Seq<char>, b: Seq<char>)
    ensures
        sm.push_seq(lines, a + b) == sm.push_seq(sm.push_seq(lines, a), b),
    decreases b.len(),
{
    if b.len() == 0 {
        assert(a + b =~= a);
    } else {
        lemma_push_seq_concat(sm, lines, a, b.drop_last());
        assert((a + b).drop_last() =~= a + b.drop_last());
        assert((a + b).last() == b.last());
    }
}

/// With a hardblank other than the blank, the rows shown hold no hardblank.
pub proof fn lemma_shown_no_hardblank(sm: SmSetup, lines: Seq<Seq<char>>)
    requires
        sm.font.hardblank != ' ',
    ensures
        forall|i: int|
            0 <= i < lines.len() ==> !(#[trigger] sm.shown(lines)[i]).contains(sm.font.hardblank),
{
    assert forall|i: int| 0 <= i < lines.len() implies !(#[trigger] sm.shown(lines)[i]).contains(
        sm.font.hardblank,
    ) by {
        let row = sm.shown(lines)[i];
        assert(row == replace_char(lines[i], sm.font.hardblank, ' '));
        if row.contains(sm.font.hardblank) {
            let j = choose|j: int| 0 <= j < row.len() && row[j] == sm.font.hardblank;
            assert(row[j] == (if lines[i][j] == sm.font.hardblank { ' ' } else { lines[i][j] }));
        }
    }
}

/// Cleared rows are empty and take no columns.
pub proof fn lemma_cleared_empty(n: nat)
    ensures
        ({
            let rows = Seq::new(n, |i: int| Seq::<char>::empty());
            &&& rows.len() == n
            &&& (n > 0 ==> rows[0].len() == 0 && width_of(rows[0]) == 0)
        }),
{
}

/// What `trim` keeps of a row fits in the width, and a row that fits is
/// kept whole.
pub proof fn lemma_cut_law(s: Seq<char>, width: nat)
    ensures
        width_of(cut(s, width)) <= width,
        cut(s, width).len() <= s.len(),
        cut(s, width) == s.take(cut(s, width).len() as int),
        width_of(s) <= width ==> cut(s, width) == s,
{
    lemma_cut_fits(s, width);
    lemma_fit_len(s, width);
    if width_of(s) <= width {
        lemma_fit_all(s, width);
        assert(s.take(s.len() as int) =~= s);
    }
}


/// In full width, a FIGcharacter is put whole after the output (before it,
/// right to left), row by row.
pub proof fn lemma_full_width_appends(o: Seq<Seq<char>>, g: Seq<Seq<char>>, hardblank: char, mode: u32, rtl: bool)
    ensures
        smushed(o, g, hardblank, true, mode, rtl) == Seq::new(
            rows(o, g),
            |i: int|
                if rtl {
                    g[i] + o[i]
                } else {
                    o[i] + g[i]
                },
        ),
{
    let r = smushed(o, g, hardblank, true, mode, rtl);
    let e = Seq::new(rows(o, g), |i: int| if rtl { g[i] + o[i] } else { o[i] + g[i] });
    assert forall|i: int| 0 <= i < rows(o, g) implies r[i] =~= e[i] by {
        if rtl {
            assert(join(g[i], o[i], 0, hardblank, mode, true) =~= g[i] + o[i]);
        } else {
            assert(join(o[i], g[i], 0, hardblank, mode, false) =~= o[i] + g[i]);
        }
    }
    assert(r =~= e);
}


/// The least gap over `n` rows is no more than the gap of any of them.
proof fn lemma_min_gap_le(o: Seq<Seq<char>>, g: Seq<Seq<char>>, n: nat, hardblank: char, mode: u32, rtl: bool, i: int)
    requires
        0 <= i < n,
    ensures
        min_gap(o, g, n, hardblank, mode, rtl) <= row_gap(o[i], g[i], hardblank, mode, rtl),
    decreases n,
{
    if i < n - 1 {
        lemma_min_gap_le(o, g, (n - 1) as nat, hardblank, mode, rtl, i);
    }
}

/// In row `i`, where the FIGcharacter `g` moved `amt` columns onto the
/// output `o` overlaps it, one of them is blank.
pub open spec fn row_overlap_blank(o: Seq<Seq<char>>, g: Seq<Seq<char>>, i: int, amt: nat, rtl: bool) -> bool {
    if rtl {
        overlap_blank(g[i], o[i], amt)
    } else {
        overlap_blank(o[i], g[i], amt)
    }
}

/// Kerning moves FIGcharacters together without overlapping their
/// borders: in every row, where the FIGcharacter and the output overlap,
/// one of them is blank.
pub proof fn lemma_kerning_keeps_visible(o: Seq<Seq<char>>, g: Seq<Seq<char>>, hardblank: char, mode: u32, rtl: bool)
    requires
        (mode & SMUSH_KERN) != 0,
        (mode & SMUSH_ENABLE) == 0,
    ensures
        forall|i: int|
            0 <= i < rows(o, g) ==> #[trigger] row_overlap_blank(
                o,
                g,
                i,
                smush_amount(o, g, hardblank, mode, rtl),
                rtl,
            ),
{
    let amt = smush_amount(o, g, hardblank, mode, rtl);
    assert forall|i: int| 0 <= i < rows(o, g) implies #[trigger] row_overlap_blank(o, g, i, amt, rtl) by {
        lemma_min_gap_le(o, g, rows(o, g), hardblank, mode, rtl, i);
        if rtl {
            strsmush::lemma_kerning_row(g[i], o[i], hardblank, mode, true, amt);
        } else {
            strsmush::lemma_kerning_row(o[i], g[i], hardblank, mode, false, amt);
        }
    }
}


/// What the layout modes select. Smushing by the font's rules
/// (`SmushDefault`, `SmushForce`) on a font whose layout has the smush bit
/// uses the font's layout, never full width; full width is selected only by
/// `FullWidth`, or by `Default` (and `SmushDefault` on a font without the
/// smush bit) on a font whose old layout is -1; `Overlap`, `Kern` and
/// `Custom` never select full width.
pub proof fn law_layout_modes(m: LayoutMode, layout: u32, old_layout: i32)
    ensures
        ((m == LayoutMode::SmushDefault || m == LayoutMode::SmushForce) && (layout & SMUSH_ENABLE)
            != 0) ==> resolve_mode(m, layout, old_layout) == (layout, false),
        resolve_mode(m, layout, old_layout).1 ==> (m == LayoutMode::FullWidth || (old_layout == -1
            && (m == LayoutMode::Default || (m == LayoutMode::SmushDefault && (layout
            & SMUSH_ENABLE) == 0)))),
        m == LayoutMode::FullWidth ==> resolve_mode(m, layout, old_layout).1,
        (m == LayoutMode::Default || m == LayoutMode::FullWidth || m == LayoutMode::SmushDefault)
            ==> resolve_mode(m, layout, old_layout).0 == layout,
        m == LayoutMode::Overlap ==> resolve_mode(m, layout, old_layout) == (0u32, false),
        m == LayoutMode::Kern ==> resolve_mode(m, layout, old_layout) == (SMUSH_KERN, false),
        m matches LayoutMode::Custom(v) ==> resolve_mode(m, layout, old_layout) == (v, false),
        (m == LayoutMode::SmushForce && (layout & SMUSH_ENABLE) == 0) ==> resolve_mode(
            m,
            layout,
            old_layout,
        ) == (0u32, false),
{
}


/// The characters that render of `a + b` are those of `a`, then those of `b`.
pub proof fn lemma_rendered_concat(sm: SmSetup, a: Seq<char>, b: Seq<char>)
    ensures
        sm.rendered_of(a + b) == sm.rendered_of(a) + sm.rendered_of(b),
    decreases b.len(),
{
    if b.len() == 0 {
        assert(a + b =~= a);
        assert(sm.rendered_of(a) + sm.rendered_of(b) =~= sm.rendered_of(a));
    } else {
        lemma_rendered_concat(sm, a, b.drop_last());
        assert((a + b).drop_last() =~= a + b.drop_last());
        assert((a + b).last() == b.last());
        if sm.renders(b.last()) {
            assert(sm.rendered_of(a) + sm.rendered_of(b.drop_last()).push(b.last()) =~= (
            sm.rendered_of(a) + sm.rendered_of(b.drop_last())).push(b.last()));
        } else {
        }
    }
}



/// `trim` keeps the longest start of a line that fits: one character more
/// would not fit.
pub proof fn law_cut_longest(s: Seq<char>, width: nat)
    ensures
        cut(s, width).len() < s.len() ==> width_of(s.take(cut(s, width).len() + 1int)) > width,
    decreases s.len(),
{
    lemma_fit_len(s, width);
    if s.len() > 0 {
        let k = fit(s, width);
        if k < s.len() {
            if cols_of(s[0]) > width {
                assert(s.take(1).drop_first() =~= Seq::<char>::empty());
                assert(s.take(1)[0] == s[0]);
                assert(width_of(Seq::<char>::empty()) == 0);
                assert(width_of(s.take(1)) == cols_of(s[0]));
            } else {
                let rest = s.drop_first();
                let b2 = (width - cols_of(s[0])) as nat;
                law_cut_longest(rest, b2);
                lemma_fit_len(rest, b2);
                assert(s.take(k + 1int).drop_first() =~= rest.take(k as int));
                assert(s.take(k + 1int)[0] == s[0]);
            }
        }
    }
}

/// A FIGcharacter moves onto the output by the least gap of its rows: by
/// no more than any row allows, and by exactly what one row allows (9999
/// when there are no rows).
pub proof fn law_least_gap(o: Seq<Seq<char>>, g: Seq<Seq<char>>, hardblank: char, mode: u32, rtl: bool)
    ensures
        forall|i: int|
            0 <= i < rows(o, g) ==> smush_amount(o, g, hardblank, mode, rtl) <= #[trigger] row_gap(
                o[i],
                g[i],
                hardblank,
                mode,
                rtl,
            ),
        smush_amount(o, g, hardblank, mode, rtl) == 9999 || exists|i: int|
            0 <= i < rows(o, g) && smush_amount(o, g, hardblank, mode, rtl) == #[trigger] row_gap(
                o[i],
                g[i],
                hardblank,
                mode,
                rtl,
            ),
        smush_amount(o, g, hardblank, mode, rtl) <= 9999,
{
    assert forall|i: int| 0 <= i < rows(o, g) implies smush_amount(o, g, hardblank, mode, rtl)
        <= #[trigger] row_gap(o[i], g[i], hardblank, mode, rtl) by {
        lemma_min_gap_le(o, g, rows(o, g), hardblank, mode, rtl, i);
    }
    lemma_min_gap_attained(o, g, rows(o, g), hardblank, mode, rtl);
}

proof fn lemma_min_gap_attained(o: Seq<Seq<char>>, g: Seq<Seq<char>>, n: nat, hardblank: char, mode: u32, rtl: bool)
    ensures
        min_gap(o, g, n, hardblank, mode, rtl) <= 9999,
        min_gap(o, g, n, hardblank, mode, rtl) == 9999 || exists|i: int|
            0 <= i < n && min_gap(o, g, n, hardblank, mode, rtl) == #[trigger] row_gap(
                o[i],
                g[i],
                hardblank,
                mode,
                rtl,
            ),
    decreases n,
{
    if n > 0 {
        lemma_min_gap_attained(o, g, (n - 1) as nat, hardblank, mode, rtl);
        let r = row_gap(o[n - 1], g[n - 1], hardblank, mode, rtl);
        if r < min_gap(o, g, (n - 1) as nat, hardblank, mode, rtl) {
            assert(min_gap(o, g, n, hardblank, mode, rtl) == row_gap(o[n - 1], g[n - 1], hardblank, mode, rtl));
        }
    }
}

} // verus!
