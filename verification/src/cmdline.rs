//! The decisions of the `figlet` command: font and control file names, the
//! layout, direction and alignment that the options select, and how input
//! lines are cut into words and blanks and fed to a wrapper.

use vstd::prelude::*;
use crate::{Align, LayoutMode, Wrapper};
use crate::smusher::lines_of;
use crate::text::{str_chars, string_from_chars, take_chars};
use crate::wrapper::{
    WrapModel, blocks_view, is_ws, is_whitespace_char, rows_empty, segments, split_lf, w_clear,
    w_get, w_wrap_str,
};
use crate::smusher::SmSetup;

verus! {

/// `s` ends with `suffix`.
pub open spec fn ends_with(s: Seq<char>, suffix: Seq<char>) -> bool {
    s.len() >= suffix.len() && s.skip(s.len() - suffix.len()) == suffix
}

/// Whether the characters `s` end with `suf`.
fn has_suffix(s: &Vec<char>, suf: &str) -> (r: bool)
    ensures
        r == ends_with(s@, suf@),
{
    let t = str_chars(suf);
    if t.len() > s.len() {
        return false;
    }
    let off = s.len() - t.len();
    let mut i: usize = 0;
    while i < t.len()
        invariant
            t@ == suf@,
            t@.len() <= s.len(),
            off + t@.len() == s.len(),
            i <= t@.len(),
            forall|k: int| 0 <= k < i ==> s@[off + k] == t@[k],
        decreases t@.len() - i,
    {
        if s[off + i] != t[i] {
            assert(s@.skip(off as int)[i as int] != t@[i as int]);
            return false;
        }
        i += 1;
    }
    assert(s@.skip(off as int) =~= t@);
    true
}

/// The first line of `s`: its characters up to the first line feed.
pub fn first_line(s: &str) -> (r: String)
    ensures
        r@ == segments(s@)[0],
{
    let chars = str_chars(s);
    let lines = split_lf(&chars);
    proof {
        crate::wrapper::lemma_segments_nonempty(s@);
        assert(lines@[0]@ == lines_of(lines@)[0]);
    }
    string_from_chars(&lines[0])
}

/// `name` without the suffix `.flf`, or else without `.tlf`.
pub open spec fn font_stem(name: Seq<char>) -> Seq<char> {
    if ends_with(name, ".flf"@) || ends_with(name, ".tlf"@) {
        name.take(name.len() - 4)
    } else {
        name
    }
}

/// The name of a font without its file suffix (`.flf` or `.tlf`).
pub fn strip_font_suffix(name: &str) -> (r: String)
    ensures
        r@ == font_stem(name@),
{
    proof {
        reveal_strlit(".flf");
        reveal_strlit(".tlf");
    }
    let chars = str_chars(name);
    if has_suffix(&chars, ".flf") || has_suffix(&chars, ".tlf") {
        string_from_chars(&take_chars(&chars, chars.len() - 4))
    } else {
        string_from_chars(&chars)
    }
}

/// The file names under which a font is looked for: the name itself when
/// it ends with `.flf` or `.tlf`, else the name with `.flf` and then with
/// `.tlf` added.
pub open spec fn font_files(name: Seq<char>) -> Seq<Seq<char>> {
    if ends_with(name, ".flf"@) || ends_with(name, ".tlf"@) {
        seq![name]
    } else {
        seq![name + ".flf"@, name + ".tlf"@]
    }
}

/// `s` followed by the characters of `suf`.
fn with_suffix(s: &Vec<char>, suf: &str) -> (r: String)
    ensures
        r@ == s@ + suf@,
{
    let mut v = take_chars(s, s.len());
    let mut t = str_chars(suf);
    v.append(&mut t);
    assert(s@.take(s@.len() as int) =~= s@);
    string_from_chars(&v)
}

/// The file names under which the font `name` is looked for, in order.
pub fn font_candidates(name: &str) -> (r: Vec<String>)
    ensures
        r@.map_values(|s: String| s@) == font_files(name@),
{
    proof {
        reveal_strlit(".flf");
        reveal_strlit(".tlf");
    }
    let chars = str_chars(name);
    let mut v: Vec<String> = Vec::new();
    if has_suffix(&chars, ".flf") || has_suffix(&chars, ".tlf") {
        v.push(string_from_chars(&chars));
    } else {
        v.push(with_suffix(&chars, ".flf"));
        v.push(with_suffix(&chars, ".tlf"));
    }
    assert(v@.map_values(|s: String| s@) =~= font_files(name@));
    v
}

/// The file name of a control file: `name`, with `.flc` added unless it
/// ends with it.
pub open spec fn control_file(name: Seq<char>) -> Seq<char> {
    if ends_with(name, ".flc"@) {
        name
    } else {
        name + ".flc"@
    }
}

/// The file name of the control file `name`.
pub fn control_file_name(name: &str) -> (r: String)
    ensures
        r@ == control_file(name@),
{
    proof {
        reveal_strlit(".flc");
    }
    let chars = str_chars(name);
    if has_suffix(&chars, ".flc") {
        string_from_chars(&chars)
    } else {
        with_suffix(&chars, ".flc")
    }
}

/// The layout mode that the value of `-m` selects: 0 kerning, -1 full
/// width, -2 the font's smushing, a positive value those smushing rules;
/// any other value is invalid.
pub open spec fn mode_of_value(m: i32) -> Option<LayoutMode> {
    if m == 0 {
        Some(LayoutMode::Kern)
    } else if m == -1 {
        Some(LayoutMode::FullWidth)
    } else if m == -2 {
        Some(LayoutMode::SmushDefault)
    } else if m >= 1 {
        Some(LayoutMode::Custom(m as u32))
    } else {
        None
    }
}

/// The layout mode that the value of `-m` selects, if it is valid.
pub fn layout_from_value(m: i32) -> (r: Option<LayoutMode>)
    ensures
        r == mode_of_value(m),
{
    if m == 0 {
        Some(LayoutMode::Kern)
    } else if m == -1 {
        Some(LayoutMode::FullWidth)
    } else if m == -2 {
        Some(LayoutMode::SmushDefault)
    } else if m >= 1 {
        Some(LayoutMode::Custom(m as u32))
    } else {
        None
    }
}

/// The layout mode of the options: the value of `-m` (at the position
/// `m_pos` among the arguments) and the last layout flag (at `flag_pos`).
/// Of `-m` and a flag, the one given later wins; an invalid `-m` value is
/// refused (`Err` with the value).
pub fn choose_layout(m_value: Option<i32>, flag: Option<LayoutMode>, m_pos: Option<usize>, flag_pos: Option<usize>) -> (r: Result<Option<LayoutMode>, i32>)
    ensures
        match m_value {
            None => r == Ok::<Option<LayoutMode>, i32>(flag),
            Some(m) => match mode_of_value(m) {
                None => r == Err::<Option<LayoutMode>, i32>(m),
                Some(lm) => r == Ok::<Option<LayoutMode>, i32>(
                    match (m_pos, flag_pos) {
                        (Some(mi), Some(fi)) => if mi > fi {
                            Some(lm)
                        } else {
                            match flag {
                                Some(f) => Some(f),
                                None => Some(lm),
                            }
                        },
                        _ => Some(lm),
                    },
                ),
            },
        },
{
    match m_value {
        None => Ok(flag),
        Some(m) => match layout_from_value(m) {
            None => Err(m),
            Some(lm) => {
                match (m_pos, flag_pos) {
                    (Some(mi), Some(fi)) => {
                        if mi > fi {
                            Ok(Some(lm))
                        } else {
                            match flag {
                                Some(f) => Ok(Some(f)),
                                None => Ok(Some(lm)),
                            }
                        }
                    },
                    _ => Ok(Some(lm)),
                }
            },
        },
    }
}

/// Print direction (`-L`, `-R`, `-X`).
#[derive(Clone, Copy, Debug, PartialEq, Eq, Structural)]
pub enum PrintDir {
    /// Force left to right.
    Ltr,
    /// Force right to left.
    Rtl,
    /// The font's own direction.
    FontDefault,
}

/// Whether the output runs right to left.
pub fn resolve_rtl(dir: PrintDir, font_rtl: bool) -> (r: bool)
    ensures
        r == match dir {
            PrintDir::Ltr => false,
            PrintDir::Rtl => true,
            PrintDir::FontDefault => font_rtl,
        },
{
    match dir {
        PrintDir::Ltr => false,
        PrintDir::Rtl => true,
        PrintDir::FontDefault => font_rtl,
    }
}

/// Output justification (`-l`, `-r`, `-c`, `-x`).
#[derive(Clone, Copy, Debug, PartialEq, Eq, Structural)]
pub enum Justify {
    Left,
    Right,
    Center,
    /// Follow the print direction: left to right is flush left, right to
    /// left flush right.
    Default,
}

/// The alignment of a justification for the print direction.
pub fn resolve_align(j: Justify, rtl: bool) -> (r: Align)
    ensures
        r == match j {
            Justify::Left => Align::Left,
            Justify::Right => Align::Right,
            Justify::Center => Align::Center,
            Justify::Default => if rtl {
                Align::Right
            } else {
                Align::Left
            },
        },
{
    match j {
        Justify::Left => Align::Left,
        Justify::Right => Align::Right,
        Justify::Center => Align::Center,
        Justify::Default => if rtl {
            Align::Right
        } else {
            Align::Left
        },
    }
}

/// How many characters at the front of `t` continue a run: of blanks (only
/// spaces continue a run of white space) when `ws`, else of characters that
/// are not white space.
pub open spec fn cont_len(t: Seq<char>, ws: bool) -> nat
    decreases t.len(),
{
    if t.len() > 0 && is_ws(t[0]) == ws && (!ws || t[0] == ' ') {
        1 + cont_len(t.drop_first(), ws)
    } else {
        0
    }
}

/// The length of the run at the front of the nonempty `s`.
pub open spec fn run_len(s: Seq<char>) -> nat {
    1 + cont_len(s.drop_first(), is_ws(s[0]))
}

pub proof fn lemma_cont_len(t: Seq<char>, ws: bool)
    ensures
        cont_len(t, ws) <= t.len(),
    decreases t.len(),
{
    if t.len() > 0 && is_ws(t[0]) == ws && (!ws || t[0] == ' ') {
        lemma_cont_len(t.drop_first(), ws);
    }
}

/// The words and runs of blanks of `s`, in order: a word is a run of
/// characters that are not white space; a run of white space is one white
/// space character followed by any spaces.
pub open spec fn word_runs(s: Seq<char>) -> Seq<Seq<char>>
    decreases s.len(),
{
    if s.len() == 0 {
        Seq::empty()
    } else {
        let n = run_len(s);
        proof {
            lemma_cont_len(s.drop_first(), is_ws(s[0]));
        }
        seq![s.take(n as int)] + word_runs(s.skip(n as int))
    }
}

/// The runs put back together.
pub open spec fn joined(runs: Seq<Seq<char>>) -> Seq<char>
    decreases runs.len(),
{
    if runs.len() == 0 {
        Seq::empty()
    } else {
        runs[0] + joined(runs.drop_first())
    }
}

/// Cutting into runs loses nothing and makes no empty run.
pub proof fn lemma_word_runs(s: Seq<char>)
    ensures
        joined(word_runs(s)) == s,
        forall|i: int| 0 <= i < word_runs(s).len() ==> (#[trigger] word_runs(s)[i]).len() > 0,
    decreases s.len(),
{
    if s.len() > 0 {
        let n = run_len(s);
        lemma_cont_len(s.drop_first(), is_ws(s[0]));
        let rest = word_runs(s.skip(n as int));
        lemma_word_runs(s.skip(n as int));
        assert((seq![s.take(n as int)] + rest).drop_first() =~= rest);
        assert(s.take(n as int) + s.skip(n as int) =~= s);
        assert forall|i: int| 0 <= i < word_runs(s).len() implies (#[trigger] word_runs(s)[i]).len() > 0 by {
            if i > 0 {
                assert(word_runs(s)[i] == rest[i - 1]);
            }
        }
    }
}

/// The runs of the line `s`, each as a string.
pub fn split_runs(s: &str) -> (r: Vec<String>)
    ensures
        r@.map_values(|x: String| x@) == word_runs(s@),
{
    let chars = str_chars(s);
    let mut out: Vec<String> = Vec::new();
    let mut start: usize = 0;
    proof {
        assert(s@.skip(0) =~= s@);
    }
    while start < chars.len()
        invariant
            chars@ == s@,
            start <= chars@.len(),
            word_runs(s@) == out@.map_values(|x: String| x@) + word_runs(s@.skip(start as int)),
        decreases chars@.len() - start,
    {
        let ghost t = s@.skip(start as int);
        let ws = is_whitespace_char(chars[start]);
        let mut end: usize = start + 1;
        proof {
            assert(t.drop_first() =~= s@.skip(start + 1));
        }
        while end < chars.len() && is_whitespace_char(chars[end]) == ws && (!ws || chars[end] == ' ')
            invariant
                chars@ == s@,
                start < end <= chars@.len(),
                ws == is_ws(t[0]),
                t == s@.skip(start as int),
                cont_len(t.drop_first(), ws) == (end - start - 1) + cont_len(s@.skip(end as int), ws),
            decreases chars@.len() - end,
        {
            assert(s@.skip(end as int).drop_first() =~= s@.skip(end + 1));
            end += 1;
        }
        proof {
            if end == chars.len() {
                assert(s@.skip(end as int) =~= Seq::<char>::empty());
            }
        }
        let mut piece: Vec<char> = Vec::new();
        let mut k: usize = start;
        while k < end
            invariant
                chars@ == s@,
                start <= k <= end <= chars@.len(),
                piece@ == s@.subrange(start as int, k as int),
            decreases end - k,
        {
            piece.push(chars[k]);
            k += 1;
            assert(piece@ =~= s@.subrange(start as int, k as int));
        }
        let ghost before = out@.map_values(|x: String| x@);
        let run = string_from_chars(&piece);
        out.push(run);
        proof {
            let n = run_len(t);
            assert(n == end - start);
            assert(t.take(n as int) =~= piece@);
            assert(t.skip(n as int) =~= s@.skip(end as int));
            assert(out@.map_values(|x: String| x@) =~= before.push(piece@));
            assert(before.push(piece@) + word_runs(s@.skip(end as int)) =~= before + (seq![piece@]
                + word_runs(s@.skip(end as int))));
        }
        start = end;
    }
    proof {
        assert(s@.skip(start as int) =~= Seq::<char>::empty());
        assert(out@.map_values(|x: String| x@) + Seq::<Seq<char>>::empty() =~= out@.map_values(
            |x: String| x@,
        ));
    }
    out
}

/// Wrapping the runs `runs[i..]` one after the other: the state at the end
/// and the blocks flushed.
pub open spec fn w_runs(sm: SmSetup, width: usize, align: Align, m: WrapModel, runs: Seq<Seq<char>>, i: nat) -> (WrapModel, Seq<Seq<Seq<char>>>)
    decreases runs.len() - i,
{
    if i >= runs.len() {
        (m, Seq::empty())
    } else {
        let (m1, b1) = w_wrap_str(sm, width, align, m, runs[i as int]);
        let (m2, b2) = w_runs(sm, width, align, m1, runs, i + 1);
        (m2, b1 + b2)
    }
}

/// Wrap the runs of a line after whatever the wrapper holds.
fn write_runs(wr: &mut Wrapper, s: &str) -> (r: Vec<Vec<String>>)
    requires
        old(wr).inv(),
    ensures
        final(wr).inv(),
        final(wr).keeps(*old(wr)),
        (final(wr).model(), blocks_view(r@)) == w_runs(
            old(wr).setup(),
            old(wr).width_spec(),
            old(wr).align_spec(),
            old(wr).model(),
            word_runs(s@),
            0,
        ),
{
    let runs = split_runs(s);
    let ghost rs = word_runs(s@);
    let ghost st = old(wr).setup();
    let ghost width = old(wr).width_spec();
    let ghost align = old(wr).align_spec();
    let mut blocks: Vec<Vec<String>> = Vec::new();
    let mut i: usize = 0;
    assert(blocks_view(blocks@) + w_runs(st, width, align, wr.model(), rs, 0).1 =~= w_runs(
        st,
        width,
        align,
        wr.model(),
        rs,
        0,
    ).1);
    while i < runs.len()
        invariant
            wr.inv(),
            wr.keeps(*old(wr)),
            st == old(wr).setup(),
            width == old(wr).width_spec(),
            align == old(wr).align_spec(),
            rs == runs@.map_values(|x: String| x@),
            i <= runs@.len(),
            w_runs(st, width, align, old(wr).model(), rs, 0).0 == w_runs(
                st,
                width,
                align,
                wr.model(),
                rs,
                i as nat,
            ).0,
            w_runs(st, width, align, old(wr).model(), rs, 0).1 == blocks_view(blocks@) + w_runs(
                st,
                width,
                align,
                wr.model(),
                rs,
                i as nat,
            ).1,
        decreases runs@.len() - i,
    {
        let ghost m = wr.model();
        let ghost b0 = blocks_view(blocks@);
        assert(rs[i as int] == runs@[i as int]@);
        let mut more = wr.wrap_str(runs[i].as_str());
        let ghost bm = blocks_view(more@);
        blocks.append(&mut more);
        proof {
            assert(blocks_view(blocks@) =~= b0 + bm);
            let rest = w_runs(st, width, align, wr.model(), rs, (i + 1) as nat);
            assert(b0 + (bm + rest.1) =~= (b0 + bm) + rest.1);
        }
        i += 1;
    }
    assert(blocks_view(blocks@) + Seq::<Seq<Seq<char>>>::empty() =~= blocks_view(blocks@));
    blocks
}

/// Wrapping one input line on its own: the wrapper is cleared, the runs of
/// the line are wrapped, and what is left is shown too.
pub open spec fn w_line(sm: SmSetup, width: usize, align: Align, m: WrapModel, s: Seq<char>) -> (WrapModel, Seq<Seq<Seq<char>>>) {
    let (m1, b1) = w_runs(sm, width, align, w_clear(m), word_runs(s), 0);
    if rows_empty(m1.lines) {
        (m1, b1)
    } else {
        let (b, m2) = w_get(sm, width, align, m1);
        (m2, b1.push(b))
    }
}

/// Render one input line on its own: the blocks to print, in order.
pub fn write_line(wr: &mut Wrapper, s: &str) -> (r: Vec<Vec<String>>)
    requires
        old(wr).inv(),
    ensures
        final(wr).inv(),
        final(wr).keeps(*old(wr)),
        (final(wr).model(), blocks_view(r@)) == w_line(
            old(wr).setup(),
            old(wr).width_spec(),
            old(wr).align_spec(),
            old(wr).model(),
            s@,
        ),
{
    wr.clear();
    let mut blocks = write_runs(wr, s);
    if !wr.is_empty() {
        let ghost b0 = blocks_view(blocks@);
        let b = wr.get();
        blocks.push(b);
        assert(blocks_view(blocks@) =~= b0.push(b@.map_values(|x: String| x@)));
    }
    blocks
}

/// Joining a line of a paragraph to what the wrapper holds: a line that
/// starts with a blank ends the paragraph so far (which is shown), any other
/// line is joined to it with a blank.
pub open spec fn w_join(sm: SmSetup, width: usize, align: Align, m: WrapModel, s: Seq<char>) -> (WrapModel, Seq<Seq<Seq<char>>>) {
    if !rows_empty(m.lines) {
        if s.len() > 0 && s[0] == ' ' {
            let (b, mg) = w_get(sm, width, align, m);
            (w_clear(mg), seq![b])
        } else {
            w_wrap_str(sm, width, align, m, seq![' '])
        }
    } else {
        (m, Seq::empty())
    }
}

/// Wrapping one line of a paragraph: it is joined to what the wrapper
/// holds, then its runs are wrapped.
pub open spec fn w_paragraph_line(sm: SmSetup, width: usize, align: Align, m: WrapModel, s: Seq<char>) -> (WrapModel, Seq<Seq<Seq<char>>>) {
    let (m1, b1) = w_join(sm, width, align, m, s);
    let (m2, b2) = w_runs(sm, width, align, m1, word_runs(s), 0);
    (m2, b1 + b2)
}

fn join_paragraph(wr: &mut Wrapper, s: &str) -> (r: Vec<Vec<String>>)
    requires
        old(wr).inv(),
    ensures
        final(wr).inv(),
        final(wr).keeps(*old(wr)),
        (final(wr).model(), blocks_view(r@)) == w_join(
            old(wr).setup(),
            old(wr).width_spec(),
            old(wr).align_spec(),
            old(wr).model(),
            s@,
        ),
{
    proof {
        reveal_strlit(" ");
    }
    let mut blocks: Vec<Vec<String>> = Vec::new();
    if !wr.is_empty() {
        let chars = str_chars(s);
        if chars.len() > 0 && chars[0] == ' ' {
            let b = wr.get();
            blocks.push(b);
            wr.clear();
            assert(blocks_view(blocks@) =~= seq![b@.map_values(|x: String| x@)]);
        } else {
            assert(" "@ =~= seq![' ']);
            blocks = wr.wrap_str(" ");
        }
    } else {
        assert(blocks_view(blocks@) =~= Seq::<Seq<Seq<char>>>::empty());
    }
    blocks
}

/// Render one input line in paragraph mode: the blocks to print, in order.
pub fn write_paragraph(wr: &mut Wrapper, s: &str) -> (r: Vec<Vec<String>>)
    requires
        old(wr).inv(),
    ensures
        final(wr).inv(),
        final(wr).keeps(*old(wr)),
        (final(wr).model(), blocks_view(r@)) == w_paragraph_line(
            old(wr).setup(),
            old(wr).width_spec(),
            old(wr).align_spec(),
            old(wr).model(),
            s@,
        ),
{
    let mut blocks = join_paragraph(wr, s);
    let ghost b1 = blocks_view(blocks@);
    let mut more = write_runs(wr, s);
    let ghost b2 = blocks_view(more@);
    blocks.append(&mut more);
    assert(blocks_view(blocks@) =~= b1 + b2);
    blocks
}


/// A run of characters none of which is white space.
pub open spec fn is_word(r: Seq<char>) -> bool {
    r.len() > 0 && forall|j: int| 0 <= j < r.len() ==> !is_ws(#[trigger] r[j])
}

/// A run of one white space character followed by spaces.
pub open spec fn is_blank_run(r: Seq<char>) -> bool {
    r.len() > 0 && is_ws(r[0]) && forall|j: int| 1 <= j < r.len() ==> #[trigger] r[j] == ' '
}

proof fn lemma_cont_facts(t: Seq<char>, ws: bool)
    ensures
        cont_len(t, ws) <= t.len(),
        forall|j: int|
            0 <= j < cont_len(t, ws) ==> is_ws(#[trigger] t[j]) == ws && (!ws || t[j] == ' '),
        cont_len(t, ws) < t.len() ==> !(is_ws(t[cont_len(t, ws) as int]) == ws && (!ws
            || t[cont_len(t, ws) as int] == ' ')),
    decreases t.len(),
{
    if t.len() > 0 && is_ws(t[0]) == ws && (!ws || t[0] == ' ') {
        let u = t.drop_first();
        lemma_cont_facts(u, ws);
        assert forall|j: int| 0 <= j < cont_len(t, ws) implies is_ws(#[trigger] t[j]) == ws && (!ws
            || t[j] == ' ') by {
            if j > 0 {
                assert(t[j] == u[j - 1]);
            }
        }
        if cont_len(t, ws) < t.len() {
            assert(t[cont_len(t, ws) as int] == u[cont_len(u, ws) as int]);
        }
    }
}

/// The runs of a line are words and runs of blanks (one white space
/// character, then spaces), and they are as long as they can be: a word is
/// never followed by a word, and a run of blanks never by a space.
pub proof fn law_run_kinds(s: Seq<char>)
    ensures
        forall|i: int|
            0 <= i < word_runs(s).len() ==> is_word(#[trigger] word_runs(s)[i]) || is_blank_run(
                word_runs(s)[i],
            ),
        forall|i: int|
            0 <= i < word_runs(s).len() - 1 ==> (is_word(#[trigger] word_runs(s)[i])
                ==> !is_word(word_runs(s)[i + 1])),
        forall|i: int|
            0 <= i < word_runs(s).len() - 1 ==> (is_blank_run(#[trigger] word_runs(s)[i])
                ==> word_runs(s)[i + 1][0] != ' '),
    decreases s.len(),
{
    lemma_word_runs(s);
    if s.len() > 0 {
        let ws0 = is_ws(s[0]);
        let t = s.drop_first();
        lemma_cont_facts(t, ws0);
        let n = run_len(s);
        let first = s.take(n as int);
        let rest = s.skip(n as int);
        law_run_kinds(rest);
        lemma_word_runs(rest);
        let runs = word_runs(s);
        assert(runs == seq![first] + word_runs(rest));
        assert forall|j: int| 1 <= j < first.len() implies first[j] == t[j - 1] by {}
        assert(is_word(first) || is_blank_run(first)) by {
            if ws0 {
                assert forall|j: int| 1 <= j < first.len() implies #[trigger] first[j] == ' ' by {
                    assert(first[j] == t[j - 1]);
                }
            } else {
                assert forall|j: int| 0 <= j < first.len() implies !is_ws(#[trigger] first[j]) by {
                    if j > 0 {
                        assert(first[j] == t[j - 1]);
                    }
                }
            }
        }
        assert forall|i: int| 0 <= i < runs.len() implies is_word(#[trigger] runs[i]) || is_blank_run(
            runs[i],
        ) by {
            if i > 0 {
                assert(runs[i] == word_runs(rest)[i - 1]);
            }
        }
        if rest.len() > 0 {
            let next = word_runs(rest)[0];
            assert(word_runs(rest)[0].len() > 0);
            assert(next[0] == s[n as int]) by {
                assert(next[0] == rest[0]);
            }
            assert(s[n as int] == t[n - 1]);
        }
        assert forall|i: int| 0 <= i < runs.len() - 1 implies (is_word(#[trigger] runs[i])
            ==> !is_word(runs[i + 1])) by {
            if i > 0 {
                assert(runs[i] == word_runs(rest)[i - 1]);
                assert(runs[i + 1] == word_runs(rest)[i]);
            } else {
                assert(runs[1] == word_runs(rest)[0]);
                if is_word(runs[0]) {
                    assert(!ws0) by {
                        assert(!is_ws(first[0]));
                    }
                    assert(is_ws(runs[1][0]));
                }
            }
        }
        assert forall|i: int| 0 <= i < runs.len() - 1 implies (is_blank_run(#[trigger] runs[i])
            ==> runs[i + 1][0] != ' ') by {
            if i > 0 {
                assert(runs[i] == word_runs(rest)[i - 1]);
                assert(runs[i + 1] == word_runs(rest)[i]);
            } else {
                assert(runs[1] == word_runs(rest)[0]);
                if is_blank_run(runs[0]) {
                    assert(ws0);
                }
            }
        }
    }
}


/// Font names: the suffix `.flf` or `.tlf` is dropped and any other name
/// kept; a name without a suffix is looked for with `.flf` first and then
/// `.tlf`; a control file name always ends with `.flc`, added only when
/// missing.
pub proof fn law_file_names(name: Seq<char>)
    ensures
        font_stem(name + ".flf"@) == name,
        font_stem(name + ".tlf"@) == name,
        !ends_with(name, ".flf"@) && !ends_with(name, ".tlf"@) ==> font_stem(name) == name
            && font_files(name) == seq![name + ".flf"@, name + ".tlf"@],
        font_files(name + ".flf"@) == seq![name + ".flf"@],
        ends_with(control_file(name), ".flc"@),
        control_file(name + ".flc"@) == name + ".flc"@,
        !ends_with(name, ".flc"@) ==> control_file(name) == name + ".flc"@,
{
    reveal_strlit(".flf");
    reveal_strlit(".tlf");
    reveal_strlit(".flc");
    let f = name + ".flf"@;
    let t = name + ".tlf"@;
    let c = name + ".flc"@;
    assert(f.skip(f.len() - 4) =~= ".flf"@);
    assert(t.skip(t.len() - 4) =~= ".tlf"@);
    assert(c.skip(c.len() - 4) =~= ".flc"@);
    assert(f.take(f.len() - 4) =~= name);
    assert(t.take(t.len() - 4) =~= name);
    let cf = control_file(name);
    if !ends_with(name, ".flc"@) {
        assert(cf.skip(cf.len() - 4) =~= ".flc"@);
    }
}

/// The values of `-m`: 0 is kerning, -1 full width, -2 the font's
/// smushing, every positive value that set of rules; values below -2 are
/// refused.
pub proof fn law_mode_values(m: i32)
    ensures
        mode_of_value(m) is None <==> m < -2,
        m >= 1 ==> mode_of_value(m) == Some(LayoutMode::Custom(m as u32)),
        mode_of_value(0i32) == Some(LayoutMode::Kern),
        mode_of_value(-1i32) == Some(LayoutMode::FullWidth),
        mode_of_value(-2i32) == Some(LayoutMode::SmushDefault),
{
}

} // verus!
