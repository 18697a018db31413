//! FIGfonts and FIGcharacters.

use vstd::prelude::*;
use crate::Error;
use crate::text::str_chars;

verus! {

/// One FIGcharacter: its rows of sub-characters, top to bottom.
#[derive(Debug)]
pub struct FIGchar {
    lines: Vec<Vec<char>>,
}

impl FIGchar {
    /// The rows of the FIGcharacter.
    pub closed spec fn rows(self) -> Seq<Seq<char>> {
        self.lines@.map_values(|l: Vec<char>| l@)
    }

    /// Build a FIGcharacter from its rows. A FIGcharacter has at least one
    /// row: an empty list is refused.
    pub fn from_lines(lines: &Vec<&str>) -> (r: Result<FIGchar, Error>)
        ensures
            lines@.len() == 0 ==> r == Err::<FIGchar, Error>(Error::EmptyFIGchar),
            lines@.len() > 0 ==> (r matches Ok(fc) && fc.rows() == lines@.map_values(
                |s: &str| s@,
            )),
    {
        if lines.len() == 0 {
            return Err(Error::EmptyFIGchar);
        }
        let mut rows: Vec<Vec<char>> = Vec::new();
        let mut i: usize = 0;
        while i < lines.len()
            invariant
                i <= lines@.len(),
                rows@.len() == i,
                forall|k: int| 0 <= k < i ==> (#[trigger] rows@[k])@ == lines@[k]@,
            decreases lines@.len() - i,
        {
            rows.push(str_chars(lines[i]));
            i += 1;
        }
        let fc = FIGchar { lines: rows };
        assert(fc.rows() =~= lines@.map_values(|s: &str| s@));
        Ok(fc)
    }

    /// Build a FIGcharacter from rows of sub-characters.
    pub fn from_rows(rows: Vec<Vec<char>>) -> (r: FIGchar)
        ensures
            r.rows() == rows@.map_values(|l: Vec<char>| l@),
    {
        FIGchar { lines: rows }
    }

    /// The rows of the FIGcharacter.
    pub fn get(&self) -> (r: &Vec<Vec<char>>)
        ensures
            r@.map_values(|l: Vec<char>| l@) == self.rows(),
    {
        &self.lines
    }
}

/// No code appears twice among the entries.
pub open spec fn unique_codes(e: Seq<(i32, Seq<Seq<char>>)>) -> bool {
    forall|i: int, j: int| 0 <= i < j < e.len() ==> (#[trigger] e[i]).0 != (#[trigger] e[j]).0
}

/// The rows filed under `code` among the entries, if any.
pub open spec fn glyph_in(e: Seq<(i32, Seq<Seq<char>>)>, code: i32) -> Option<Seq<Seq<char>>> {
    if exists|i: int| 0 <= i < e.len() && (#[trigger] e[i]).0 == code {
        let i = choose|i: int| 0 <= i < e.len() && (#[trigger] e[i]).0 == code;
        Some(e[i].1)
    } else {
        None
    }
}

/// With distinct codes, the entry of a code is the one it was filed in.
pub proof fn lemma_glyph_at(e: Seq<(i32, Seq<Seq<char>>)>, k: int)
    requires
        unique_codes(e),
        0 <= k < e.len(),
    ensures
        glyph_in(e, e[k].0) == Some(e[k].1),
{
    let c = e[k].0;
    assert(0 <= k < e.len() && e[k].0 == c);
    let i = choose|i: int| 0 <= i < e.len() && (#[trigger] e[i]).0 == c;
    if i < k {
        assert(e[i].0 != e[k].0);
    } else if k < i {
        assert(e[k].0 != e[i].0);
    }
}

/// The entries after filing `x`: in the place of the entry with its code,
/// or at the end when no entry has it.
pub open spec fn file_entry(e: Seq<(i32, Seq<Seq<char>>)>, x: (i32, Seq<Seq<char>>)) -> Seq<(i32, Seq<Seq<char>>)> {
    if exists|k: int| 0 <= k < e.len() && (#[trigger] e[k]).0 == x.0 {
        let k = choose|k: int| 0 <= k < e.len() && (#[trigger] e[k]).0 == x.0;
        e.update(k, x)
    } else {
        e.push(x)
    }
}

/// The entries after filing each of `list` in turn into none.
pub open spec fn filed(list: Seq<(i32, Seq<Seq<char>>)>) -> Seq<(i32, Seq<Seq<char>>)>
    decreases list.len(),
{
    if list.len() == 0 {
        Seq::empty()
    } else {
        file_entry(filed(list.drop_last()), list.last())
    }
}

/// A FIGfont: the header parameters and the FIGcharacters, each under its
/// character code.
#[derive(Debug)]
pub struct FIGfont {
    /// The sub-character that prints as a blank but is not smushed as one.
    pub hardblank: char,
    /// The number of rows of every FIGcharacter.
    pub height: usize,
    /// The number of rows from the top to the baseline.
    pub baseline: usize,
    /// The longest line of the font file.
    pub max_length: usize,
    /// The layout of the font's header in its old form (-1 full width,
    /// 0 kerning, else smushing rules plus one).
    pub old_layout: i32,
    /// The full horizontal (and vertical) layout bits.
    pub layout: u32,
    /// Whether the font prints right to left by default.
    pub right_to_left: bool,
    /// The FIGcharacters under their codes; `add_char` keeps the codes distinct.
    pub chars: Vec<(i32, FIGchar)>,
}

impl FIGfont {
    /// The codes and rows of the FIGcharacters, in the order they were added.
    pub open spec fn entries(self) -> Seq<(i32, Seq<Seq<char>>)> {
        self.chars@.map_values(|e: (i32, FIGchar)| (e.0, e.1.rows()))
    }

    /// Every code appears once and every FIGcharacter has `height` rows.
    pub open spec fn wf(self) -> bool {
        &&& unique_codes(self.entries())
        &&& forall|i: int|
            0 <= i < self.entries().len() ==> (#[trigger] self.entries()[i]).1.len()
                == self.height
    }

    /// The rows of the FIGcharacter of `code`, if the font has one.
    pub open spec fn glyph(self, code: i32) -> Option<Seq<Seq<char>>> {
        glyph_in(self.entries(), code)
    }

    /// Add the FIGcharacter `fc` under `code`, in place of the one the code
    /// had. A FIGcharacter whose number of rows is not the font's height is
    /// refused and the font is left as it was.
    pub fn add_char(&mut self, code: i32, fc: FIGchar) -> (r: Result<(), Error>)
        requires
            old(self).wf(),
        ensures
            final(self).wf(),
            final(self).height == old(self).height,
            final(self).hardblank == old(self).hardblank,
            final(self).layout == old(self).layout,
            final(self).old_layout == old(self).old_layout,
            final(self).right_to_left == old(self).right_to_left,
            final(self).baseline == old(self).baseline,
            final(self).max_length == old(self).max_length,
            fc.rows().len() != old(self).height ==> r == Err::<(), Error>(Error::HeightMismatch)
                && final(self).entries() == old(self).entries(),
            fc.rows().len() == old(self).height ==> r is Ok && (forall|c: i32|
                #[trigger] glyph_in(final(self).entries(), c) == if c == code {
                    Some(fc.rows())
                } else {
                    glyph_in(old(self).entries(), c)
                }),
            fc.rows().len() == old(self).height ==> final(self).entries() == file_entry(
                old(self).entries(),
                (code, fc.rows()),
            ),
    {
        if fc.lines.len() != self.height {
            return Err(Error::HeightMismatch);
        }
        let ghost old_entries = self.entries();
        let ghost rows = fc.rows();
        let mut i: usize = 0;
        while i < self.chars.len()
            invariant
                *self == *old(self),
                old(self).wf(),
                self.entries() == old_entries,
                rows.len() == self.height,
                rows == fc.rows(),
                i <= self.chars@.len(),
                forall|k: int| 0 <= k < i ==> (#[trigger] self.entries()[k]).0 != code,
            decreases self.chars@.len() - i,
        {
            if self.chars[i].0 == code {
                self.chars.set(i, (code, fc));
                proof {
                    let e = self.entries();
                    assert(e =~= old_entries.update(i as int, (code, rows)));
                    assert(old(self).entries()[i as int].0 == code);
                    let k = choose|k: int|
                        0 <= k < old_entries.len() && (#[trigger] old_entries[k]).0 == code;
                    if k != i {
                        if k < i {
                            assert(old_entries[k].0 != old_entries[i as int].0);
                        } else {
                            assert(old_entries[i as int].0 != old_entries[k].0);
                        }
                    }
                    assert(unique_codes(e)) by {
                        assert forall|a: int, b: int| 0 <= a < b < e.len() implies (#[trigger] e[a]).0 != (#[trigger] e[b]).0 by {
                            assert(old_entries[a].0 != old_entries[b].0);
                        }
                    }
                    Self::lemma_replaced(old_entries, e, i as int, code, rows);
                }
                return Ok(());
            }
            i += 1;
        }
        self.chars.push((code, fc));
        proof {
            let e = self.entries();
            let n = old_entries.len() as int;
            assert(e =~= old_entries.push((code, rows)));
            assert(!exists|k: int| 0 <= k < old_entries.len() && (#[trigger] old_entries[k]).0 == code);
            assert(unique_codes(e)) by {
                assert forall|a: int, b: int| 0 <= a < b < e.len() implies (#[trigger] e[a]).0 != (#[trigger] e[b]).0 by {
                    if b < n {
                        assert(old_entries[a].0 != old_entries[b].0);
                    } else {
                        assert(old_entries[a].0 != code);
                    }
                }
            }
            assert forall|c: i32| #[trigger] glyph_in(e, c) == if c == code {
                Some(rows)
            } else {
                glyph_in(old_entries, c)
            } by {
                if c == code {
                    lemma_glyph_at(e, n);
                } else if exists|k: int| 0 <= k < old_entries.len() && (#[trigger] old_entries[k]).0 == c {
                    let k = choose|k: int| 0 <= k < old_entries.len() && (#[trigger] old_entries[k]).0 == c;
                    lemma_glyph_at(e, k);
                    lemma_glyph_at(old_entries, k);
                } else {
                    assert(!exists|k: int| 0 <= k < e.len() && (#[trigger] e[k]).0 == c) by {
                        if exists|k: int| 0 <= k < e.len() && (#[trigger] e[k]).0 == c {
                            let k = choose|k: int| 0 <= k < e.len() && (#[trigger] e[k]).0 == c;
                            assert(old_entries[k].0 == c);
                        }
                    }
                }
            }
        }
        Ok(())
    }

    /// Replacing the entry at `i` (code `code`) changes the rows of `code`
    /// alone.
    proof fn lemma_replaced(
        old_e: Seq<(i32, Seq<Seq<char>>)>,
        e: Seq<(i32, Seq<Seq<char>>)>,
        i: int,
        code: i32,
        rows: Seq<Seq<char>>,
    )
        requires
            unique_codes(old_e),
            unique_codes(e),
            0 <= i < old_e.len(),
            old_e[i].0 == code,
            e == old_e.update(i, (code, rows)),
        ensures
            forall|c: i32| #[trigger] glyph_in(e, c) == if c == code {
                Some(rows)
            } else {
                glyph_in(old_e, c)
            },
    {
        assert forall|c: i32| #[trigger] glyph_in(e, c) == if c == code {
            Some(rows)
        } else {
            glyph_in(old_e, c)
        } by {
            if c == code {
                lemma_glyph_at(e, i);
            } else if exists|k: int| 0 <= k < old_e.len() && (#[trigger] old_e[k]).0 == c {
                let k = choose|k: int| 0 <= k < old_e.len() && (#[trigger] old_e[k]).0 == c;
                lemma_glyph_at(e, k);
                lemma_glyph_at(old_e, k);
            } else {
                assert(!exists|k: int| 0 <= k < e.len() && (#[trigger] e[k]).0 == c) by {
                    if exists|k: int| 0 <= k < e.len() && (#[trigger] e[k]).0 == c {
                        let k = choose|k: int| 0 <= k < e.len() && (#[trigger] e[k]).0 == c;
                        assert(old_e[k].0 == c);
                    }
                }
            }
        }
    }

    /// The FIGcharacter of the character `ch`, if the font has one.
    pub fn get(&self, ch: char) -> (r: Option<&FIGchar>)
        requires
            self.wf(),
        ensures
            match r {
                Some(fc) => self.glyph(ch as i32) == Some(fc.rows()),
                None => self.glyph(ch as i32) is None,
            },
    {
        let code = ch as i32;
        let mut i: usize = 0;
        while i < self.chars.len()
            invariant
                self.wf(),
                code == ch as i32,
                i <= self.chars@.len(),
                forall|k: int| 0 <= k < i ==> (#[trigger] self.entries()[k]).0 != code,
            decreases self.chars@.len() - i,
        {
            if self.chars[i].0 == code {
                proof {
                    lemma_glyph_at(self.entries(), i as int);
                }
                return Some(&self.chars[i].1);
            }
            i += 1;
        }
        None
    }
}

impl Default for FIGfont {
    /// A font without FIGcharacters, of height 0, with a zero hardblank and
    /// all layout bits off.
    fn default() -> (r: Self)
        ensures
            r.entries() == Seq::<(i32, Seq<Seq<char>>)>::empty(),
            r.hardblank == '\0',
            r.height == 0,
            r.baseline == 0,
            r.max_length == 0,
            r.old_layout == 0,
            r.layout == 0,
            !r.right_to_left,
    {
        let r = FIGfont {
            hardblank: '\0',
            height: 0,
            baseline: 0,
            max_length: 0,
            old_layout: 0,
            layout: 0,
            right_to_left: false,
            chars: Vec::new(),
        };
        assert(r.entries() =~= Seq::<(i32, Seq<Seq<char>>)>::empty());
        r
    }
}

} // verus!
