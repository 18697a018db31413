//! The smushing rules for a pair of sub-characters.

use vstd::prelude::*;
use crate::{SMUSH_EQUAL, SMUSH_UNDERLINE, SMUSH_HIERARCHY, SMUSH_PAIR, SMUSH_BIGX, SMUSH_HARDBLANK, SMUSH_KERN, SMUSH_ENABLE};

verus! {

/// The hierarchy class of a sub-character: `|` < `/\` < `[]` < `{}` <
/// `()` < `<>`; 0 for every other character.
pub open spec fn class_of(c: char) -> nat {
    if c == '|' {
        1
    } else if c == '/' || c == '\\' {
        2
    } else if c == '[' || c == ']' {
        3
    } else if c == '{' || c == '}' {
        4
    } else if c == '(' || c == ')' {
        5
    } else if c == '<' || c == '>' {
        6
    } else {
        0
    }
}

/// Universal overlapping: the later character wins over the earlier one,
/// except that a hardblank gives way to the other character. The later
/// character is the right one, or the left one when printing right to left.
pub open spec fn universal(l: char, r: char, hardblank: char, rtl: bool) -> char {
    if l == hardblank {
        r
    } else if r == hardblank {
        l
    } else if rtl {
        l
    } else {
        r
    }
}

/// The character that results from smushing `l` (left) with `r` (right)
/// under the layout `mode`, or `None` when they cannot be smushed.
///
/// A blank gives way to the other character. Kerning (the kern bit without
/// the smush bit) smushes nothing else; a mode without rule bits overlaps
/// universally; otherwise the rules of the mode apply, in the order
/// hardblank, equal, underscore, hierarchy, opposite pair, big X.
pub open spec fn smush_rule(l: char, r: char, hardblank: char, mode: u32, rtl: bool) -> Option<char> {
    if l == ' ' {
        Some(r)
    } else if r == ' ' {
        Some(l)
    } else if (mode & SMUSH_KERN) != 0 && (mode & SMUSH_ENABLE) == 0 {
        None
    } else if (mode & 63) == 0 {
        Some(universal(l, r, hardblank, rtl))
    } else if (mode & SMUSH_HARDBLANK) != 0 && l == hardblank && r == hardblank {
        Some(l)
    } else if l == hardblank || r == hardblank {
        None
    } else if (mode & SMUSH_EQUAL) != 0 && l == r {
        Some(l)
    } else if (mode & SMUSH_UNDERLINE) != 0 && l == '_' && class_of(r) > 0 {
        Some(r)
    } else if (mode & SMUSH_UNDERLINE) != 0 && r == '_' && class_of(l) > 0 {
        Some(l)
    } else if (mode & SMUSH_HIERARCHY) != 0 && class_of(l) > 0 && class_of(r) > class_of(l) {
        Some(r)
    } else if (mode & SMUSH_HIERARCHY) != 0 && class_of(r) > 0 && class_of(l) > class_of(r) {
        Some(l)
    } else if (mode & SMUSH_PAIR) != 0 && ((l == '[' && r == ']') || (l == ']' && r == '[') || (l
        == '{' && r == '}') || (l == '}' && r == '{') || (l == '(' && r == ')') || (l == ')' && r
        == '(')) {
        Some('|')
    } else if (mode & SMUSH_BIGX) != 0 && l == '/' && r == '\\' {
        Some('|')
    } else if (mode & SMUSH_BIGX) != 0 && l == '\\' && r == '/' {
        Some('Y')
    } else if (mode & SMUSH_BIGX) != 0 && l == '>' && r == '<' {
        Some('X')
    } else {
        None
    }
}

fn class(c: char) -> (r: u8)
    ensures
        r as nat == class_of(c),
{
    if c == '|' {
        1
    } else if c == '/' || c == '\\' {
        2
    } else if c == '[' || c == ']' {
        3
    } else if c == '{' || c == '}' {
        4
    } else if c == '(' || c == ')' {
        5
    } else if c == '<' || c == '>' {
        6
    } else {
        0
    }
}

/// Smush the left sub-character `l` with the right one `r`.
pub fn smush_chars(l: char, r: char, hardblank: char, mode: u32, rtl: bool) -> (res: Option<char>)
    ensures
        res == smush_rule(l, r, hardblank, mode, rtl),
{
    if l == ' ' {
        return Some(r);
    }
    if r == ' ' {
        return Some(l);
    }
    if (mode & SMUSH_KERN) != 0 && (mode & SMUSH_ENABLE) == 0 {
        return None;
    }
    if (mode & 63) == 0 {
        // universal overlapping
        if l == hardblank {
            return Some(r);
        }
        if r == hardblank {
            return Some(l);
        }
        return if rtl { Some(l) } else { Some(r) };
    }
    if (mode & SMUSH_HARDBLANK) != 0 && l == hardblank && r == hardblank {
        return Some(l);
    }
    if l == hardblank || r == hardblank {
        return None;
    }
    if (mode & SMUSH_EQUAL) != 0 && l == r {
        return Some(l);
    }
    let (cl, cr) = (class(l), class(r));
    if (mode & SMUSH_UNDERLINE) != 0 {
        if l == '_' && cr > 0 {
            return Some(r);
        }
        if r == '_' && cl > 0 {
            return Some(l);
        }
    }
    if (mode & SMUSH_HIERARCHY) != 0 {
        if cl > 0 && cr > cl {
            return Some(r);
        }
        if cr > 0 && cl > cr {
            return Some(l);
        }
    }
    if (mode & SMUSH_PAIR) != 0 {
        if (l == '[' && r == ']') || (l == ']' && r == '[') || (l == '{' && r == '}') || (l == '}'
            && r == '{') || (l == '(' && r == ')') || (l == ')' && r == '(') {
            return Some('|');
        }
    }
    if (mode & SMUSH_BIGX) != 0 {
        if l == '/' && r == '\\' {
            return Some('|');
        }
        if l == '\\' && r == '/' {
            return Some('Y');
        }
        if l == '>' && r == '<' {
            return Some('X');
        }
    }
    None
}


/// Smushing is on: the layout has a rule bit, and is not kerning alone.
pub open spec fn smushing(mode: u32) -> bool {
    (mode & 63) != 0 && ((mode & SMUSH_KERN) == 0 || (mode & SMUSH_ENABLE) != 0)
}

/// A rule bit of the layout turns smushing by rules on, unless the layout
/// is kerning alone.
proof fn lemma_rule_bit(mode: u32, bit: u32)
    requires
        bit == 1 || bit == 2 || bit == 4 || bit == 8 || bit == 16 || bit == 32,
        (mode & bit) != 0,
    ensures
        (mode & 63) != 0,
{
    assert((mode & bit) != 0 && (bit == 1 || bit == 2 || bit == 4 || bit == 8 || bit == 16
        || bit == 32) ==> (mode & 63) != 0) by (bit_vector);
}

/// A blank gives way to whatever it meets.
pub proof fn law_blank_gives_way(c: char, hardblank: char, mode: u32, rtl: bool)
    ensures
        smush_rule(' ', c, hardblank, mode, rtl) == Some(c),
        smush_rule(c, ' ', hardblank, mode, rtl) == Some(c),
{
}

/// Kerning alone smushes no two visible sub-characters.
pub proof fn law_kerning_smushes_nothing(l: char, r: char, hardblank: char, mode: u32, rtl: bool)
    requires
        (mode & SMUSH_KERN) != 0,
        (mode & SMUSH_ENABLE) == 0,
        l != ' ',
        r != ' ',
    ensures
        smush_rule(l, r, hardblank, mode, rtl) is None,
{
}

/// Overlapping without rules: of two visible sub-characters the later one
/// (the right one, or the left one right to left) stays, and a hardblank
/// gives way to the other.
pub proof fn law_universal_overlap(l: char, r: char, hardblank: char, mode: u32, rtl: bool)
    requires
        (mode & 63) == 0,
        (mode & SMUSH_KERN) == 0 || (mode & SMUSH_ENABLE) != 0,
        l != ' ',
        r != ' ',
    ensures
        l != hardblank && r != hardblank ==> smush_rule(l, r, hardblank, mode, rtl) == Some(
            if rtl {
                l
            } else {
                r
            },
        ),
        l == hardblank ==> smush_rule(l, r, hardblank, mode, rtl) == Some(r),
        r == hardblank && l != hardblank ==> smush_rule(l, r, hardblank, mode, rtl) == Some(l),
{
}

/// Under smushing rules, a hardblank smushes with nothing but another
/// hardblank, and with one only under rule 6.
pub proof fn law_hardblank(c: char, hardblank: char, mode: u32, rtl: bool)
    requires
        smushing(mode),
        c != ' ',
        hardblank != ' ',
    ensures
        c != hardblank ==> smush_rule(hardblank, c, hardblank, mode, rtl) is None && smush_rule(
            c,
            hardblank,
            hardblank,
            mode,
            rtl,
        ) is None,
        smush_rule(hardblank, hardblank, hardblank, mode, rtl) == if (mode & SMUSH_HARDBLANK) != 0 {
            Some(hardblank)
        } else {
            None::<char>
        },
{
}

/// Rule 1: two equal visible sub-characters smush into one.
pub proof fn law_equal(c: char, hardblank: char, mode: u32, rtl: bool)
    requires
        (mode & SMUSH_EQUAL) != 0,
        (mode & SMUSH_KERN) == 0 || (mode & SMUSH_ENABLE) != 0,
        c != ' ',
        c != hardblank,
    ensures
        smush_rule(c, c, hardblank, mode, rtl) == Some(c),
{
    lemma_rule_bit(mode, 1);
}

/// Rule 2: an underscore gives way to any of `|/\[]{}()<>`, on either side.
pub proof fn law_underscore(c: char, hardblank: char, mode: u32, rtl: bool)
    requires
        (mode & SMUSH_UNDERLINE) != 0,
        (mode & SMUSH_KERN) == 0 || (mode & SMUSH_ENABLE) != 0,
        class_of(c) > 0,
        c != hardblank,
        '_' != hardblank,
    ensures
        smush_rule('_', c, hardblank, mode, rtl) == Some(c),
        smush_rule(c, '_', hardblank, mode, rtl) == Some(c),
{
    lemma_rule_bit(mode, 2);
}

/// Rule 3: of two sub-characters of different hierarchy classes
/// (`|` < `/\` < `[]` < `{}` < `()` < `<>`), the one of the higher class
/// stays, whichever side it is on: `|` smushed with `/` or `\` gives the
/// slash.
pub proof fn law_hierarchy(l: char, r: char, hardblank: char, mode: u32, rtl: bool)
    requires
        (mode & SMUSH_HIERARCHY) != 0,
        (mode & SMUSH_KERN) == 0 || (mode & SMUSH_ENABLE) != 0,
        l != hardblank,
        r != hardblank,
        class_of(l) > 0,
        class_of(r) > 0,
        class_of(l) != class_of(r),
    ensures
        smush_rule(l, r, hardblank, mode, rtl) == Some(
            if class_of(l) > class_of(r) {
                l
            } else {
                r
            },
        ),
        smush_rule(l, r, hardblank, mode, rtl) == smush_rule(r, l, hardblank, mode, !rtl),
        class_of(smush_rule(l, r, hardblank, mode, rtl).unwrap()) > class_of(l) || class_of(
            smush_rule(l, r, hardblank, mode, rtl).unwrap(),
        ) > class_of(r),
{
    lemma_rule_bit(mode, 4);
}

/// Rule 4: opposite brackets, braces or parentheses smush into `|`.
pub proof fn law_opposite_pair(l: char, r: char, hardblank: char, mode: u32, rtl: bool)
    requires
        (mode & SMUSH_PAIR) != 0,
        (mode & SMUSH_KERN) == 0 || (mode & SMUSH_ENABLE) != 0,
        (l == '[' && r == ']') || (l == ']' && r == '[') || (l == '{' && r == '}') || (l == '}'
            && r == '{') || (l == '(' && r == ')') || (l == ')' && r == '('),
        l != hardblank,
        r != hardblank,
    ensures
        smush_rule(l, r, hardblank, mode, rtl) == Some('|'),
{
    lemma_rule_bit(mode, 8);
}

/// Rule 5: `/\` smushes into `|`, `\/` into `Y`, and `><` into `X`.
pub proof fn law_big_x(hardblank: char, mode: u32, rtl: bool)
    requires
        (mode & SMUSH_BIGX) != 0,
        (mode & SMUSH_KERN) == 0 || (mode & SMUSH_ENABLE) != 0,
        hardblank != '/',
        hardblank != '\\',
        hardblank != '<',
        hardblank != '>',
    ensures
        smush_rule('/', '\\', hardblank, mode, rtl) == Some('|'),
        smush_rule('\\', '/', hardblank, mode, rtl) == Some('Y'),
        smush_rule('>', '<', hardblank, mode, rtl) == Some('X'),
{
    lemma_rule_bit(mode, 16);
}

} // verus!
