//! Smushing one line of a FIGcharacter onto one line of output.

use vstd::prelude::*;
use super::charsmush::{smush_rule, smush_chars};
use crate::{SMUSH_KERN, SMUSH_ENABLE};

verus! {

/// The number of blanks (spaces) at the start of `s`.
pub open spec fn lead(s: Seq<char>) -> nat
    decreases s.len(),
{
    if s.len() > 0 && s[0] == ' ' {
        1 + lead(s.drop_first())
    } else {
        0
    }
}

/// The number of blanks (spaces) at the end of `s`.
pub open spec fn trail(s: Seq<char>) -> nat
    decreases s.len(),
{
    if s.len() > 0 && s.last() == ' ' {
        1 + trail(s.drop_last())
    } else {
        0
    }
}

/// By how many columns a right line can be moved onto a left line: the
/// blanks at the end of the left line plus those at the start of the right
/// line, and one more when the last visible character of the left line and
/// the first visible character of the right line smush.
pub open spec fn gap(left: Seq<char>, right: Seq<char>, hardblank: char, mode: u32, rtl: bool) -> nat {
    let t = trail(left);
    let l = lead(right);
    if t < left.len() && l < right.len() && smush_rule(
        left[left.len() - 1 - t],
        right[l as int],
        hardblank,
        mode,
        rtl,
    ) is Some {
        t + l + 1
    } else {
        t + l
    }
}

/// The character in a column where `l` and `r` overlap: their smush, or the
/// later of the two where they do not smush.
pub open spec fn merge(l: char, r: char, hardblank: char, mode: u32, rtl: bool) -> char {
    match smush_rule(l, r, hardblank, mode, rtl) {
        Some(c) => c,
        None => if rtl {
            l
        } else {
            r
        },
    }
}

/// The line made of `left` and of `right` moved `amt` columns onto it:
/// `right` starts at column `left.len() - amt`; where both have a
/// character they merge, columns that `right` would take left of column 0
/// are dropped.
pub open spec fn join(left: Seq<char>, right: Seq<char>, amt: nat, hardblank: char, mode: u32, rtl: bool) -> Seq<char> {
    let start = left.len() - amt;
    let n = if start + right.len() > left.len() {
        start + right.len()
    } else {
        left.len() as int
    };
    Seq::new(
        n as nat,
        |j: int|
            if j < left.len() {
                if start <= j < start + right.len() {
                    merge(left[j], right[j - start], hardblank, mode, rtl)
                } else {
                    left[j]
                }
            } else {
                right[j - start]
            },
    )
}

/// `s` has exactly `n` leading blanks when its first `n` characters are
/// blank and the next one, if any, is not.
proof fn lemma_lead(s: Seq<char>, n: nat)
    requires
        n <= s.len(),
        forall|i: int| 0 <= i < n ==> s[i] == ' ',
        n < s.len() ==> s[n as int] != ' ',
    ensures
        lead(s) == n,
    decreases n,
{
    if n > 0 {
        lemma_lead(s.drop_first(), (n - 1) as nat);
    }
}

proof fn lemma_trail(s: Seq<char>, n: nat)
    requires
        n <= s.len(),
        forall|i: int| s.len() - n <= i < s.len() ==> s[i] == ' ',
        n < s.len() ==> s[s.len() - 1 - n] != ' ',
    ensures
        trail(s) == n,
    decreases n,
{
    if n > 0 {
        lemma_trail(s.drop_last(), (n - 1) as nat);
    }
}

fn count_lead(s: &Vec<char>) -> (r: usize)
    ensures
        r == lead(s@),
{
    let mut i: usize = 0;
    while i < s.len() && s[i] == ' '
        invariant
            i <= s@.len(),
            forall|j: int| 0 <= j < i ==> s@[j] == ' ',
        decreases s@.len() - i,
    {
        i += 1;
    }
    proof {
        lemma_lead(s@, i as nat);
    }
    i
}

fn count_trail(s: &Vec<char>) -> (r: usize)
    ensures
        r == trail(s@),
{
    let mut i: usize = 0;
    while i < s.len() && s[s.len() - 1 - i] == ' '
        invariant
            i <= s@.len(),
            forall|j: int| s@.len() - i <= j < s@.len() ==> s@[j] == ' ',
        decreases s@.len() - i,
    {
        i += 1;
    }
    proof {
        lemma_trail(s@, i as nat);
    }
    i
}

/// `min(x, usize::MAX)`.
pub open spec fn sat(x: nat) -> nat {
    if x <= usize::MAX {
        x
    } else {
        usize::MAX as nat
    }
}

fn gap_between(left: &Vec<char>, right: &Vec<char>, hardblank: char, mode: u32, rtl: bool) -> (r: usize)
    ensures
        r == sat(gap(left@, right@, hardblank, mode, rtl)),
{
    let t = count_trail(left);
    let l = count_lead(right);
    let base = t.saturating_add(l);
    if t < left.len() && l < right.len() {
        if smush_chars(left[left.len() - 1 - t], right[l], hardblank, mode, rtl).is_some() {
            return base.saturating_add(1);
        }
    }
    base
}

/// By how many columns the FIGcharacter line `cline` can be moved onto the
/// output line `line`: when printing left to right `cline` goes right of
/// `line`, when printing right to left it goes left of it.
pub fn amount(line: &Vec<char>, cline: &Vec<char>, hardblank: char, mode: u32, right2left: bool) -> (r: usize)
    ensures
        r == sat(
            if right2left {
                gap(cline@, line@, hardblank, mode, true)
            } else {
                gap(line@, cline@, hardblank, mode, false)
            },
        ),
{
    if right2left {
        gap_between(cline, line, hardblank, mode, true)
    } else {
        gap_between(line, cline, hardblank, mode, false)
    }
}

fn join_lines(left: &Vec<char>, right: &Vec<char>, amt: usize, hardblank: char, mode: u32, rtl: bool) -> (r: Vec<char>)
    ensures
        r@ == join(left@, right@, amt as nat, hardblank, mode, rtl),
{
    let ghost target = join(left@, right@, amt as nat, hardblank, mode, rtl);
    let mut res: Vec<char> = Vec::new();
    let n = left.len();
    let mut j: usize = 0;
    while j < n
        invariant
            j <= n == left@.len(),
            res@.len() == j,
            target == join(left@, right@, amt as nat, hardblank, mode, rtl),
            forall|i: int| 0 <= i < j ==> res@[i] == target[i],
            target.len() >= n,
        decreases n - j,
    {
        let d = n - j;
        if amt >= d && amt - d < right.len() {
            let c = match smush_chars(left[j], right[amt - d], hardblank, mode, rtl) {
                Some(c) => c,
                None => if rtl {
                    left[j]
                } else {
                    right[amt - d]
                },
            };
            res.push(c);
        } else {
            res.push(left[j]);
        }
        j += 1;
    }
    let mut k: usize = amt;
    while k < right.len()
        invariant
            n == left@.len(),
            target == join(left@, right@, amt as nat, hardblank, mode, rtl),
            amt <= k,
            k < right@.len() ==> res@.len() == n + (k - amt),
            k >= right@.len() ==> res@.len() == n + (if amt < right@.len() {
                right@.len() - amt
            } else {
                0
            }),
            forall|i: int| 0 <= i < res@.len() ==> res@[i] == target[i],
            target.len() == n + (if amt < right@.len() {
                right@.len() - amt
            } else {
                0
            }),
        decreases right@.len() - k,
    {
        res.push(right[k]);
        k += 1;
    }
    assert(res@ =~= target);
    res
}

/// Smush the FIGcharacter line `cline` right of the output line `line`,
/// moving it `amt` columns onto it.
pub fn smush(line: &Vec<char>, cline: &Vec<char>, amt: usize, hardblank: char, mode: u32) -> (r: Vec<char>)
    ensures
        r@ == join(line@, cline@, amt as nat, hardblank, mode, false),
{
    join_lines(line, cline, amt, hardblank, mode, false)
}

/// Smush the FIGcharacter line `cline` left of the output line `line`,
/// moving it `amt` columns onto it (right-to-left printing).
pub fn smush_rtl(line: &Vec<char>, cline: &Vec<char>, amt: usize, hardblank: char, mode: u32) -> (r: Vec<char>)
    ensures
        r@ == join(cline@, line@, amt as nat, hardblank, mode, true),
{
    join_lines(cline, line, amt, hardblank, mode, true)
}


proof fn lemma_lead_facts(s: Seq<char>)
    ensures
        lead(s) <= s.len(),
        forall|i: int| 0 <= i < lead(s) ==> s[i] == ' ',
        lead(s) < s.len() ==> s[lead(s) as int] != ' ',
    decreases s.len(),
{
    if s.len() > 0 && s[0] == ' ' {
        let t = s.drop_first();
        lemma_lead_facts(t);
        assert forall|i: int| 0 <= i < lead(s) implies s[i] == ' ' by {
            if i > 0 {
                assert(s[i] == t[i - 1]);
            }
        }
        if lead(s) < s.len() {
            assert(s[lead(s) as int] == t[lead(t) as int]);
        }
    }
}

proof fn lemma_trail_facts(s: Seq<char>)
    ensures
        trail(s) <= s.len(),
        forall|i: int| s.len() - trail(s) <= i < s.len() ==> s[i] == ' ',
        trail(s) < s.len() ==> s[s.len() - 1 - trail(s)] != ' ',
    decreases s.len(),
{
    if s.len() > 0 && s.last() == ' ' {
        let t = s.drop_last();
        lemma_trail_facts(t);
        assert forall|i: int| s.len() - trail(s) <= i < s.len() implies s[i] == ' ' by {
            if i < s.len() - 1 {
                assert(s[i] == t[i]);
            }
        }
        if trail(s) < s.len() {
            assert(s[s.len() - 1 - trail(s)] == t[t.len() - 1 - trail(t)]);
        }
    }
}

/// Where `right`, moved `amt` columns onto `left`, overlaps it, one of the
/// two is blank; and what of `right` falls left of the first column is
/// blank.
pub open spec fn overlap_blank(left: Seq<char>, right: Seq<char>, amt: nat) -> bool {
    forall|m: int|
        0 <= m < amt && m < right.len() ==> (left.len() - amt + m < 0 || left[left.len() - amt + m]
            == ' ' || #[trigger] right[m] == ' ')
}

/// Kerning moves a line onto another no further than their blanks allow:
/// no visible sub-character of either is overwritten.
pub proof fn lemma_kerning_row(left: Seq<char>, right: Seq<char>, hardblank: char, mode: u32, rtl: bool, amt: nat)
    requires
        (mode & SMUSH_KERN) != 0,
        (mode & SMUSH_ENABLE) == 0,
        amt <= gap(left, right, hardblank, mode, rtl),
    ensures
        overlap_blank(left, right, amt),
{
    lemma_lead_facts(right);
    lemma_trail_facts(left);
    let t = trail(left);
    let l = lead(right);
    if t < left.len() && l < right.len() {
        let a = left[left.len() - 1 - t];
        let b = right[l as int];
        assert(a != ' ' && b != ' ');
        assert(smush_rule(a, b, hardblank, mode, rtl) is None);
    }
    assert(amt <= t + l);
    assert forall|m: int| 0 <= m < amt && m < right.len() implies (left.len() - amt + m < 0
        || left[left.len() - amt + m] == ' ' || #[trigger] right[m] == ' ') by {
        if m >= l && left.len() - amt + m >= 0 {
            assert(left.len() - amt + m >= left.len() - t);
        }
    }
}


/// Smushing moves a line onto another by the blanks between them, and by
/// one column more exactly when the two visible sub-characters that then
/// meet smush; in that column the joined line holds their smush, and in
/// every other overlapped column one side is blank.
pub proof fn law_smush_row(left: Seq<char>, right: Seq<char>, hardblank: char, mode: u32, rtl: bool)
    ensures
        ({
            let amt = gap(left, right, hardblank, mode, rtl);
            let t = trail(left);
            let l = lead(right);
            let meet = t < left.len() && l < right.len() && smush_rule(
                left[left.len() - 1 - t],
                right[l as int],
                hardblank,
                mode,
                rtl,
            ) is Some;
            &&& amt == (if meet {
                t + l + 1
            } else {
                t + l
            })
            &&& forall|m: int|
                0 <= m < amt && m < right.len() && left.len() - amt + m >= 0 ==> (left[left.len()
                    - amt + m] == ' ' || #[trigger] right[m] == ' ' || (meet && m == l))
            &&& meet ==> join(left, right, amt, hardblank, mode, rtl)[left.len() - 1 - t]
                == smush_rule(left[left.len() - 1 - t], right[l as int], hardblank, mode, rtl).unwrap()
        }),
{
    lemma_lead_facts(right);
    lemma_trail_facts(left);
    let amt = gap(left, right, hardblank, mode, rtl);
    let t = trail(left);
    let l = lead(right);
    let meet = t < left.len() && l < right.len() && smush_rule(
        left[left.len() - 1 - t],
        right[l as int],
        hardblank,
        mode,
        rtl,
    ) is Some;
    assert forall|m: int|
        0 <= m < amt && m < right.len() && left.len() - amt + m >= 0 implies (left[left.len() - amt
            + m] == ' ' || #[trigger] right[m] == ' ' || (meet && m == l)) by {
        if m >= l && left.len() - amt + m >= left.len() - t {
            assert(left[left.len() - amt + m] == ' ');
        }
    }
    if meet {
        let j = left.len() - 1 - t;
        let r = join(left, right, amt, hardblank, mode, rtl);
        assert(r[j] == merge(left[j], right[l as int], hardblank, mode, rtl));
    }
}

} // verus!
