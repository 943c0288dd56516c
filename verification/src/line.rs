use vstd::prelude::*;

use crate::text::{chars_of, string_from_chars};

verus! {

/// Whether `c` has the Unicode `White_Space` property (what std's
/// `char::is_whitespace` answers): tab, line feed, vertical tab, form feed,
/// carriage return, space, next line, no-break space, ogham space mark, the
/// spaces U+2000 to U+200A, line and paragraph separators, narrow no-break
/// space, medium mathematical space and ideographic space.
pub open spec fn unicode_white_space(c: char) -> bool {
    let v = c as u32;
    (0x09 <= v && v <= 0x0D) || v == 0x20 || v == 0x85 || v == 0xA0 || v == 0x1680 || (0x2000
        <= v && v <= 0x200A) || v == 0x2028 || v == 0x2029 || v == 0x202F || v == 0x205F || v
        == 0x3000
}

/// Whether `c` is white space (see [`unicode_white_space`]).
fn is_whitespace(c: char) -> (r: bool)
    ensures
        r == unicode_white_space(c),
{
    let v = c as u32;
    (0x09 <= v && v <= 0x0D) || v == 0x20 || v == 0x85 || v == 0xA0 || v == 0x1680 || (0x2000
        <= v && v <= 0x200A) || v == 0x2028 || v == 0x2029 || v == 0x202F || v == 0x205F || v
        == 0x3000
}

/// The white-space answers for the characters of `s`.
pub open spec fn white_flags(s: Seq<char>) -> Seq<bool> {
    Seq::new(s.len(), |i: int| unicode_white_space(s[i]))
}

/// The first position at or after `i` that `white` does not mark, or the end.
pub open spec fn first_kept(white: Seq<bool>, i: int) -> int
    decreases white.len() - i,
{
    if 0 <= i < white.len() && white[i] {
        first_kept(white, i + 1)
    } else {
        i
    }
}

/// The end of the line `[lo, j)` once the marked positions at its end are cut.
pub open spec fn last_kept_end(white: Seq<bool>, lo: int, j: int) -> int
    decreases j - lo,
{
    if lo < j && white[j - 1] {
        last_kept_end(white, lo, j - 1)
    } else {
        j
    }
}

/// `s` without the leading and trailing characters that `white` marks.
pub open spec fn trimmed(s: Seq<char>, white: Seq<bool>) -> Seq<char> {
    let lo = first_kept(white, 0);
    s.subrange(lo, last_kept_end(white, lo, s.len() as int))
}

/// What to do with the input read so far.
#[derive(Debug)]
pub enum LineStep {
    /// Nothing but white space was read: no command.
    Empty,
    /// The input is complete: lex and run all of it as it was read.
    Run,
    /// The line ends in a single backslash: keep this text, without the
    /// backslash, and append the next line to it.
    Continue(String),
}

pub enum SpecLineStep {
    Empty,
    Run,
    Continue(Seq<char>),
}

impl View for LineStep {
    type V = SpecLineStep;

    open spec fn view(&self) -> SpecLineStep {
        match self {
            LineStep::Empty => SpecLineStep::Empty,
            LineStep::Run => SpecLineStep::Run,
            LineStep::Continue(s) => SpecLineStep::Continue(s@),
        }
    }
}

/// The step for input `s` whose white-space characters `white` marks: the
/// trimmed text decides; a trailing backslash asks for another line unless a
/// second backslash stands before it.
pub open spec fn spec_line_step(s: Seq<char>, white: Seq<bool>) -> SpecLineStep {
    let t = trimmed(s, white);
    if t.len() == 0 {
        SpecLineStep::Empty
    } else if t.last() == '\\' {
        if t.len() >= 2 && t[t.len() - 2] == '\\' {
            SpecLineStep::Run
        } else {
            SpecLineStep::Continue(t.drop_last())
        }
    } else {
        SpecLineStep::Run
    }
}

proof fn lemma_first_kept(white: Seq<bool>, i: int)
    requires
        0 <= i <= white.len(),
    ensures
        i <= first_kept(white, i) <= white.len(),
        forall|k: int| i <= k < first_kept(white, i) ==> white[k],
        first_kept(white, i) < white.len() ==> !white[first_kept(white, i)],
    decreases white.len() - i,
{
    if i < white.len() && white[i] {
        lemma_first_kept(white, i + 1);
    }
}

proof fn lemma_last_kept_end(white: Seq<bool>, lo: int, j: int)
    requires
        0 <= lo <= j <= white.len(),
    ensures
        lo <= last_kept_end(white, lo, j) <= j,
    decreases j - lo,
{
    if lo < j && white[j - 1] {
        lemma_last_kept_end(white, lo, j - 1);
    }
}

/// The bounds of the text that trimming the marked positions leaves.
fn trim_bounds(white: &Vec<bool>) -> (r: (usize, usize))
    ensures
        r.0 == first_kept(white@, 0),
        r.1 == last_kept_end(white@, r.0 as int, white@.len() as int),
        r.0 <= r.1 <= white@.len(),
{
    proof {
        lemma_first_kept(white@, 0);
    }
    let n = white.len();
    let mut lo: usize = 0;
    while lo < n && white[lo]
        invariant
            n == white@.len(),
            lo <= n,
            first_kept(white@, lo as int) == first_kept(white@, 0),
        decreases n - lo,
    {
        lo = lo + 1;
    }
    proof {
        lemma_last_kept_end(white@, lo as int, n as int);
    }
    let mut hi: usize = n;
    while hi > lo && white[hi - 1]
        invariant
            n == white@.len(),
            lo <= hi <= n,
            last_kept_end(white@, lo as int, hi as int) == last_kept_end(white@, lo as int, n as int),
        decreases hi - lo,
    {
        hi = hi - 1;
    }
    (lo, hi)
}

/// The step for `input`, given for each of its characters whether it is white
/// space.
pub fn line_step_classified(input: &str, white: &Vec<bool>) -> (r: LineStep)
    requires
        white@.len() == input@.len(),
    ensures
        r@ == spec_line_step(input@, white@),
{
    let s = chars_of(input);
    let n = s.len();
    let (lo, hi) = trim_bounds(&white);
    let ghost t = trimmed(input@, white@);
    if hi == lo {
        return LineStep::Empty;
    }
    let last = s[hi - 1];
    if last == '\\' {
        if hi - lo >= 2 && s[hi - 2] == '\\' {
            LineStep::Run
        } else {
            let mut kept: Vec<char> = Vec::new();
            let mut k: usize = lo;
            while k < hi - 1
                invariant
                    n == s@.len(),
                    lo <= k <= hi - 1,
                    hi <= n,
                    kept@ == s@.subrange(lo as int, k as int),
                decreases hi - 1 - k,
            {
                kept.push(s[k]);
                k = k + 1;
                assert(kept@ =~= s@.subrange(lo as int, k as int));
            }
            assert(kept@ =~= t.drop_last());
            LineStep::Continue(string_from_chars(&kept))
        }
    } else {
        LineStep::Run
    }
}

/// The step for the input read so far.
pub fn line_step(input: &str) -> (r: LineStep)
    ensures
        r@ == spec_line_step(input@, white_flags(input@)),
{
    let s = chars_of(input);
    let mut white: Vec<bool> = Vec::new();
    let mut i: usize = 0;
    while i < s.len()
        invariant
            s@ == input@,
            i <= s.len(),
            white.len() == i,
            forall|j: int| 0 <= j < i ==> white@[j] == unicode_white_space(s@[j]),
        decreases s.len() - i,
    {
        let f = is_whitespace(s[i]);
        white.push(f);
        i = i + 1;
    }
    assert(white@ =~= white_flags(input@));
    line_step_classified(input, &white)
}

} // verus!
