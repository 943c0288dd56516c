use vstd::prelude::*;

verus! {

/// Appends one character to a `String` (std `String::push`: "Appends the given
/// char to the end of this String").
#[verifier::external_body]
pub(crate) fn push_char(s: &mut String, c: char)
    ensures
        final(s)@ == old(s)@.push(c),
{
    s.push(c);
}

/// Removes the last character of a `String`, if any (std `String::pop`:
/// "Removes the last character from the string buffer and returns it. Returns
/// None if this String is empty").
#[verifier::external_body]
pub(crate) fn pop_char(s: &mut String)
    ensures
        final(s)@ == if old(s)@.len() > 0 {
            old(s)@.drop_last()
        } else {
            old(s)@
        },
{
    s.pop();
}

/// A fresh string holding exactly `c`.
pub fn char_to_string(c: char) -> (s: String)
    ensures
        s@ == seq![c],
{
    let mut s = String::new();
    push_char(&mut s, c);
    s
}

/// A fresh string with the characters of `v`.
pub fn string_from_chars(v: &Vec<char>) -> (s: String)
    ensures
        s@ == v@,
{
    let mut s = String::new();
    let mut i: usize = 0;
    while i < v.len()
        invariant
            i <= v.len(),
            s@ == v@.take(i as int),
        decreases v.len() - i,
    {
        push_char(&mut s, v[i]);
        i = i + 1;
        assert(s@ == v@.take(i as int));
    }
    assert(v@.take(v.len() as int) == v@);
    s
}

/// The characters of `s`, in order.
pub fn chars_of(s: &str) -> (v: Vec<char>)
    ensures
        v@ == s@,
{
    let mut v: Vec<char> = Vec::new();
    for c in it: s.chars()
        invariant
            v@ == it.seq().take(it.index() as int),
            it.seq() == s@,
    {
        v.push(c);
    }
    v
}

/// Whether two strings hold the same characters.
pub fn str_equal(a: &str, b: &str) -> (r: bool)
    ensures
        r == (a@ == b@),
{
    let va = chars_of(a);
    let vb = chars_of(b);
    if va.len() != vb.len() {
        return false;
    }
    let mut i: usize = 0;
    while i < va.len()
        invariant
            va@ == a@,
            vb@ == b@,
            va.len() == vb.len(),
            i <= va.len(),
            forall|j: int| 0 <= j < i ==> va@[j] == vb@[j],
        decreases va.len() - i,
    {
        if va[i] != vb[i] {
            return false;
        }
        i = i + 1;
    }
    assert(va@ =~= vb@);
    true
}

/// Appends the UTF-8 encoding of `s` to `out`.
pub fn write_str(out: &mut Vec<u8>, s: &str)
    ensures
        final(out)@ == old(out)@ + vstd::utf8::encode_utf8(s@),
{
    out.extend_from_slice(s.as_bytes());
    assert(final(out)@ =~= old(out)@ + vstd::utf8::encode_utf8(s@));
}


/// Whether `pat` occurs in `s` at position `i`.
pub open spec fn occurs_at(s: Seq<char>, pat: Seq<char>, i: int) -> bool {
    0 <= i && i + pat.len() <= s.len() && s.subrange(i, i + pat.len()) == pat
}

/// `s` with every occurrence of `pat` replaced by `rep`, the occurrences taken
/// from left to right without overlap.  An empty `pat` replaces nothing.
pub open spec fn spec_replace(s: Seq<char>, pat: Seq<char>, rep: Seq<char>) -> Seq<char>
    decreases s.len(),
{
    if s.len() == 0 {
        s
    } else if pat.len() > 0 && occurs_at(s, pat, 0) {
        rep + spec_replace(s.skip(pat.len() as int), pat, rep)
    } else {
        seq![s[0]] + spec_replace(s.drop_first(), pat, rep)
    }
}

/// `s` with each run of adjacent copies of `unit` written as one copy;
/// `after` tells whether a copy of `unit` has just been written.
pub open spec fn collapse_from(s: Seq<char>, unit: Seq<char>, after: bool) -> Seq<char>
    decreases s.len(),
{
    if s.len() == 0 {
        s
    } else if unit.len() > 0 && occurs_at(s, unit, 0) {
        (if after {
            Seq::<char>::empty()
        } else {
            unit
        }) + collapse_from(s.skip(unit.len() as int), unit, true)
    } else {
        seq![s[0]] + collapse_from(s.drop_first(), unit, false)
    }
}

/// `s` with each run of adjacent copies of `unit` written as one copy.
pub open spec fn collapse_runs(s: Seq<char>, unit: Seq<char>) -> Seq<char> {
    collapse_from(s, unit, false)
}

/// What `string_replace_all(input, pattern, replacement)` returns for a string
/// pattern whose replacement holds no `$`: the input itself when the pattern is empty or equals the
/// replacement; otherwise every occurrence replaced and, for a non-empty
/// replacement, each run of adjacent copies of it merged into one.
pub open spec fn spec_string_replace_all(
    input: Seq<char>,
    pattern: Seq<char>,
    replacement: Seq<char>,
) -> Seq<char> {
    if pattern == replacement || pattern.len() == 0 {
        input
    } else if replacement.len() == 0 {
        spec_replace(input, pattern, replacement)
    } else {
        collapse_runs(spec_replace(input, pattern, replacement), replacement)
    }
}

/// What `string_replace_all::string_replace_all(input, pattern, replacement)`
/// returns for a string pattern.
pub uninterp spec fn string_replace_all_result(
    input: Seq<char>,
    pattern: Seq<char>,
    replacement: Seq<char>,
) -> Seq<char>;

/// `string_replace_all::string_replace_all` with a string pattern.  Its source
/// returns the input unchanged when the pattern is empty or equals the
/// replacement; otherwise it applies `str::replace` and then, for a non-empty
/// replacement, rewrites every match of the regex `(?:replacement)+` (the
/// replacement escaped) with the replacement.  That last rewrite hands the
/// replacement to the regex crate as a template, which expands `$` references
/// (`$$`, `$name`, `${name}`); so the result is stated only for a replacement
/// without `$`, and is otherwise named, not stated.  The regex is compiled with
/// `unwrap`; a replacement of at most 16384 characters (at most 64 KiB of
/// UTF-8) compiles to a literal automaton far below the regex crate's default
/// size limit of 10 MiB.
#[verifier::external_body]
pub(crate) fn string_replace_all_str(input: &str, pattern: &str, replacement: &str) -> (r: String)
    requires
        replacement@.len() <= 16384,
    ensures
        r@ == string_replace_all_result(input@, pattern@, replacement@),
        !replacement@.contains('$') ==> r@ == spec_string_replace_all(
            input@,
            pattern@,
            replacement@,
        ),
{
    string_replace_all::string_replace_all(input, pattern, replacement)
}

} // verus!
