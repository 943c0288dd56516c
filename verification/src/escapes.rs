use unicode_segmentation::UnicodeSegmentation;
use vstd::prelude::*;

use crate::parser::strings_view;
use crate::text::{char_to_string, chars_of, write_str};

verus! {

/// The byte that the escape `\c` stands for, for the one-letter escapes of
/// `echo -e`: `\\` backslash, `\a` alert, `\b` backspace, `\e` escape, `\f`
/// form feed, `\n` new line, `\r` carriage return, `\t` tab, `\v` vertical tab.
pub open spec fn simple_escape_byte(c: char) -> Option<u8> {
    if c == '\\' {
        Some(0x5Cu8)
    } else if c == 'a' {
        Some(0x07u8)
    } else if c == 'b' {
        Some(0x08u8)
    } else if c == 'e' {
        Some(0x1Bu8)
    } else if c == 'f' {
        Some(0x0Cu8)
    } else if c == 'n' {
        Some(0x0Au8)
    } else if c == 'r' {
        Some(0x0Du8)
    } else if c == 't' {
        Some(0x09u8)
    } else if c == 'v' {
        Some(0x0Bu8)
    } else {
        None
    }
}

/// The value of `c` as a digit of base `radix` (8 or 16; hexadecimal digits
/// in either case).
pub open spec fn digit_value(c: char, radix: nat) -> Option<nat> {
    let v = c as u32;
    if 0x30 <= v && v < 0x38 {
        Some((v - 0x30) as nat)
    } else if radix == 16 && 0x38 <= v && v <= 0x39 {
        Some((v - 0x30) as nat)
    } else if radix == 16 && 0x61 <= v && v <= 0x66 {
        Some((v - 0x61 + 10) as nat)
    } else if radix == 16 && 0x41 <= v && v <= 0x46 {
        Some((v - 0x41 + 10) as nat)
    } else {
        None
    }
}

/// The number of characters (at most `max`) from position `i` of `s` that
/// are digits of base `radix`.
pub open spec fn digit_run(s: Seq<char>, i: int, radix: nat, max: nat) -> nat
    decreases max,
{
    if max == 0 || i < 0 || i >= s.len() || digit_value(s[i], radix) is None {
        0
    } else {
        1 + digit_run(s, i + 1, radix, (max - 1) as nat)
    }
}

/// The number written in base `radix` by the `n` characters of `s` from `i`.
pub open spec fn run_value(s: Seq<char>, i: int, n: nat, radix: nat) -> nat
    decreases n,
{
    if n == 0 {
        0
    } else {
        run_value(s, i, (n - 1) as nat, radix) * radix + digit_value(s[i + n - 1], radix)->Some_0
    }
}

/// The cluster boundaries of the text that the clusters `g` spell: entry `k`
/// tells whether a cluster starts at character `k` (the last entry, for the end
/// of the text, is `true`).
pub open spec fn cluster_bounds(g: Seq<Seq<char>>) -> Seq<bool>
    decreases g.len(),
{
    if g.len() == 0 {
        seq![true]
    } else {
        Seq::new(g[0].len(), |k: int| k == 0) + cluster_bounds(g.drop_first())
    }
}

/// The output of `echo -e` for the text `s` from position `i`, `b` marking its
/// grapheme cluster boundaries.  The text is read from left to right in one
/// pass, so what an escape produced is not read again.  `\c` ends the output
/// where the backslash and the `c` are clusters of their own; the one-letter
/// escapes give their byte; `\0` followed by one to three octal digits and
/// `\x` followed by one or two hexadecimal digits give the byte with that value
/// (octal values taken modulo 256).  Every other character is written as its
/// UTF-8 encoding.
pub open spec fn echo_bytes(s: Seq<char>, b: Seq<bool>, i: int) -> Seq<u8>
    decreases s.len() - i,
{
    if i < 0 || i >= s.len() {
        Seq::empty()
    } else if s[i] == '\\' && i + 1 < s.len() {
        let c = s[i + 1];
        if c == 'c' && b[i] && b[i + 1] && b[i + 2] {
            Seq::empty()
        } else if simple_escape_byte(c) is Some {
            seq![simple_escape_byte(c)->Some_0] + echo_bytes(s, b, i + 2)
        } else if c == '0' && digit_run(s, i + 2, 8, 3) > 0 {
            let n = digit_run(s, i + 2, 8, 3);
            proof {
                lemma_digit_run_bound(s, i + 2, 8, 3);
            }
            seq![(run_value(s, i + 2, n, 8) % 256) as u8] + echo_bytes(s, b, i + 2 + n)
        } else if c == 'x' && digit_run(s, i + 2, 16, 2) > 0 {
            let n = digit_run(s, i + 2, 16, 2);
            proof {
                lemma_digit_run_bound(s, i + 2, 16, 2);
            }
            seq![(run_value(s, i + 2, n, 16) % 256) as u8] + echo_bytes(s, b, i + 2 + n)
        } else {
            vstd::utf8::encode_scalar(s[i] as u32) + echo_bytes(s, b, i + 1)
        }
    } else {
        vstd::utf8::encode_scalar(s[i] as u32) + echo_bytes(s, b, i + 1)
    }
}

pub proof fn lemma_digit_run_bound(s: Seq<char>, i: int, radix: nat, max: nat)
    requires
        0 <= i,
    ensures
        i + digit_run(s, i, radix, max) <= s.len() || digit_run(s, i, radix, max) == 0,
    decreases max,
{
    if max > 0 && i < s.len() && digit_value(s[i], radix) is Some {
        lemma_digit_run_bound(s, i + 1, radix, (max - 1) as nat);
    }
}

proof fn lemma_digit_run_exact(s: Seq<char>, i: int, radix: nat, max: nat, k: nat)
    requires
        0 <= i,
        k <= max,
        i + k <= s.len(),
        forall|m: int| i <= m < i + k ==> digit_value(#[trigger] s[m], radix) is Some,
        k == max || i + k == s.len() || digit_value(s[i + k], radix) is None,
    ensures
        digit_run(s, i, radix, max) == k,
    decreases k,
{
    if k > 0 {
        assert(digit_value(s[i], radix) is Some);
        lemma_digit_run_exact(s, i + 1, radix, (max - 1) as nat, (k - 1) as nat);
    }
}

/// The value of the digit `c` of base `radix` (see [`digit_value`]).
fn digit_value_of(c: char, radix: u32) -> (r: Option<u32>)
    requires
        radix == 8 || radix == 16,
    ensures
        match digit_value(c, radix as nat) {
            Some(v) => r == Some(v as u32),
            None => r is None,
        },
        r matches Some(v) ==> v < radix,
{
    let v = c as u32;
    if 0x30 <= v && v < 0x38 {
        Some(v - 0x30)
    } else if radix == 16 && 0x38 <= v && v <= 0x39 {
        Some(v - 0x30)
    } else if radix == 16 && 0x61 <= v && v <= 0x66 {
        Some(v - 0x61 + 10)
    } else if radix == 16 && 0x41 <= v && v <= 0x46 {
        Some(v - 0x41 + 10)
    } else {
        None
    }
}

/// The number of digit characters of base `radix` (at most `max`) from
/// position `start` of `s`, and the number they write.
fn read_digits(s: &Vec<char>, start: usize, radix: u32, max: usize) -> (r: (usize, u32))
    requires
        radix == 8 || radix == 16,
        max <= 3,
        start <= s.len(),
    ensures
        r.0 == digit_run(s@, start as int, radix as nat, max as nat),
        r.1 == run_value(s@, start as int, r.0 as nat, radix as nat),
        start + r.0 <= s.len(),
{
    let mut k: usize = 0;
    let mut value: u32 = 0;
    let mut stopped = false;
    while k < max && start + k < s.len() && !stopped
        invariant
            radix == 8 || radix == 16,
            max <= 3,
            start <= s.len(),
            k <= max,
            start + k <= s.len(),
            forall|m: int| start <= m < start + k ==> digit_value(#[trigger] s@[m], radix as nat) is Some,
            value == run_value(s@, start as int, k as nat, radix as nat),
            value < (if k == 0 { 1int } else if k == 1 { 16int } else if k == 2 { 256int } else { 4096int }),
            stopped ==> start + k < s.len() && digit_value(s@[start + k], radix as nat) is None,
        decreases max - k, (if stopped { 0int } else { 1int }),
    {
        match digit_value_of(s[start + k], radix) {
            None => {
                stopped = true;
            },
            Some(d) => {
                proof {
                    let bk: int = if k == 0 { 1int } else if k == 1 { 16int } else { 256int };
                    let bn: int = if k == 0 { 16int } else if k == 1 { 256int } else { 4096int };
                    assert(value * radix + d < bn) by (nonlinear_arith)
                        requires
                            value < bk,
                            radix <= 16,
                            d < radix,
                            bn == 16 * bk,
                    ;
                }
                value = value * radix + d;
                k = k + 1;
            },
        }
    }
    proof {
        lemma_digit_run_exact(s@, start as int, radix as nat, max as nat, k as nat);
    }
    (k, value)
}

/// The characters that the clusters `graphemes` spell, and their cluster
/// boundaries (see [`cluster_bounds`]).
fn cluster_chars(graphemes: &Vec<String>) -> (r: (Vec<char>, Vec<bool>))
    ensures
        r.0@ == strings_view(graphemes@).flatten(),
        r.1@ == cluster_bounds(strings_view(graphemes@)),
{
    let ghost g = strings_view(graphemes@);
    let mut chars: Vec<char> = Vec::new();
    let mut bounds: Vec<bool> = Vec::new();
    let mut i: usize = 0;
    assert(g.take(0) =~= Seq::<Seq<char>>::empty());
    assert(g.skip(0) =~= g);
    assert(Seq::<bool>::empty() + cluster_bounds(g) =~= cluster_bounds(g));
    while i < graphemes.len()
        invariant
            g == strings_view(graphemes@),
            g.len() == graphemes.len(),
            i <= graphemes.len(),
            chars@ == g.take(i as int).flatten(),
            bounds@ + cluster_bounds(g.skip(i as int)) == cluster_bounds(g),
        decreases graphemes.len() - i,
    {
        assert(g[i as int] == graphemes@[i as int]@);
        let v = chars_of(graphemes[i].as_str());
        let ghost part = Seq::new(g[i as int].len(), |k: int| k == 0);
        let ghost bounds0 = bounds@;
        let ghost chars0 = chars@;
        let mut k: usize = 0;
        while k < v.len()
            invariant
                v@ == g[i as int],
                k <= v.len(),
                part == Seq::new(g[i as int].len(), |k: int| k == 0),
                bounds@ == bounds0 + part.take(k as int),
                chars@ == chars0 + v@.take(k as int),
            decreases v.len() - k,
        {
            bounds.push(k == 0);
            chars.push(v[k]);
            k = k + 1;
            assert(bounds@ =~= bounds0 + part.take(k as int));
            assert(chars@ =~= chars0 + v@.take(k as int));
        }
        proof {
            assert(part.take(k as int) =~= part);
            assert(v@.take(k as int) =~= v@);
            assert(g.skip(i as int).drop_first() =~= g.skip(i + 1));
            assert(g.skip(i as int)[0] == g[i as int]);
            assert(cluster_bounds(g.skip(i as int)) == part + cluster_bounds(g.skip(i + 1)));
            assert(bounds0 + part + cluster_bounds(g.skip(i + 1)) =~= bounds0 + (part + cluster_bounds(g.skip(i + 1))));
            assert(g.take(i + 1) =~= g.take(i as int).push(g[i as int]));
            g.take(i as int).lemma_flatten_push(g[i as int]);
        }
        i = i + 1;
    }
    assert(g.skip(i as int) =~= Seq::<Seq<char>>::empty());
    assert(g.take(i as int) =~= g);
    bounds.push(true);
    assert(bounds@ =~= cluster_bounds(g));
    (chars, bounds)
}

/// The bytes of `echo -e` for the text `s` with cluster boundaries `b` (see
/// [`echo_bytes`]).
fn echo_pass(s: &Vec<char>, b: &Vec<bool>) -> (r: Vec<u8>)
    requires
        b@.len() == s@.len() + 1,
    ensures
        r@ == echo_bytes(s@, b@, 0),
{
    let n = s.len();
    let mut out: Vec<u8> = Vec::new();
    let mut i: usize = 0;
    assert(out@ + echo_bytes(s@, b@, 0) =~= echo_bytes(s@, b@, 0));
    while i < n
        invariant
            n == s@.len(),
            b@.len() == n + 1,
            i <= n,
            out@ + echo_bytes(s@, b@, i as int) == echo_bytes(s@, b@, 0),
        decreases n - i,
    {
        let ghost before = out@;
        let mut escaped = false;
        if s[i] == '\\' && i + 1 < n {
            let c = s[i + 1];
            if c == 'c' && b[i] && b[i + 1] && b[i + 2] {
                assert(out@ + Seq::<u8>::empty() =~= out@);
                return out;
            }
            let byte = if c == '\\' {
                Some(0x5Cu8)
            } else if c == 'a' {
                Some(0x07u8)
            } else if c == 'b' {
                Some(0x08u8)
            } else if c == 'e' {
                Some(0x1Bu8)
            } else if c == 'f' {
                Some(0x0Cu8)
            } else if c == 'n' {
                Some(0x0Au8)
            } else if c == 'r' {
                Some(0x0Du8)
            } else if c == 't' {
                Some(0x09u8)
            } else if c == 'v' {
                Some(0x0Bu8)
            } else {
                None
            };
            assert(byte == simple_escape_byte(c));
            match byte {
                Some(x) => {
                    out.push(x);
                    assert(out@ + echo_bytes(s@, b@, i + 2) =~= before + (seq![x] + echo_bytes(
                        s@,
                        b@,
                        i + 2,
                    )));
                    i = i + 2;
                    escaped = true;
                },
                None => {
                    if c == '0' || c == 'x' {
                        let (radix, max) = if c == '0' {
                            (8u32, 3usize)
                        } else {
                            (16u32, 2usize)
                        };
                        let (count, value) = read_digits(s, i + 2, radix, max);
                        if count > 0 {
                            let x = (value % 256) as u8;
                            out.push(x);
                            assert(out@ + echo_bytes(s@, b@, i + 2 + count) =~= before + (seq![x]
                                + echo_bytes(s@, b@, i + 2 + count)));
                            i = i + 2 + count;
                            escaped = true;
                        }
                    }
                },
            }
        }
        if !escaped {
            let c = s[i];
            let text = char_to_string(c);
            proof {
                assert(seq![c].drop_first() =~= Seq::<char>::empty());
                assert(seq![c][0] == c);
                assert(vstd::utf8::encode_utf8(Seq::<char>::empty()) == Seq::<u8>::empty());
                assert(vstd::utf8::encode_utf8(seq![c]) == vstd::utf8::encode_scalar(seq![c][0] as u32)
                    + vstd::utf8::encode_utf8(seq![c].drop_first()));
                assert(vstd::utf8::encode_utf8(seq![c]) =~= vstd::utf8::encode_scalar(c as u32));
            }
            write_str(&mut out, text.as_str());
            assert(out@ + echo_bytes(s@, b@, i + 1) =~= before + (vstd::utf8::encode_scalar(c as u32)
                + echo_bytes(s@, b@, i + 1)));
            i = i + 1;
        }
    }
    assert(out@ + Seq::<u8>::empty() =~= out@);
    out
}

/// The bytes that `echo -e` writes for a text given as its grapheme clusters
/// `graphemes` (see [`echo_bytes`]).
pub fn expand_echo_escapes(graphemes: &Vec<String>) -> (r: Vec<u8>)
    ensures
        r@ == echo_bytes(
            strings_view(graphemes@).flatten(),
            cluster_bounds(strings_view(graphemes@)),
            0,
        ),
{
    let (chars, bounds) = cluster_chars(graphemes);
    proof {
        lemma_cluster_bounds_len(strings_view(graphemes@));
    }
    echo_pass(&chars, &bounds)
}

proof fn lemma_cluster_bounds_len(g: Seq<Seq<char>>)
    ensures
        cluster_bounds(g).len() == g.flatten().len() + 1,
    decreases g.len(),
{
    if g.len() > 0 {
        lemma_cluster_bounds_len(g.drop_first());
        assert(g.flatten() == g[0] + g.drop_first().flatten());
    }
}

/// What `UnicodeSegmentation::graphemes(s, true)` of unicode-segmentation
/// yields for `s`: its extended grapheme clusters, in order.
pub uninterp spec fn grapheme_clusters(s: Seq<char>) -> Seq<Seq<char>>;

/// `UnicodeSegmentation::graphemes(s, true)` of unicode-segmentation, each
/// cluster as a `String`.  The clusters are named, not stated (they follow the
/// Unicode segmentation rules).  Its source cuts `s` at an increasing sequence
/// of boundaries from the start to the end of the string, so the clusters are
/// non-empty and together spell `s`.
#[verifier::external_body]
fn graphemes(s: &str) -> (r: Vec<String>)
    ensures
        strings_view(r@) == grapheme_clusters(s@),
        strings_view(r@).flatten() == s@,
        forall|i: int| 0 <= i < r@.len() ==> (#[trigger] r@[i])@.len() > 0,
{
    s.graphemes(true).map(|g| g.to_string()).collect()
}

/// The bytes that `echo -e` writes for `text`: its escapes interpreted, the
/// grapheme clusters of the text deciding only where `\c` stands on its own
/// (see [`echo_bytes`]).  The clusters are non-empty and spell the text.
pub fn interpret_echo_text(text: &str) -> (r: Vec<u8>)
    ensures
        r@ == echo_bytes(text@, cluster_bounds(grapheme_clusters(text@)), 0),
        grapheme_clusters(text@).flatten() == text@,
        forall|i: int|
            0 <= i < grapheme_clusters(text@).len() ==> (#[trigger] grapheme_clusters(text@)[i]).len()
                > 0,
{
    let clusters = graphemes(text);
    proof {
        assert forall|i: int| 0 <= i < grapheme_clusters(text@).len() implies (
        #[trigger] grapheme_clusters(text@)[i]).len() > 0 by {
            assert(grapheme_clusters(text@)[i] == clusters@[i]@);
        }
    }
    expand_echo_escapes(&clusters)
}

/// Text without a backslash comes out of `echo -e` as it is: its UTF-8
/// encoding, whatever its clusters.
pub proof fn law_text_without_backslash_is_written_as_is(s: Seq<char>, b: Seq<bool>, i: int)
    requires
        0 <= i <= s.len(),
        forall|k: int| 0 <= k < s.len() ==> s[k] != '\\',
    ensures
        echo_bytes(s, b, i) == vstd::utf8::encode_utf8(s.skip(i)),
    decreases s.len() - i,
{
    if i < s.len() {
        law_text_without_backslash_is_written_as_is(s, b, i + 1);
        assert(s.skip(i).drop_first() =~= s.skip(i + 1));
        assert(s.skip(i)[0] == s[i]);
    } else {
        assert(s.skip(i) =~= Seq::<char>::empty());
    }
}

} // verus!
