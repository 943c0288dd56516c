use vstd::prelude::*;

use crate::text::{char_to_string, chars_of, string_from_chars};

verus! {

/// A lexical unit of a command line.
#[derive(Debug, Clone)]
pub enum Token {
    Id(String),
    Semicolon,
    Dollar,
    LeftParen,
    RightParen,
    LeftCurlyBracket,
    RightCurlyBracket,
    Pipe,
    RedirectInput,
    RedirectOutput,
    RedirectOutputAppend,
    Background,
    And,
    Or,
}

/// The mathematical value of a [`Token`]: words are character sequences.
pub enum SpecToken {
    Id(Seq<char>),
    Semicolon,
    Dollar,
    LeftParen,
    RightParen,
    LeftCurlyBracket,
    RightCurlyBracket,
    Pipe,
    RedirectInput,
    RedirectOutput,
    RedirectOutputAppend,
    Background,
    And,
    Or,
}

impl View for Token {
    type V = SpecToken;

    open spec fn view(&self) -> SpecToken {
        match self {
            Token::Id(s) => SpecToken::Id(s@),
            Token::Semicolon => SpecToken::Semicolon,
            Token::Dollar => SpecToken::Dollar,
            Token::LeftParen => SpecToken::LeftParen,
            Token::RightParen => SpecToken::RightParen,
            Token::LeftCurlyBracket => SpecToken::LeftCurlyBracket,
            Token::RightCurlyBracket => SpecToken::RightCurlyBracket,
            Token::Pipe => SpecToken::Pipe,
            Token::RedirectInput => SpecToken::RedirectInput,
            Token::RedirectOutput => SpecToken::RedirectOutput,
            Token::RedirectOutputAppend => SpecToken::RedirectOutputAppend,
            Token::Background => SpecToken::Background,
            Token::And => SpecToken::And,
            Token::Or => SpecToken::Or,
        }
    }
}

/// The values of a sequence of tokens.
pub open spec fn tokens_view(ts: Seq<Token>) -> Seq<SpecToken> {
    ts.map_values(|t: Token| t@)
}

/// What `char::is_alphabetic` of std returns: whether `c` has the Unicode
/// `Alphabetic` property.
pub uninterp spec fn unicode_alphabetic(c: char) -> bool;

/// std `char::is_alphabetic`.  Its result is named, not stated: it is given by
/// the Unicode character database.
#[verifier::external_body]
fn is_alphabetic(c: char) -> (r: bool)
    ensures
        r == unicode_alphabetic(c),
{
    c.is_alphabetic()
}

pub open spec fn is_ascii_letter(c: char) -> bool {
    ('A' <= c && c <= 'Z') || ('a' <= c && c <= 'z')
}

pub open spec fn is_ascii_digit(c: char) -> bool {
    '0' <= c && c <= '9'
}

/// Whether a character is alphabetic, given the Unicode answer `flag` for it.
/// Among ASCII characters exactly the letters are alphabetic; `flag` is only
/// consulted for the others.
pub open spec fn alphabetic_with(c: char, flag: bool) -> bool {
    if c <= '\x7f' {
        is_ascii_letter(c)
    } else {
        flag
    }
}

/// Characters that begin a word (digits among them, so that `10` is one word).
pub open spec fn starts_word(c: char) -> bool {
    is_ascii_letter(c) || is_ascii_digit(c) || c == '-' || c == '.' || c == '\\' || c == '/'
}

/// Characters that continue a word (`flag`: the Unicode alphabetic answer for
/// `c`); `_` among them, so that `$NAME_WITH_UNDERSCORES` names one variable,
/// and `,`, so that `Hello,` is one word.
pub open spec fn continues_word(c: char, flag: bool) -> bool {
    is_ascii_digit(c) || alphabetic_with(c, flag) || c == '-' || c == '.' || c == '\\' || c
        == '/' || c == '_' || c == ','
}

/// Characters that a backslash inside a word takes literally (a space among
/// them, so that `my\ dir` is one word).
pub open spec fn spec_is_special(c: char) -> bool {
    c == '"' || c == '\'' || c == '\\' || c == '#' || c == '=' || c == '&' || c == '|' || c
        == '>' || c == '<' || c == ';' || c == '{' || c == '}' || c == '(' || c == ')' || c
        == '!' || c == '$' || c == ' '
}

/// The word that starts at `i` of `s`, and the position after it.
pub open spec fn scan_word(s: Seq<char>, alpha: Seq<bool>, i: int) -> (Seq<char>, int)
    decreases s.len() - i,
{
    if i < 0 || i >= s.len() || !continues_word(s[i], alpha[i]) {
        (seq![], i)
    } else if s[i] == '\\' {
        if i + 1 >= s.len() {
            (seq![], i + 1)
        } else if spec_is_special(s[i + 1]) {
            let (w, j) = scan_word(s, alpha, i + 2);
            (seq![s[i + 1]] + w, j)
        } else {
            scan_word(s, alpha, i + 1)
        }
    } else {
        let (w, j) = scan_word(s, alpha, i + 1);
        (seq![s[i]] + w, j)
    }
}

/// The text of a quotation closed by `q` whose body starts at `i`, and the
/// position after the closing quote; `None` when a newline comes first.  At the
/// end of the input the quotation ends without error.
pub open spec fn scan_quoted(s: Seq<char>, q: char, i: int) -> Option<(Seq<char>, int)>
    decreases s.len() - i,
{
    if i < 0 || i >= s.len() {
        Some((seq![], i))
    } else if s[i] == q {
        Some((seq![], i + 1))
    } else if s[i] == '\n' {
        None
    } else {
        match scan_quoted(s, q, i + 1) {
            Some((w, j)) => Some((seq![s[i]] + w, j)),
            None => None,
        }
    }
}

pub open spec fn prepend_token(t: SpecToken, r: Result<Seq<SpecToken>, Seq<char>>) -> Result<
    Seq<SpecToken>,
    Seq<char>,
> {
    match r {
        Ok(ts) => Ok(seq![t] + ts),
        Err(e) => Err(e),
    }
}

/// The token of a one- or two-character operator at `i`: `c` alone, or `c`
/// twice.
pub open spec fn operator_at(s: Seq<char>, i: int, single: SpecToken, double: SpecToken) -> (
    SpecToken,
    int,
) {
    if i + 1 < s.len() && s[i + 1] == s[i] {
        (double, i + 2)
    } else {
        (single, i + 1)
    }
}

/// The tokens of `s` from position `i` on.
pub open spec fn lex_from(s: Seq<char>, alpha: Seq<bool>, i: int) -> Result<
    Seq<SpecToken>,
    Seq<char>,
>
    decreases s.len() - i,
{
    if i < 0 || i >= s.len() {
        Ok(seq![])
    } else {
        let c = s[i];
        if c == ' ' || c == '\t' || c == '\n' {
            lex_from(s, alpha, i + 1)
        } else if starts_word(c) {
            let (w, j) = scan_word(s, alpha, i);
            if j <= i || j > s.len() {
                Ok(seq![])
            } else {
                prepend_token(SpecToken::Id(w), lex_from(s, alpha, j))
            }
        } else if c == '\'' || c == '"' {
            match scan_quoted(s, c, i + 1) {
                None => Err(
                    if c == '\'' {
                        "unterminated single quote"@
                    } else {
                        "unterminated double quote"@
                    },
                ),
                Some((w, j)) => if j <= i || j > s.len() {
                    Ok(seq![])
                } else {
                    prepend_token(SpecToken::Id(w), lex_from(s, alpha, j))
                },
            }
        } else if c == '|' {
            let (t, j) = operator_at(s, i, SpecToken::Pipe, SpecToken::Or);
            prepend_token(t, lex_from(s, alpha, j))
        } else if c == '>' {
            let (t, j) = operator_at(s, i, SpecToken::RedirectOutput, SpecToken::RedirectOutputAppend);
            prepend_token(t, lex_from(s, alpha, j))
        } else if c == '&' {
            let (t, j) = operator_at(s, i, SpecToken::Background, SpecToken::And);
            prepend_token(t, lex_from(s, alpha, j))
        } else {
            prepend_token(single_char_token(c), lex_from(s, alpha, i + 1))
        }
    }
}

/// The token of a character that stands alone.
pub open spec fn single_char_token(c: char) -> SpecToken {
    if c == ';' {
        SpecToken::Semicolon
    } else if c == '$' {
        SpecToken::Dollar
    } else if c == '(' {
        SpecToken::LeftParen
    } else if c == ')' {
        SpecToken::RightParen
    } else if c == '{' {
        SpecToken::LeftCurlyBracket
    } else if c == '}' {
        SpecToken::RightCurlyBracket
    } else if c == '<' {
        SpecToken::RedirectInput
    } else {
        SpecToken::Id(seq![c])
    }
}

/// The Unicode alphabetic answers for the characters of `s`.
pub open spec fn alphabetic_flags(s: Seq<char>) -> Seq<bool> {
    Seq::new(s.len(), |i: int| unicode_alphabetic(s[i]))
}

/// The tokens of `s`, or the message of the first unterminated quotation.
pub open spec fn spec_lex(s: Seq<char>) -> Result<Seq<SpecToken>, Seq<char>> {
    lex_from(s, alphabetic_flags(s), 0)
}

proof fn lemma_scan_word_progress(s: Seq<char>, alpha: Seq<bool>, i: int)
    requires
        0 <= i < s.len(),
        alpha.len() == s.len(),
        continues_word(s[i], alpha[i]),
    ensures
        scan_word(s, alpha, i).1 > i,
        scan_word(s, alpha, i).1 <= s.len(),
{
    if i + 1 <= s.len() {
        lemma_scan_word_bounds(s, alpha, i + 1);
    }
    if i + 2 <= s.len() {
        lemma_scan_word_bounds(s, alpha, i + 2);
    }
}

proof fn lemma_scan_word_bounds(s: Seq<char>, alpha: Seq<bool>, i: int)
    requires
        0 <= i <= s.len(),
    ensures
        i <= scan_word(s, alpha, i).1 <= s.len(),
    decreases s.len() - i,
{
    if i < s.len() && continues_word(s[i], alpha[i]) {
        if s[i] == '\\' {
            if i + 1 >= s.len() {
            } else if spec_is_special(s[i + 1]) {
                lemma_scan_word_bounds(s, alpha, i + 2);
            } else {
                lemma_scan_word_bounds(s, alpha, i + 1);
            }
        } else {
            lemma_scan_word_bounds(s, alpha, i + 1);
        }
    }
}

proof fn lemma_scan_quoted_bounds(s: Seq<char>, q: char, i: int)
    requires
        0 <= i <= s.len(),
    ensures
        scan_quoted(s, q, i) matches Some((_, j)) ==> i <= j <= s.len(),
    decreases s.len() - i,
{
    if i < s.len() && s[i] != q && s[i] != '\n' {
        lemma_scan_quoted_bounds(s, q, i + 1);
    }
}

/// Whether a backslash inside a word takes `c` literally.
fn is_special(c: char) -> (r: bool)
    ensures
        r == spec_is_special(c),
{
    match c {
        '\"' | '\'' | '\\' | '#' | '=' | '&' | '|' | '>' | '<' | ';' | '{' | '}' | '(' | ')'
        | '!' | '$' | ' ' => true,
        _ => false,
    }
}

/// Scans the word at `start`; returns its text and the position after it.
fn lex_word(s: &Vec<char>, alpha: &Vec<bool>, start: usize) -> (r: (String, usize))
    requires
        s.len() == alpha.len(),
        start <= s.len(),
    ensures
        r.0@ == scan_word(s@, alpha@, start as int).0,
        r.1 == scan_word(s@, alpha@, start as int).1,
{
    let mut word: Vec<char> = Vec::new();
    let mut i = start;
    while i < s.len()
        invariant
            s.len() == alpha.len(),
            start <= i <= s.len(),
            scan_word(s@, alpha@, start as int).0 == word@ + scan_word(s@, alpha@, i as int).0,
            scan_word(s@, alpha@, start as int).1 == scan_word(s@, alpha@, i as int).1,
        ensures
            scan_word(s@, alpha@, i as int).0 == Seq::<char>::empty(),
            scan_word(s@, alpha@, i as int).1 == i,
        decreases s.len() - i,
    {
        let c = s[i];
        let alphabetic = if c <= '\x7f' {
            ('A' <= c && c <= 'Z') || ('a' <= c && c <= 'z')
        } else {
            alpha[i]
        };
        if !('0' <= c && c <= '9') && !alphabetic && c != '-' && c != '.' && c != '\\' && c
            != '/' && c != '_' && c != ',' {
            break ;
        } else if c == '\\' {
            if i + 1 >= s.len() {
                i = i + 1;
                break ;
            }
            let next = s[i + 1];
            if is_special(next) {
                assert(scan_word(s@, alpha@, i as int).0 == seq![next] + scan_word(
                    s@,
                    alpha@,
                    i + 2,
                ).0);
                assert(word@.push(next) + scan_word(s@, alpha@, i + 2).0 == word@ + (seq![next]
                    + scan_word(s@, alpha@, i + 2).0));
                word.push(next);
                i = i + 2;
            } else {
                i = i + 1;
            }
        } else {
            assert(word@.push(c) + scan_word(s@, alpha@, i + 1).0 == word@ + (seq![c]
                + scan_word(s@, alpha@, i + 1).0));
            word.push(c);
            i = i + 1;
        }
    }
    assert(word@ + Seq::<char>::empty() == word@);
    (string_from_chars(&word), i)
}

/// Scans a quotation closed by `q` whose body starts at `start`; `None` when a
/// newline comes before the closing quote.
fn lex_quoted(s: &Vec<char>, q: char, start: usize) -> (r: Option<(String, usize)>)
    requires
        start <= s.len(),
    ensures
        match r {
            None => scan_quoted(s@, q, start as int) is None,
            Some((w, j)) => scan_quoted(s@, q, start as int) == Some((w@, j as int)),
        },
{
    let mut word: Vec<char> = Vec::new();
    let mut i = start;
    while i < s.len()
        invariant
            start <= i <= s.len(),
            match scan_quoted(s@, q, i as int) {
                None => scan_quoted(s@, q, start as int) is None,
                Some((w, j)) => scan_quoted(s@, q, start as int) == Some((word@ + w, j)),
            },
        decreases s.len() - i,
    {
        let c = s[i];
        if c == q {
            assert(word@ + seq![] == word@);
            return Some((string_from_chars(&word), i + 1));
        } else if c == '\n' {
            return None;
        }
        proof {
            match scan_quoted(s@, q, i + 1) {
                Some((w, j)) => {
                    assert(word@.push(c) + w == word@ + (seq![c] + w));
                },
                None => {},
            }
        }
        word.push(c);
        i = i + 1;
    }
    assert(word@ + seq![] == word@);
    Some((string_from_chars(&word), i))
}

/// The token of an operator that may be doubled: `single` for `s[i]` alone,
/// `double` when `s[i + 1]` repeats it.
fn lex_operator(s: &Vec<char>, i: usize, single: Token, double: Token) -> (r: (Token, usize))
    requires
        i < s.len(),
    ensures
        (r.0@, r.1 as int) == operator_at(s@, i as int, single@, double@),
{
    if i + 1 < s.len() && s[i + 1] == s[i] {
        (double, i + 2)
    } else {
        (single, i + 1)
    }
}

/// Splits a command line into tokens, given the Unicode alphabetic answer for
/// each of its characters (`alphabetic[i]` for `input@[i]`; only consulted for
/// characters outside ASCII).
pub fn lex_classified(input: &str, alphabetic: &Vec<bool>) -> (r: Result<Vec<Token>, String>)
    requires
        alphabetic.len() == input@.len(),
    ensures
        match r {
            Ok(ts) => lex_from(input@, alphabetic@, 0) == Ok::<Seq<SpecToken>, Seq<char>>(
                tokens_view(ts@),
            ),
            Err(e) => lex_from(input@, alphabetic@, 0) == Err::<Seq<SpecToken>, Seq<char>>(e@),
        },
{
    let s = chars_of(input);
    let mut result: Vec<Token> = Vec::new();
    let mut i: usize = 0;
    while i < s.len()
        invariant
            s@ == input@,
            alphabetic.len() == s.len(),
            i <= s.len(),
            lexed_so_far(s@, alphabetic@, tokens_view(result@), i as int),
        decreases s.len() - i,
    {
        let c = s[i];
        let ghost before = result@;
        if c == ' ' || c == '\t' || c == '\n' {
            i = i + 1;
        } else if ('A' <= c && c <= 'Z') || ('a' <= c && c <= 'z') || ('0' <= c && c <= '9') || c
            == '-' || c == '.' || c == '\\' || c == '/' {
            proof {
                lemma_scan_word_progress(s@, alphabetic@, i as int);
            }
            let (w, j) = lex_word(&s, alphabetic, i);
            let t = Token::Id(w);
            proof {
                lemma_step(s@, alphabetic@, before, t, i as int, j as int);
            }
            result.push(t);
            i = j;
        } else if c == '\'' || c == '"' {
            proof {
                lemma_scan_quoted_bounds(s@, c, i + 1);
            }
            match lex_quoted(&s, c, i + 1) {
                None => {
                    if c == '\'' {
                        return Err(String::from_str("unterminated single quote"));
                    } else {
                        return Err(String::from_str("unterminated double quote"));
                    }
                },
                Some((w, j)) => {
                    let t = Token::Id(w);
                    proof {
                        lemma_step(s@, alphabetic@, before, t, i as int, j as int);
                    }
                    result.push(t);
                    i = j;
                },
            }
        } else if c == '|' || c == '>' || c == '&' {
            let (t, j) = if c == '|' {
                lex_operator(&s, i, Token::Pipe, Token::Or)
            } else if c == '>' {
                lex_operator(&s, i, Token::RedirectOutput, Token::RedirectOutputAppend)
            } else {
                lex_operator(&s, i, Token::Background, Token::And)
            };
            proof {
                lemma_step(s@, alphabetic@, before, t, i as int, j as int);
            }
            result.push(t);
            i = j;
        } else {
            let t = match c {
                ';' => Token::Semicolon,
                '$' => Token::Dollar,
                '(' => Token::LeftParen,
                ')' => Token::RightParen,
                '{' => Token::LeftCurlyBracket,
                '}' => Token::RightCurlyBracket,
                '<' => Token::RedirectInput,
                _ => Token::Id(char_to_string(c)),
            };
            assert(t@ == single_char_token(c));
            proof {
                lemma_step(s@, alphabetic@, before, t, i as int, i + 1);
            }
            result.push(t);
            i = i + 1;
        }
    }
    Ok(result)
}

/// Invariant of the lexing loop: the tokens found before position `i`, followed
/// by the tokens of the rest, are the tokens of the whole line.
pub open spec fn lexed_so_far(s: Seq<char>, alpha: Seq<bool>, done: Seq<SpecToken>, i: int) -> bool {
    match lex_from(s, alpha, i) {
        Ok(ts) => lex_from(s, alpha, 0) == Ok::<Seq<SpecToken>, Seq<char>>(done + ts),
        Err(e) => lex_from(s, alpha, 0) == Err::<Seq<SpecToken>, Seq<char>>(e),
    }
}

proof fn lemma_step(
    s: Seq<char>,
    alpha: Seq<bool>,
    before: Seq<Token>,
    t: Token,
    i: int,
    j: int,
)
    requires
        lexed_so_far(s, alpha, tokens_view(before), i),
        lex_from(s, alpha, i) == prepend_token(t@, lex_from(s, alpha, j)),
    ensures
        lexed_so_far(s, alpha, tokens_view(before.push(t)), j),
{
    assert(tokens_view(before.push(t)) =~= tokens_view(before).push(t@));
    match lex_from(s, alpha, j) {
        Ok(ts) => {
            assert(tokens_view(before).push(t@) + ts =~= tokens_view(before) + (seq![t@] + ts));
        },
        Err(e) => {},
    }
}

/// Splits a command line into tokens: words (with backslash escapes of special
/// characters), single- and double-quoted strings, and the operators
/// `; $ ( ) { } | || < > >> & &&`.  Fails when a quotation meets a newline
/// before its closing quote.
pub fn lex(input: &str) -> (r: Result<Vec<Token>, String>)
    ensures
        match r {
            Ok(ts) => spec_lex(input@) == Ok::<Seq<SpecToken>, Seq<char>>(tokens_view(ts@)),
            Err(e) => spec_lex(input@) == Err::<Seq<SpecToken>, Seq<char>>(e@),
        },
{
    let s = chars_of(input);
    let mut flags: Vec<bool> = Vec::new();
    let mut i: usize = 0;
    while i < s.len()
        invariant
            s@ == input@,
            i <= s.len(),
            flags.len() == i,
            forall|j: int| 0 <= j < i ==> flags@[j] == unicode_alphabetic(s@[j]),
        decreases s.len() - i,
    {
        let f = is_alphabetic(s[i]);
        flags.push(f);
        i = i + 1;
    }
    assert(flags@ =~= alphabetic_flags(s@));
    lex_classified(input, &flags)
}

/// The tokens of two lexings one after the other, or the first error.
pub open spec fn join_lexed(
    x: Result<Seq<SpecToken>, Seq<char>>,
    y: Result<Seq<SpecToken>, Seq<char>>,
) -> Result<Seq<SpecToken>, Seq<char>> {
    match x {
        Err(e) => Err(e),
        Ok(tx) => match y {
            Err(e) => Err(e),
            Ok(ty) => Ok(tx + ty),
        },
    }
}

proof fn lemma_join_prepend(
    t: SpecToken,
    x: Result<Seq<SpecToken>, Seq<char>>,
    y: Result<Seq<SpecToken>, Seq<char>>,
)
    ensures
        join_lexed(prepend_token(t, x), y) == prepend_token(t, join_lexed(x, y)),
{
    if let Ok(tx) = x {
        if let Ok(ty) = y {
            assert(seq![t] + tx + ty =~= seq![t] + (tx + ty));
        }
    }
}

proof fn lemma_scan_word_skip(s: Seq<char>, alpha: Seq<bool>, d: int, k: int)
    requires
        0 <= d <= s.len(),
        0 <= k,
        alpha.len() == s.len(),
    ensures
        scan_word(s, alpha, d + k).0 == scan_word(s.skip(d), alpha.skip(d), k).0,
        scan_word(s, alpha, d + k).1 == scan_word(s.skip(d), alpha.skip(d), k).1 + d,
    decreases s.len() - (d + k),
{
    if d + k < s.len() {
        assert(s.skip(d)[k] == s[d + k]);
        assert(alpha.skip(d)[k] == alpha[d + k]);
        if d + k + 1 < s.len() {
            assert(s.skip(d)[k + 1] == s[d + k + 1]);
        }
        lemma_scan_word_skip(s, alpha, d, k + 1);
        if d + k + 2 <= s.len() {
            lemma_scan_word_skip(s, alpha, d, k + 2);
        }
    }
}

proof fn lemma_scan_quoted_skip(s: Seq<char>, q: char, d: int, k: int)
    requires
        0 <= d <= s.len(),
        0 <= k,
    ensures
        scan_quoted(s, q, d + k) == match scan_quoted(s.skip(d), q, k) {
            Some((w, j)) => Some((w, j + d)),
            None => None,
        },
    decreases s.len() - (d + k),
{
    if d + k < s.len() {
        assert(s.skip(d)[k] == s[d + k]);
        lemma_scan_quoted_skip(s, q, d, k + 1);
    }
}

/// Lexing from position `d + k` reads only what stands from `d` on.
pub proof fn lemma_lex_skip(s: Seq<char>, alpha: Seq<bool>, d: int, k: int)
    requires
        0 <= d <= s.len(),
        0 <= k,
        alpha.len() == s.len(),
    ensures
        lex_from(s, alpha, d + k) == lex_from(s.skip(d), alpha.skip(d), k),
    decreases s.len() - (d + k),
{
    let s2 = s.skip(d);
    let a2 = alpha.skip(d);
    let i = d + k;
    if i < s.len() {
        let c = s[i];
        assert(s2[k] == c);
        if i + 1 < s.len() {
            assert(s2[k + 1] == s[i + 1]);
        }
        if c == ' ' || c == '\t' || c == '\n' {
            lemma_lex_skip(s, alpha, d, k + 1);
        } else if starts_word(c) {
            lemma_scan_word_skip(s, alpha, d, k);
            lemma_scan_word_bounds(s2, a2, k);
            let j2 = scan_word(s2, a2, k).1;
            if k < j2 <= s2.len() {
                lemma_lex_skip(s, alpha, d, j2);
            }
        } else if c == '\'' || c == '"' {
            lemma_scan_quoted_skip(s, c, d, k + 1);
            lemma_scan_quoted_bounds(s2, c, k + 1);
            if let Some((w, j2)) = scan_quoted(s2, c, k + 1) {
                if k < j2 <= s2.len() {
                    lemma_lex_skip(s, alpha, d, j2);
                }
            }
        } else if c == '|' || c == '>' || c == '&' {
            lemma_lex_skip(s, alpha, d, k + 1);
            if i + 2 <= s.len() {
                lemma_lex_skip(s, alpha, d, k + 2);
            }
        } else {
            lemma_lex_skip(s, alpha, d, k + 1);
        }
    }
}

/// The setting of the split law: `t` is `a`, a space, then more text, and the
/// flags of `t` agree with those of `a` on `a`.
pub open spec fn space_after(a: Seq<char>, alpha_a: Seq<bool>, t: Seq<char>, alpha: Seq<bool>) -> bool {
    &&& alpha_a.len() == a.len()
    &&& alpha.len() == t.len()
    &&& t.len() > a.len()
    &&& t[a.len() as int] == ' '
    &&& forall|m: int| 0 <= m < a.len() ==> t[m] == a[m] && alpha[m] == alpha_a[m]
    &&& (a.len() - trailing_backslashes_start(a)) % 2 == 0
}

/// Where the run of backslashes at the end of `a` starts (`a.len()` when `a`
/// does not end in a backslash).
pub open spec fn trailing_backslashes_start(a: Seq<char>) -> int
    decreases a.len(),
{
    if a.len() > 0 && a.last() == '\\' {
        trailing_backslashes_start(a.drop_last())
    } else {
        a.len() as int
    }
}

/// Position `i` of `a` is not the second backslash of a pair in the trailing
/// run of backslashes: it is before the run, or an even distance from the end.
pub open spec fn at_pair_start(a: Seq<char>, i: int) -> bool {
    i <= trailing_backslashes_start(a) || (a.len() - i) % 2 == 0
}

proof fn lemma_trailing_backslashes(a: Seq<char>)
    ensures
        0 <= trailing_backslashes_start(a) <= a.len(),
        forall|m: int| trailing_backslashes_start(a) <= m < a.len() ==> a[m] == '\\',
        trailing_backslashes_start(a) > 0 ==> a[trailing_backslashes_start(a) - 1] != '\\',
        a.len() > 0 && a.last() == '\\' ==> trailing_backslashes_start(a) < a.len(),
    decreases a.len(),
{
    if a.len() > 0 && a.last() == '\\' {
        lemma_trailing_backslashes(a.drop_last());
        let r = trailing_backslashes_start(a);
        assert forall|m: int| r <= m < a.len() implies a[m] == '\\' by {
            if m < a.len() - 1 {
                assert(a[m] == a.drop_last()[m]);
            }
        }
        if r > 0 {
            assert(a[r - 1] == a.drop_last()[r - 1]);
        }
    }
}

proof fn lemma_scan_word_lands(a: Seq<char>, alpha_a: Seq<bool>, i: int)
    requires
        0 <= i <= a.len(),
        at_pair_start(a, i),
        (a.len() - trailing_backslashes_start(a)) % 2 == 0,
    ensures
        at_pair_start(a, scan_word(a, alpha_a, i).1),
    decreases a.len() - i,
{
    lemma_trailing_backslashes(a);
    let r = trailing_backslashes_start(a);
    if i < a.len() && continues_word(a[i], alpha_a[i]) {
        if a[i] == '\\' {
            if i + 1 >= a.len() {
            } else if spec_is_special(a[i + 1]) {
                if i < r {
                    assert(i + 1 < r) by {
                        if i + 1 >= r {
                            assert(a[r - 1] != '\\');
                        }
                    }
                }
                lemma_scan_word_lands(a, alpha_a, i + 2);
            } else {
                if i + 1 >= r {
                    assert(a[i + 1] == '\\');
                }
                lemma_scan_word_lands(a, alpha_a, i + 1);
            }
        } else {
            if i >= r {
                assert(a[i] == '\\');
            }
            lemma_scan_word_lands(a, alpha_a, i + 1);
        }
    }
}

proof fn lemma_scan_word_prefix(
    a: Seq<char>,
    alpha_a: Seq<bool>,
    t: Seq<char>,
    alpha: Seq<bool>,
    i: int,
)
    requires
        space_after(a, alpha_a, t, alpha),
        0 <= i <= a.len(),
        at_pair_start(a, i),
    ensures
        scan_word(t, alpha, i) == scan_word(a, alpha_a, i),
    decreases a.len() - i,
{
    lemma_trailing_backslashes(a);
    let r = trailing_backslashes_start(a);
    if i < a.len() {
        assert(t[i] == a[i] && alpha[i] == alpha_a[i]);
        if i + 1 < a.len() {
            assert(t[i + 1] == a[i + 1]);
        }
        if a[i] == '\\' {
            assert(i + 1 < a.len()) by {
                if i + 1 >= a.len() && i < r {
                    assert(a.last() == a[i]);
                }
            }
            if spec_is_special(a[i + 1]) {
                if i < r {
                    assert(i + 1 < r) by {
                        if i + 1 >= r {
                            assert(a[r - 1] != '\\');
                        }
                    }
                }
                lemma_scan_word_prefix(a, alpha_a, t, alpha, i + 2);
            } else {
                if i + 1 >= r {
                    assert(a[i + 1] == '\\');
                }
                lemma_scan_word_prefix(a, alpha_a, t, alpha, i + 1);
            }
        } else {
            if i >= r {
                assert(a[i] == '\\');
            }
            lemma_scan_word_prefix(a, alpha_a, t, alpha, i + 1);
        }
    }
}

proof fn lemma_lex_prefix(a: Seq<char>, alpha_a: Seq<bool>, t: Seq<char>, alpha: Seq<bool>, i: int)
    requires
        space_after(a, alpha_a, t, alpha),
        forall|m: int| 0 <= m < a.len() ==> a[m] != '\'' && a[m] != '"',
        0 <= i <= a.len(),
        at_pair_start(a, i),
    ensures
        lex_from(t, alpha, i) == join_lexed(
            lex_from(a, alpha_a, i),
            lex_from(t, alpha, a.len() + 1int),
        ),
    decreases a.len() - i,
{
    let rest = lex_from(t, alpha, a.len() + 1int);
    if i == a.len() {
        assert(lex_from(a, alpha_a, i) == Ok::<Seq<SpecToken>, Seq<char>>(seq![]));
        if let Ok(ty) = rest {
            assert(Seq::<SpecToken>::empty() + ty =~= ty);
        }
        assert(lex_from(t, alpha, i) == join_lexed(lex_from(a, alpha_a, i), rest));
    } else {
        let c = a[i];
        assert(t[i] == c);
        if i + 1 < a.len() {
            assert(t[i + 1] == a[i + 1]);
        }
        lemma_trailing_backslashes(a);
        let r = trailing_backslashes_start(a);
        if c != '\\' {
            assert(i < r);
        }
        if c == ' ' || c == '\t' || c == '\n' {
            lemma_lex_prefix(a, alpha_a, t, alpha, i + 1);
            assert(lex_from(t, alpha, i) == join_lexed(lex_from(a, alpha_a, i), rest));
        } else if starts_word(c) {
            lemma_scan_word_prefix(a, alpha_a, t, alpha, i);
            lemma_scan_word_progress(a, alpha_a, i);
            lemma_scan_word_lands(a, alpha_a, i);
            let (w, j) = scan_word(a, alpha_a, i);
            if i < j {
                lemma_lex_prefix(a, alpha_a, t, alpha, j);
                lemma_join_prepend(SpecToken::Id(w), lex_from(a, alpha_a, j), rest);
                assert(lex_from(t, alpha, i) == join_lexed(lex_from(a, alpha_a, i), rest));
            }
        } else if c == '|' || c == '>' || c == '&' {
            let single = if c == '|' {
                SpecToken::Pipe
            } else if c == '>' {
                SpecToken::RedirectOutput
            } else {
                SpecToken::Background
            };
            let double = if c == '|' {
                SpecToken::Or
            } else if c == '>' {
                SpecToken::RedirectOutputAppend
            } else {
                SpecToken::And
            };
            let (tk, j) = operator_at(a, i, single, double);
            assert(operator_at(t, i, single, double) == (tk, j));
            if j == i + 2 {
                assert(a[i + 1] == c);
            }
            lemma_lex_prefix(a, alpha_a, t, alpha, j);
            lemma_join_prepend(tk, lex_from(a, alpha_a, j), rest);
            assert(lex_from(t, alpha, i) == join_lexed(lex_from(a, alpha_a, i), rest));
        } else {
            lemma_lex_prefix(a, alpha_a, t, alpha, i + 1);
            lemma_join_prepend(single_char_token(c), lex_from(a, alpha_a, i + 1), rest);
            assert(lex_from(t, alpha, i) == join_lexed(lex_from(a, alpha_a, i), rest));
        }
    }
}

/// A space splits a line into parts that lex on their own: the tokens of `a`,
/// a space and `b` are those of `a` followed by those of `b`, when `a` holds
/// no quote and does not end in an unescaped backslash (which would escape the
/// space): the run of backslashes at its end, if any, has even length.
pub proof fn law_space_splits_lexing(a: Seq<char>, b: Seq<char>)
    requires
        forall|m: int| 0 <= m < a.len() ==> a[m] != '\'' && a[m] != '"',
        (a.len() - trailing_backslashes_start(a)) % 2 == 0,
    ensures
        spec_lex(a + seq![' '] + b) == join_lexed(spec_lex(a), spec_lex(b)),
{
    let t = a + seq![' '] + b;
    let alpha = alphabetic_flags(t);
    let alpha_a = alphabetic_flags(a);
    assert(t[a.len() as int] == ' ');
    assert forall|m: int| 0 <= m < a.len() implies t[m] == a[m] && alpha[m] == alpha_a[m] by {
        assert(t[m] == a[m]);
    }
    lemma_trailing_backslashes(a);
    lemma_lex_prefix(a, alpha_a, t, alpha, 0);
    lemma_lex_skip(t, alpha, a.len() + 1int, 0);
    assert(t.skip(a.len() + 1int) =~= b);
    assert(alpha.skip(a.len() + 1int) =~= alphabetic_flags(b)) by {
        assert forall|m: int| 0 <= m < b.len() implies alpha.skip(a.len() + 1int)[m] == alphabetic_flags(b)[m] by {
            assert(t[a.len() + 1int + m] == b[m]);
        }
    }
}

proof fn lemma_quoted_body(s: Seq<char>, q: char, w: Seq<char>, k: int)
    requires
        s == seq![q] + w + seq![q],
        forall|m: int| 0 <= m < w.len() ==> w[m] != q && w[m] != '\n',
        0 <= k <= w.len(),
    ensures
        scan_quoted(s, q, 1 + k) == Some((w.skip(k), w.len() + 2int)),
    decreases w.len() - k,
{
    if k == w.len() {
        assert(s[1 + k] == q);
        assert(w.skip(k) =~= Seq::<char>::empty());
    } else {
        assert(s[1 + k] == w[k]);
        lemma_quoted_body(s, q, w, k + 1);
        assert(seq![w[k]] + w.skip(k + 1) =~= w.skip(k));
    }
}

/// Quoting keeps text as it is: a single- or double-quoted text without its
/// quote or a newline lexes to exactly one word, that text, spaces and
/// operator characters included.
pub proof fn law_quotation_is_kept_verbatim(q: char, w: Seq<char>)
    requires
        q == '\'' || q == '"',
        forall|m: int| 0 <= m < w.len() ==> w[m] != q && w[m] != '\n',
    ensures
        spec_lex(seq![q] + w + seq![q]) == Ok::<Seq<SpecToken>, Seq<char>>(seq![SpecToken::Id(w)]),
{
    let s = seq![q] + w + seq![q];
    let alpha = alphabetic_flags(s);
    assert(s[0] == q);
    lemma_quoted_body(s, q, w, 0);
    assert(w.skip(0) =~= w);
    assert(lex_from(s, alpha, w.len() + 2int) == Ok::<Seq<SpecToken>, Seq<char>>(seq![]));
    assert(seq![SpecToken::Id(w)] + Seq::<SpecToken>::empty() =~= seq![SpecToken::Id(w)]);
}

} // verus!
