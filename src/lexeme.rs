//! The lexical rules of the language, stated over the source as a sequence
//! of characters. A position `i` is the offset of a character in that
//! sequence.
use crate::scanner::ScannerError;
use crate::token::Token;
use vstd::prelude::*;

verus! {

pub open spec fn is_digit(c: char) -> bool {
    '0' <= c && c <= '9'
}

/// Characters that always stand alone as a token.
pub open spec fn is_single(c: char) -> bool {
    c == '(' || c == ')' || c == '{' || c == '}' || c == ',' || c == '.' || c == '-' || c == '+'
        || c == ';' || c == '*'
}

/// Characters that become a two-character operator when `=` follows.
pub open spec fn is_comparison(c: char) -> bool {
    c == '!' || c == '=' || c == '<' || c == '>'
}

/// Whitespace, which is discarded.
pub open spec fn is_blank(c: char) -> bool {
    c == ' ' || c == '\t' || c == '\r' || c == '\n'
}

/// Characters at which some lexeme may begin.
pub open spec fn starts_lexeme(c: char) -> bool {
    is_single(c) || is_comparison(c) || is_blank(c) || c == '/' || c == '"' || is_digit(c)
}

/// The character after `i` exists and is `c`.
pub open spec fn next_is(s: Seq<char>, i: int, c: char) -> bool {
    i + 1 < s.len() && s[i + 1] == c
}

/// The first position at or after `from` that holds `c`, or the length of
/// `s` if there is none.
pub open spec fn find_from(s: Seq<char>, from: int, c: char) -> int
    decreases s.len() - from,
{
    if from >= s.len() {
        s.len() as int
    } else if s[from] == c {
        from
    } else {
        find_from(s, from + 1, c)
    }
}

/// The first position at or after `from` that does not hold a digit, or the
/// length of `s`.
pub open spec fn digits_end(s: Seq<char>, from: int) -> int
    decreases s.len() - from,
{
    if from >= s.len() {
        s.len() as int
    } else if !is_digit(s[from]) {
        from
    } else {
        digits_end(s, from + 1)
    }
}

/// The end of the numeral that starts at `i`: a run of digits, then a `.`
/// and a second run of digits only where a digit follows the `.`.
pub open spec fn number_end(s: Seq<char>, i: int) -> int {
    let j = digits_end(s, i);
    if j + 1 < s.len() && s[j] == '.' && is_digit(s[j + 1]) {
        digits_end(s, j + 1)
    } else {
        j
    }
}

/// `//` starts a line comment at `i`.
pub open spec fn is_comment(s: Seq<char>, i: int) -> bool {
    s[i] == '/' && next_is(s, i, '/')
}

/// The closing quote of the string literal opened at `i`, or the length of
/// `s` if it is never closed.
pub open spec fn string_close(s: Seq<char>, i: int) -> int {
    find_from(s, i + 1, '"')
}

/// The lexeme at `i` is discarded: whitespace or a comment.
pub open spec fn is_discarded(s: Seq<char>, i: int) -> bool {
    is_blank(s[i]) || is_comment(s, i)
}

/// Scanning fails at `i`: no lexeme starts with that character, or it opens
/// a string literal that is never closed.
pub open spec fn is_failure(s: Seq<char>, i: int) -> bool {
    !starts_lexeme(s[i]) || (s[i] == '"' && string_close(s, i) >= s.len())
}

/// The position just after the lexeme that starts at `i`. A comment ends
/// before its newline, which is a lexeme of its own.
pub open spec fn lexeme_end(s: Seq<char>, i: int) -> int {
    let c = s[i];
    if is_comparison(c) && next_is(s, i, '=') {
        i + 2
    } else if is_comment(s, i) {
        find_from(s, i + 2, '\n')
    } else if c == '"' {
        if string_close(s, i) < s.len() {
            string_close(s, i) + 1
        } else {
            s.len() as int
        }
    } else if is_digit(c) {
        number_end(s, i)
    } else {
        i + 1
    }
}

/// `t` is the token for the (kept, successful) lexeme that starts at `i`.
pub open spec fn token_is(t: Token, s: Seq<char>, i: int) -> bool {
    let c = s[i];
    let eq = next_is(s, i, '=');
    match t {
        Token::LeftParen(x, p) => c == '(' && x == c && p == i,
        Token::RightParen(x, p) => c == ')' && x == c && p == i,
        Token::LeftBrace(x, p) => c == '{' && x == c && p == i,
        Token::RightBrace(x, p) => c == '}' && x == c && p == i,
        Token::Comma(x, p) => c == ',' && x == c && p == i,
        Token::Dot(x, p) => c == '.' && x == c && p == i,
        Token::Minus(x, p) => c == '-' && x == c && p == i,
        Token::Plus(x, p) => c == '+' && x == c && p == i,
        Token::Semicolon(x, p) => c == ';' && x == c && p == i,
        Token::Star(x, p) => c == '*' && x == c && p == i,
        Token::Slash(x, p) => c == '/' && !next_is(s, i, '/') && x == c && p == i,
        Token::Bang(x, p) => c == '!' && !eq && x == c && p == i,
        Token::Equal(x, p) => c == '=' && !eq && x == c && p == i,
        Token::Less(x, p) => c == '<' && !eq && x == c && p == i,
        Token::Greater(x, p) => c == '>' && !eq && x == c && p == i,
        Token::BangEqual(x, p) => c == '!' && eq && x@ == seq!['!', '='] && p == i,
        Token::EqualEqual(x, p) => c == '=' && eq && x@ == seq!['=', '='] && p == i,
        Token::LessEqual(x, p) => c == '<' && eq && x@ == seq!['<', '='] && p == i,
        Token::GreaterEqual(x, p) => c == '>' && eq && x@ == seq!['>', '='] && p == i,
        Token::String(v) => c == '"' && v@ == s.subrange(i + 1, string_close(s, i)),
        Token::Number(v) => is_digit(c) && v@ == s.subrange(i, number_end(s, i)),
        _ => false,
    }
}

/// `e` is the error for the failure at `i`.
pub open spec fn error_is(e: ScannerError, s: Seq<char>, i: int) -> bool {
    match e {
        ScannerError::UnexpectedToken(c, p) => !starts_lexeme(s[i]) && c == s[i] && p == i,
        ScannerError::UnterminatedString(v, p) => s[i] == '"' && v@ == s.subrange(i + 1, s.len() as int)
            && p == i,
    }
}

/// Scanning from `i` to the end meets no failure.
pub open spec fn scans_cleanly(s: Seq<char>, i: int) -> bool
    decreases s.len() - i,
    via scan_decreases
{
    if i < 0 || i >= s.len() {
        true
    } else {
        !is_failure(s, i) && scans_cleanly(s, lexeme_end(s, i))
    }
}

/// Scanning from `i`, on success, emits exactly `ts`.
pub open spec fn emits(s: Seq<char>, i: int, ts: Seq<Token>) -> bool
    decreases s.len() - i,
    via emits_decreases
{
    if i < 0 || i >= s.len() {
        ts.len() == 0
    } else if is_discarded(s, i) {
        emits(s, lexeme_end(s, i), ts)
    } else {
        ts.len() > 0 && token_is(ts[0], s, i) && emits(s, lexeme_end(s, i), ts.drop_first())
    }
}

/// The position of the first failure met when scanning from `i`, or the
/// length of `s` if there is none.
pub open spec fn first_failure(s: Seq<char>, i: int) -> int
    decreases s.len() - i,
    via failure_decreases
{
    if i < 0 || i >= s.len() {
        s.len() as int
    } else if is_failure(s, i) {
        i
    } else {
        first_failure(s, lexeme_end(s, i))
    }
}

/// The position at which scanning from `i` stops: the end of the input, or
/// the end of the failing lexeme.
pub open spec fn stop_point(s: Seq<char>, i: int) -> int {
    let f = first_failure(s, i);
    if f < s.len() && s[f] == '"' {
        s.len() as int
    } else {
        f
    }
}

/// The number of newlines among the first `n` characters of `s`.
pub open spec fn newlines(s: Seq<char>, n: int) -> nat
    decreases n,
{
    if n <= 0 || n > s.len() {
        0
    } else {
        newlines(s, n - 1) + if s[n - 1] == '\n' {
            1nat
        } else {
            0nat
        }
    }
}

pub proof fn lemma_find_from_bounds(s: Seq<char>, from: int, c: char)
    requires
        0 <= from <= s.len(),
    ensures
        from <= find_from(s, from, c) <= s.len(),
        find_from(s, from, c) < s.len() ==> s[find_from(s, from, c)] == c,
        forall|k: int| from <= k < find_from(s, from, c) ==> s[k] != c,
    decreases s.len() - from,
{
    if from < s.len() && s[from] != c {
        lemma_find_from_bounds(s, from + 1, c);
    }
}

pub proof fn lemma_digits_end_bounds(s: Seq<char>, from: int)
    requires
        0 <= from <= s.len(),
    ensures
        from <= digits_end(s, from) <= s.len(),
        digits_end(s, from) < s.len() ==> !is_digit(s[digits_end(s, from)]),
        forall|k: int| from <= k < digits_end(s, from) ==> is_digit(s[k]),
    decreases s.len() - from,
{
    if from < s.len() && is_digit(s[from]) {
        lemma_digits_end_bounds(s, from + 1);
    }
}

/// Every lexeme is at least one character long and ends within the input.
pub proof fn lemma_lexeme_end_bounds(s: Seq<char>, i: int)
    requires
        0 <= i < s.len(),
    ensures
        i < lexeme_end(s, i) <= s.len(),
{
    if is_comment(s, i) {
        lemma_find_from_bounds(s, i + 2, '\n');
    }
    lemma_find_from_bounds(s, i + 1, '"');
    lemma_digits_end_bounds(s, i);
    let j = digits_end(s, i);
    if j + 1 < s.len() {
        lemma_digits_end_bounds(s, j + 1);
    }
}

#[via_fn]
proof fn scan_decreases(s: Seq<char>, i: int) {
    if 0 <= i < s.len() {
        lemma_lexeme_end_bounds(s, i);
    }
}

#[via_fn]
proof fn emits_decreases(s: Seq<char>, i: int, ts: Seq<Token>) {
    if 0 <= i < s.len() {
        lemma_lexeme_end_bounds(s, i);
    }
}

#[via_fn]
proof fn failure_decreases(s: Seq<char>, i: int) {
    if 0 <= i < s.len() {
        lemma_lexeme_end_bounds(s, i);
    }
}

/// Input made of whitespace alone (spaces, tabs, carriage returns and
/// newlines) scans without failure and yields no token.
pub proof fn lemma_blank_input_yields_nothing(s: Seq<char>)
    requires
        forall|k: int| 0 <= k < s.len() ==> is_blank(#[trigger] s[k]),
    ensures
        scans_cleanly(s, 0),
        emits(s, 0, Seq::<Token>::empty()),
{
    lemma_blank_suffix(s, 0);
}

proof fn lemma_blank_suffix(s: Seq<char>, i: int)
    requires
        0 <= i,
        forall|k: int| 0 <= k < s.len() ==> is_blank(#[trigger] s[k]),
    ensures
        scans_cleanly(s, i),
        emits(s, i, Seq::<Token>::empty()),
    decreases s.len() - i,
{
    if i < s.len() {
        lemma_blank_suffix(s, i + 1);
    }
}

/// The tokens that a scan emits stand in strictly increasing order of
/// position: of any two that record a position, the earlier in the list
/// starts earlier in the source.
pub proof fn lemma_positions_increase(s: Seq<char>, ts: Seq<Token>)
    requires
        emits(s, 0, ts),
    ensures
        forall|a: int, b: int|
            0 <= a < b < ts.len() && (#[trigger] ts[a].position()) is Some && (
            #[trigger] ts[b].position()) is Some ==> ts[a].position()->0 < ts[b].position()->0,
{
    lemma_positions_from(s, 0, ts);
}

proof fn lemma_positions_from(s: Seq<char>, i: int, ts: Seq<Token>)
    requires
        0 <= i,
        emits(s, i, ts),
    ensures
        forall|a: int|
            0 <= a < ts.len() && (#[trigger] ts[a].position()) is Some ==> i <= ts[a].position()->0
                < s.len(),
        forall|a: int, b: int|
            0 <= a < b < ts.len() && (#[trigger] ts[a].position()) is Some && (
            #[trigger] ts[b].position()) is Some ==> ts[a].position()->0 < ts[b].position()->0,
    decreases s.len() - i,
{
    if i < s.len() {
        lemma_lexeme_end_bounds(s, i);
        let j = lexeme_end(s, i);
        if is_discarded(s, i) {
            lemma_positions_from(s, j, ts);
        } else {
            let tail = ts.drop_first();
            lemma_positions_from(s, j, tail);
            assert forall|a: int|
                0 <= a < ts.len() && (#[trigger] ts[a].position()) is Some implies i
                <= ts[a].position()->0 < s.len() by {
                if a > 0 {
                    assert(ts[a] == tail[a - 1]);
                }
            }
            assert forall|a: int, b: int|
                0 <= a < b < ts.len() && (#[trigger] ts[a].position()) is Some && (
                #[trigger] ts[b].position()) is Some implies ts[a].position()->0
                < ts[b].position()->0 by {
                assert(ts[b] == tail[b - 1]);
                if a > 0 {
                    assert(ts[a] == tail[a - 1]);
                }
            }
        }
    }
}

} // verus!
