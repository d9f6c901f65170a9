use crate::lexeme::{
    digits_end, emits, error_is, find_from, first_failure, is_comparison, is_digit, is_discarded,
    is_failure, is_single, lemma_digits_end_bounds, lemma_find_from_bounds,
    lemma_lexeme_end_bounds, lexeme_end, newlines, number_end, scans_cleanly, stop_point, token_is,
};
use crate::token::Token;
use vstd::prelude::*;
use vstd::string::StrSliceExecFns;

verus! {

broadcast use vstd::string::group_string_axioms;

/// Why a scan stopped.
#[derive(Debug)]
pub enum ScannerError {
    /// A character that begins no lexeme, and its position.
    UnexpectedToken(char, usize),
    /// The content of a string literal that is never closed, and the
    /// position of its opening quote.
    UnterminatedString(String, usize),
}

/// The characters of `s`, in order.
fn chars_of(s: &str) -> (r: Vec<char>)
    ensures
        r@ == s@,
{
    let mut r: Vec<char> = Vec::new();
    for c in it: s.chars()
        invariant
            r@ == it.seq().take(it.index() as int),
            it.seq() == s@,
    {
        r.push(c);
    }
    r
}

/// The first position at or after `from` that holds `c`, or the end.
fn find_char(src: &Vec<char>, from: usize, c: char) -> (r: usize)
    requires
        from <= src.len(),
    ensures
        r == find_from(src@, from as int, c),
{
    let mut k = from;
    while k < src.len() && src[k] != c
        invariant
            from <= k <= src.len(),
            find_from(src@, from as int, c) == find_from(src@, k as int, c),
        decreases src.len() - k,
    {
        k = k + 1;
    }
    k
}

/// The first position at or after `from` that holds no digit, or the end.
fn skip_digits(src: &Vec<char>, from: usize) -> (r: usize)
    requires
        from <= src.len(),
    ensures
        r == digits_end(src@, from as int),
{
    let mut k = from;
    while k < src.len() && '0' <= src[k] && src[k] <= '9'
        invariant
            from <= k <= src.len(),
            digits_end(src@, from as int) == digits_end(src@, k as int),
        decreases src.len() - k,
    {
        k = k + 1;
    }
    k
}

/// The number of newlines from `from` up to, not including, `to`.
fn count_newlines(src: &Vec<char>, from: usize, to: usize) -> (n: usize)
    requires
        from <= to <= src.len(),
    ensures
        n == newlines(src@, to as int) - newlines(src@, from as int),
{
    let mut n: usize = 0;
    let mut k = from;
    while k < to
        invariant
            from <= k <= to <= src.len(),
            n <= k - from,
            n == newlines(src@, k as int) - newlines(src@, from as int),
        decreases to - k,
    {
        if src[k] == '\n' {
            n = n + 1;
        }
        k = k + 1;
    }
    n
}

/// The numeral that starts at `i`.
fn scan_number(src: &Vec<char>, text: &str, i: usize) -> (r: (Token, usize))
    requires
        text@ == src@,
        i < src.len(),
        is_digit(src@[i as int]),
    ensures
        token_is(r.0, src@, i as int),
        r.1 == number_end(src@, i as int),
{
    proof {
        lemma_digits_end_bounds(src@, i as int);
    }
    let j = skip_digits(src, i);
    let mut end = j;
    if j < src.len() && j + 1 < src.len() && src[j] == '.' && '0' <= src[j + 1] && src[j + 1] <= '9' {
        proof {
            lemma_digits_end_bounds(src@, j + 1);
        }
        end = skip_digits(src, j + 1);
    }
    let numeral = text.substring_char(i, end).to_owned();
    (Token::Number(numeral), end)
}

/// The string literal opened at `i`, with the position after its closing
/// quote, or the error for a literal that is never closed.
fn scan_string(src: &Vec<char>, text: &str, i: usize) -> (r: Result<(Token, usize), ScannerError>)
    requires
        text@ == src@,
        i < src.len(),
        src@[i as int] == '"',
    ensures
        match r {
            Ok((t, end)) => !is_failure(src@, i as int) && token_is(t, src@, i as int) && end
                == lexeme_end(src@, i as int),
            Err(e) => is_failure(src@, i as int) && error_is(e, src@, i as int),
        },
{
    proof {
        lemma_find_from_bounds(src@, i + 1, '"');
    }
    let close = find_char(src, i + 1, '"');
    let content = text.substring_char(i + 1, close).to_owned();
    if close < src.len() {
        Ok((Token::String(content), close + 1))
    } else {
        Err(ScannerError::UnterminatedString(content, i))
    }
}

/// The operator at `i` that becomes a two-character one when `=` follows.
fn scan_comparison(src: &Vec<char>, i: usize) -> (r: (Token, usize))
    requires
        i < src.len(),
        is_comparison(src@[i as int]),
    ensures
        token_is(r.0, src@, i as int),
        r.1 == lexeme_end(src@, i as int),
{
    let c = src[i];
    if i + 1 < src.len() && src[i + 1] == '=' {
        let t = if c == '!' {
            let lexeme = "!=".to_owned();
            proof {
                reveal_strlit("!=");
                assert(lexeme@ =~= seq!['!', '=']);
            }
            Token::BangEqual(lexeme, i)
        } else if c == '=' {
            let lexeme = "==".to_owned();
            proof {
                reveal_strlit("==");
                assert(lexeme@ =~= seq!['=', '=']);
            }
            Token::EqualEqual(lexeme, i)
        } else if c == '<' {
            let lexeme = "<=".to_owned();
            proof {
                reveal_strlit("<=");
                assert(lexeme@ =~= seq!['<', '=']);
            }
            Token::LessEqual(lexeme, i)
        } else {
            let lexeme = ">=".to_owned();
            proof {
                reveal_strlit(">=");
                assert(lexeme@ =~= seq!['>', '=']);
            }
            Token::GreaterEqual(lexeme, i)
        };
        (t, i + 2)
    } else {
        let t = if c == '!' {
            Token::Bang(c, i)
        } else if c == '=' {
            Token::Equal(c, i)
        } else if c == '<' {
            Token::Less(c, i)
        } else {
            Token::Greater(c, i)
        };
        (t, i + 1)
    }
}

/// The token for a character that always stands alone.
fn single_token(c: char, i: usize) -> (t: Token)
    requires
        is_single(c),
    ensures
        forall|s: Seq<char>| 0 <= i < s.len() && s[i as int] == c ==> token_is(t, s, i as int),
{
    if c == '(' {
        Token::LeftParen(c, i)
    } else if c == ')' {
        Token::RightParen(c, i)
    } else if c == '{' {
        Token::LeftBrace(c, i)
    } else if c == '}' {
        Token::RightBrace(c, i)
    } else if c == ',' {
        Token::Comma(c, i)
    } else if c == '.' {
        Token::Dot(c, i)
    } else if c == '-' {
        Token::Minus(c, i)
    } else if c == '+' {
        Token::Plus(c, i)
    } else if c == ';' {
        Token::Semicolon(c, i)
    } else {
        Token::Star(c, i)
    }
}

/// Classifies the lexeme that starts at `i`: a token, or nothing for
/// whitespace and comments, each with the position just after it; or the
/// error that ends the scan there.
fn lex_at(src: &Vec<char>, text: &str, i: usize) -> (r: Result<(Option<Token>, usize), ScannerError>)
    requires
        text@ == src@,
        i < src.len(),
    ensures
        match r {
            Ok((t, end)) => {
                &&& !is_failure(src@, i as int)
                &&& end == lexeme_end(src@, i as int)
                &&& match t {
                    Some(t) => !is_discarded(src@, i as int) && token_is(t, src@, i as int),
                    None => is_discarded(src@, i as int),
                }
            },
            Err(e) => is_failure(src@, i as int) && error_is(e, src@, i as int),
        },
{
    let c = src[i];
    if c == '(' || c == ')' || c == '{' || c == '}' || c == ',' || c == '.' || c == '-' || c == '+'
        || c == ';' || c == '*' {
        Ok((Some(single_token(c, i)), i + 1))
    } else if c == '!' || c == '=' || c == '<' || c == '>' {
        let (t, end) = scan_comparison(src, i);
        Ok((Some(t), end))
    } else if c == '/' {
        if i + 1 < src.len() && src[i + 1] == '/' {
            // The newline that ends the comment is left for the next lexeme.
            let end = find_char(src, i + 2, '\n');
            Ok((None, end))
        } else {
            Ok((Some(Token::Slash(c, i)), i + 1))
        }
    } else if c == ' ' || c == '\t' || c == '\r' || c == '\n' {
        Ok((None, i + 1))
    } else if c == '"' {
        match scan_string(src, text, i) {
            Ok((t, end)) => Ok((Some(t), end)),
            Err(e) => Err(e),
        }
    } else if '0' <= c && c <= '9' {
        let (t, end) = scan_number(src, text, i);
        Ok((Some(t), end))
    } else {
        Err(ScannerError::UnexpectedToken(c, i))
    }
}

/// What a scanner holds: the source as characters, the tokens emitted so
/// far, and the current line (the first is 1).
pub ghost struct ScannerView {
    pub source: Seq<char>,
    pub tokens: Seq<Token>,
    pub line: nat,
}

/// Turns one source text into its tokens.
#[derive(Debug)]
pub struct Scanner {
    source: String,
    tokens: Vec<Token>,
    line: usize,
}

impl View for Scanner {
    type V = ScannerView;

    closed spec fn view(&self) -> ScannerView {
        ScannerView { source: self.source@, tokens: self.tokens@, line: self.line as nat }
    }
}

impl Scanner {
    /// A scanner over `source`, at line 1, with no tokens yet.
    pub fn new(source: String) -> (r: Self)
        ensures
            r@.source == source@,
            r@.tokens == Seq::<Token>::empty(),
            r@.line == 1,
    {
        Scanner { source, tokens: Vec::new(), line: 1 }
    }

    /// The current line: 1, plus one for each newline read so far.
    pub fn line(&self) -> (r: usize)
        ensures
            r == self@.line,
    {
        self.line
    }

    /// Scans the whole source, left to right, and appends its tokens to the
    /// list, which it returns. Whitespace and comments yield no token. The
    /// first failure ends the scan: its error is returned and the list is
    /// left as it was. The line counter advances by one for each newline
    /// read, those inside strings and comments included.
    pub fn scan_tokens_iter(&mut self) -> (r: Result<&Vec<Token>, ScannerError>)
        requires
            old(self)@.line + old(self)@.source.len() <= usize::MAX,
        ensures
            final(self)@.source == old(self)@.source,
            final(self)@.line == old(self)@.line + newlines(
                old(self)@.source,
                stop_point(old(self)@.source, 0),
            ),
            match r {
                Ok(ts) => {
                    let n = old(self)@.tokens.len();
                    &&& scans_cleanly(old(self)@.source, 0)
                    &&& ts@ == final(self)@.tokens
                    &&& ts@.len() >= n
                    &&& ts@.take(n as int) == old(self)@.tokens
                    &&& emits(old(self)@.source, 0, ts@.skip(n as int))
                },
                Err(e) => {
                    &&& !scans_cleanly(old(self)@.source, 0)
                    &&& error_is(e, old(self)@.source, first_failure(old(self)@.source, 0))
                    &&& final(self)@.tokens == old(self)@.tokens
                },
            },
    {
        let src = chars_of(self.source.as_str());
        let ghost s = src@;
        let ghost line0 = self.line as nat;
        let mut out: Vec<Token> = Vec::new();
        let mut i: usize = 0;
        while i < src.len()
            invariant
                s == src@,
                s == self.source@,
                s == old(self)@.source,
                self.tokens@ == old(self).tokens@,
                line0 == old(self)@.line,
                line0 + s.len() <= usize::MAX,
                i <= s.len(),
                self.line == line0 + newlines(s, i as int),
                scans_cleanly(s, 0) == scans_cleanly(s, i as int),
                first_failure(s, 0) == first_failure(s, i as int),
                forall|rest: Seq<Token>|
                    emits(s, 0, out@ + rest) == #[trigger] emits(s, i as int, rest),
            decreases s.len() - i,
        {
            proof {
                lemma_lexeme_end_bounds(s, i as int);
                lemma_newlines_bound(s, i as int);
            }
            match lex_at(&src, self.source.as_str(), i) {
                Ok((t, end)) => {
                    proof {
                        lemma_newlines_bound(s, end as int);
                    }
                    self.line = self.line + count_newlines(&src, i, end);
                    match t {
                        Some(t) => {
                            proof {
                                assert forall|rest: Seq<Token>|
                                    emits(s, 0, out@.push(t) + rest) == #[trigger] emits(
                                        s,
                                        end as int,
                                        rest,
                                    ) by {
                                    let r1 = seq![t] + rest;
                                    assert(out@.push(t) + rest =~= out@ + r1);
                                    assert(r1.drop_first() =~= rest);
                                    assert(emits(s, 0, out@ + r1) == emits(s, i as int, r1));
                                }
                            }
                            out.push(t);
                        },
                        None => {
                            proof {
                                assert forall|rest: Seq<Token>|
                                    emits(s, 0, out@ + rest) == #[trigger] emits(
                                        s,
                                        end as int,
                                        rest,
                                    ) by {
                                    assert(emits(s, 0, out@ + rest) == emits(s, i as int, rest));
                                }
                            }
                        },
                    }
                    i = end;
                },
                Err(e) => {
                    if src[i] == '"' {
                        proof {
                            lemma_newlines_bound(s, s.len() as int);
                        }
                        self.line = self.line + count_newlines(&src, i, src.len());
                    }
                    return Err(e);
                },
            }
        }
        proof {
            assert(out@ + Seq::<Token>::empty() =~= out@);
            assert(emits(s, i as int, Seq::<Token>::empty()));
        }
        let ghost before = self.tokens@;
        let ghost added = out@;
        self.tokens.append(&mut out);
        proof {
            assert(self.tokens@.take(before.len() as int) =~= before);
            assert(self.tokens@.skip(before.len() as int) =~= added);
        }
        Ok(&self.tokens)
    }
}

/// Among the first `n` characters there are at most `n` newlines, and no
/// fewer than among a shorter prefix.
proof fn lemma_newlines_bound(s: Seq<char>, n: int)
    requires
        0 <= n <= s.len(),
    ensures
        newlines(s, n) <= n,
        forall|m: int| 0 <= m <= n ==> newlines(s, m) <= newlines(s, n),
    decreases n,
{
    if n > 0 {
        lemma_newlines_bound(s, n - 1);
    }
}

} // verus!
