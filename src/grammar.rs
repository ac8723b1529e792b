use vstd::prelude::*;

use crate::token::{TokenType, TokenView, null_text};

verus! {

/// How a single character is classified on its own: `None` for whitespace
/// and line breaks, the kind of token it starts otherwise (`QMARK` for an
/// opening quote, `LEXICAL_ERROR` for a character no token starts with).
pub open spec fn char_class(c: char) -> Option<TokenType> {
    if c == '(' {
        Some(TokenType::LEFT_PAREN)
    } else if c == ')' {
        Some(TokenType::RIGHT_PAREN)
    } else if c == '{' {
        Some(TokenType::LEFT_BRACE)
    } else if c == '}' {
        Some(TokenType::RIGHT_BRACE)
    } else if c == '*' {
        Some(TokenType::STAR)
    } else if c == '.' {
        Some(TokenType::DOT)
    } else if c == ',' {
        Some(TokenType::COMMA)
    } else if c == '+' {
        Some(TokenType::PLUS)
    } else if c == '-' {
        Some(TokenType::MINUS)
    } else if c == ';' {
        Some(TokenType::SEMICOLON)
    } else if c == '=' {
        Some(TokenType::EQUAL)
    } else if c == '!' {
        Some(TokenType::BANG)
    } else if c == '<' {
        Some(TokenType::LESS)
    } else if c == '>' {
        Some(TokenType::GREATER)
    } else if c == '/' {
        Some(TokenType::SLASH)
    } else if c == '"' {
        Some(TokenType::QMARK)
    } else if c == '\n' || c == ' ' || c == '\t' || c == '\r' {
        None
    } else {
        Some(TokenType::LEXICAL_ERROR)
    }
}

/// The two-character operator that a kind becomes when `=` follows it.
pub open spec fn with_equal(k: TokenType) -> Option<TokenType> {
    match k {
        TokenType::BANG => Some(TokenType::BANG_EQUAL),
        TokenType::EQUAL => Some(TokenType::EQUAL_EQUAL),
        TokenType::LESS => Some(TokenType::LESS_EQUAL),
        TokenType::GREATER => Some(TokenType::GREATER_EQUAL),
        _ => None,
    }
}

/// The first index at or after `from` that holds `c`, or `s.len()` if none does.
pub open spec fn find_from(s: Seq<char>, from: int, c: char) -> int
    decreases s.len() - from,
{
    if from >= s.len() {
        s.len() as int
    } else if s[from] == c {
        from
    } else {
        find_from(s, from + 1, c)
    }
}

/// The number of line breaks among `s[lo..hi]`.
pub open spec fn newlines(s: Seq<char>, lo: int, hi: int) -> int
    decreases hi - lo,
{
    if hi <= lo {
        0
    } else {
        newlines(s, lo, hi - 1) + if s[hi - 1] == '\n' { 1int } else { 0 }
    }
}

pub open spec fn mk(kind: TokenType, lexeme: Seq<char>, appendix: Seq<char>, line: int) -> TokenView {
    TokenView { kind, lexeme, appendix, line }
}

/// The end-of-input token at `line`.
pub open spec fn eof_at(line: int) -> TokenView {
    mk(TokenType::EOF, Seq::empty(), null_text(), line)
}

pub proof fn lemma_find_from_bounds(s: Seq<char>, from: int, c: char)
    requires
        0 <= from,
    ensures
        from <= s.len() ==> from <= find_from(s, from, c) <= s.len(),
        from > s.len() ==> find_from(s, from, c) == s.len(),
        find_from(s, from, c) < s.len() ==> s[find_from(s, from, c)] == c,
        forall|k: int| from <= k < find_from(s, from, c) ==> s[k] != c,
    decreases s.len() - from,
{
    if from < s.len() && s[from] != c {
        lemma_find_from_bounds(s, from + 1, c);
    }
}

#[via_fn]
proof fn scan_from_terminates(s: Seq<char>, i: int, line: int) {
    if 0 <= i < s.len() {
        lemma_find_from_bounds(s, i + 1, '"');
        lemma_find_from_bounds(s, i + 2, '\n');
    }
}

/// The tokens read from `s[i..]` when scanning there starts on line `line`.
///
/// A string literal, closed or not, is reported on the line of its opening
/// quote; the line breaks inside it still count for what follows.
pub open spec fn scan_from(s: Seq<char>, i: int, line: int) -> Seq<TokenView>
    decreases s.len() - i via scan_from_terminates
{
    if i < 0 || i >= s.len() {
        seq![eof_at(line)]
    } else {
        let c = s[i];
        match char_class(c) {
            None => scan_from(s, i + 1, if c == '\n' { line + 1 } else { line }),
            Some(k) => if k == TokenType::QMARK {
                let e = find_from(s, i + 1, '"');
                let after = line + newlines(s, i + 1, e);
                if e < s.len() {
                    seq![mk(TokenType::STRING, s.subrange(i, e + 1), s.subrange(i + 1, e), line)]
                        + scan_from(s, e + 1, after)
                } else {
                    seq![mk(TokenType::UNTERM_STR, Seq::empty(), Seq::empty(), line)]
                        + scan_from(s, e, after)
                }
            } else if k == TokenType::SLASH && i + 1 < s.len() && s[i + 1] == '/' {
                let e = find_from(s, i + 2, '\n');
                if e < s.len() {
                    scan_from(s, e + 1, line + 1)
                } else {
                    scan_from(s, e, line)
                }
            } else if with_equal(k) is Some && i + 1 < s.len() && s[i + 1] == '=' {
                seq![mk(with_equal(k)->0, seq![c, '='], null_text(), line)]
                    + scan_from(s, i + 2, line)
            } else {
                seq![mk(k, seq![c], null_text(), line)] + scan_from(s, i + 1, line)
            },
        }
    }
}

/// The token sequence of a whole source text: scanning starts on line 1.
pub open spec fn scan(s: Seq<char>) -> Seq<TokenView> {
    scan_from(s, 0, 1)
}

#[via_fn]
proof fn starts_from_terminates(s: Seq<char>, i: int) {
    if 0 <= i < s.len() {
        lemma_find_from_bounds(s, i + 1, '"');
        lemma_find_from_bounds(s, i + 2, '\n');
    }
}

/// The index in `s` at which each token of `scan_from(s, i, _)` starts; the
/// end-of-input token starts at `s.len()`.
pub open spec fn starts_from(s: Seq<char>, i: int) -> Seq<int>
    decreases s.len() - i via starts_from_terminates
{
    if i < 0 || i >= s.len() {
        seq![s.len() as int]
    } else {
        let c = s[i];
        match char_class(c) {
            None => starts_from(s, i + 1),
            Some(k) => if k == TokenType::QMARK {
                let e = find_from(s, i + 1, '"');
                if e < s.len() {
                    seq![i] + starts_from(s, e + 1)
                } else {
                    seq![i] + starts_from(s, e)
                }
            } else if k == TokenType::SLASH && i + 1 < s.len() && s[i + 1] == '/' {
                let e = find_from(s, i + 2, '\n');
                if e < s.len() {
                    starts_from(s, e + 1)
                } else {
                    starts_from(s, e)
                }
            } else if with_equal(k) is Some && i + 1 < s.len() && s[i + 1] == '=' {
                seq![i] + starts_from(s, i + 2)
            } else {
                seq![i] + starts_from(s, i + 1)
            },
        }
    }
}

/// The index in the source at which each token of `scan(s)` starts.
pub open spec fn token_starts(s: Seq<char>) -> Seq<int> {
    starts_from(s, 0)
}

/// Where the scanner next reads a fresh character after reading one at `i`:
/// past the character, past a two-character operator, past a closed string
/// literal or past a comment's line break (or at the end of the text).
pub open spec fn next_pos(s: Seq<char>, i: int) -> int {
    let c = s[i];
    match char_class(c) {
        None => i + 1,
        Some(k) => if k == TokenType::QMARK {
            let e = find_from(s, i + 1, '"');
            if e < s.len() {
                e + 1
            } else {
                e
            }
        } else if k == TokenType::SLASH && i + 1 < s.len() && s[i + 1] == '/' {
            let e = find_from(s, i + 2, '\n');
            if e < s.len() {
                e + 1
            } else {
                e
            }
        } else if with_equal(k) is Some && i + 1 < s.len() && s[i + 1] == '=' {
            i + 2
        } else {
            i + 1
        },
    }
}

/// Whether reading the character at `i` produces a token: every character
/// but whitespace, line breaks and the start of a comment does.
pub open spec fn emits(s: Seq<char>, i: int) -> bool {
    &&& char_class(s[i]) is Some
    &&& !(char_class(s[i]) == Some(TokenType::SLASH) && i + 1 < s.len() && s[i + 1] == '/')
}

#[via_fn]
proof fn read_from_terminates(s: Seq<char>, i: int, p: int) {
    if 0 <= i < s.len() {
        lemma_find_from_bounds(s, i + 1, '"');
        lemma_find_from_bounds(s, i + 2, '\n');
    }
}

/// Whether the scanner, started at `i`, reads a fresh character at `p`: that
/// is, `p` lies neither inside a string literal or a comment nor on the `=` of
/// a two-character operator.
pub open spec fn read_from(s: Seq<char>, i: int, p: int) -> bool
    decreases s.len() - i via read_from_terminates
{
    if i < 0 || i >= s.len() {
        false
    } else {
        p == i || read_from(s, next_pos(s, i), p)
    }
}

/// Whether scanning the whole text reads a fresh character at `p`.
pub open spec fn is_read_point(s: Seq<char>, p: int) -> bool {
    read_from(s, 0, p)
}

/// `p` holds a character that starts no token.
pub open spec fn unexpected_at(s: Seq<char>, p: int) -> bool {
    char_class(s[p]) == Some(TokenType::LEXICAL_ERROR)
}

/// `p` holds a double quote that no later double quote closes.
pub open spec fn unclosed_at(s: Seq<char>, p: int) -> bool {
    s[p] == '"' && find_from(s, p + 1, '"') == s.len()
}

} // verus!
