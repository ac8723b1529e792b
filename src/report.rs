use vstd::prelude::*;

use crate::lexer::{views, Lexer};
use crate::token::{kind_name, push_char, Token, TokenType, TokenView};

verus! {

/// The decimal digit for `d`, which is below ten.
pub open spec fn digit_char(d: nat) -> char {
    if d == 0 {
        '0'
    } else if d == 1 {
        '1'
    } else if d == 2 {
        '2'
    } else if d == 3 {
        '3'
    } else if d == 4 {
        '4'
    } else if d == 5 {
        '5'
    } else if d == 6 {
        '6'
    } else if d == 7 {
        '7'
    } else if d == 8 {
        '8'
    } else {
        '9'
    }
}

/// The decimal digits of `n`, most significant first, with no leading zeros.
pub open spec fn decimal(n: nat) -> Seq<char>
    decreases n,
{
    if n < 10 {
        seq![digit_char(n)]
    } else {
        decimal(n / 10).push(digit_char(n % 10))
    }
}

/// The decimal text of `n`, with a leading `-` when it is negative.
pub open spec fn int_text(n: int) -> Seq<char> {
    if n < 0 {
        seq!['-'] + decimal((-n) as nat)
    } else {
        decimal(n as nat)
    }
}

/// A recognized token as it is listed: kind, lexeme and secondary value,
/// separated by single spaces.
pub open spec fn token_text(t: TokenView) -> Seq<char> {
    kind_name(t.kind) + seq![' '] + t.lexeme + seq![' '] + t.appendix
}

/// The diagnostic for an error token.
pub open spec fn error_text(t: TokenView) -> Seq<char> {
    if t.kind == TokenType::LEXICAL_ERROR {
        "[line "@ + int_text(t.line) + "] Error: Unexpected character: "@ + t.lexeme
    } else {
        "[line "@ + int_text(t.line) + "] Error: Unterminated string."@
    }
}

/// The listed tokens: those that are neither errors nor end-of-input
/// tokens, one line each, in order.
pub open spec fn token_lines(ts: Seq<TokenView>) -> Seq<Seq<char>>
    decreases ts.len(),
{
    if ts.len() == 0 {
        Seq::empty()
    } else if ts.last().kind.is_error() || ts.last().kind == TokenType::EOF {
        token_lines(ts.drop_last())
    } else {
        token_lines(ts.drop_last()).push(token_text(ts.last()))
    }
}

/// The whole listing: the listed tokens, then the closing `EOF  null` line.
pub open spec fn out_lines(ts: Seq<TokenView>) -> Seq<Seq<char>> {
    token_lines(ts).push("EOF  null"@)
}

/// The diagnostics for the tokens of kind `kind`, in order.
pub open spec fn diagnostics_of(ts: Seq<TokenView>, kind: TokenType) -> Seq<Seq<char>>
    decreases ts.len(),
{
    if ts.len() == 0 {
        Seq::empty()
    } else if ts.last().kind == kind {
        diagnostics_of(ts.drop_last(), kind).push(error_text(ts.last()))
    } else {
        diagnostics_of(ts.drop_last(), kind)
    }
}

/// All diagnostics: every unexpected character first, then every unterminated string.
pub open spec fn err_lines(ts: Seq<TokenView>) -> Seq<Seq<char>> {
    diagnostics_of(ts, TokenType::LEXICAL_ERROR) + diagnostics_of(ts, TokenType::UNTERM_STR)
}

/// Whether any token is an error token.
pub open spec fn has_error(ts: Seq<TokenView>) -> bool {
    exists|k: int| 0 <= k < ts.len() && (#[trigger] ts[k]).kind.is_error()
}

/// The exit status of a scan: 65 when an error token occurs, 0 otherwise.
pub open spec fn exit_code(ts: Seq<TokenView>) -> int {
    if has_error(ts) {
        65
    } else {
        0
    }
}

/// The character views of a sequence of strings.
pub open spec fn texts(v: Seq<String>) -> Seq<Seq<char>> {
    v.map_values(|s: String| s@)
}

fn digit(d: u32) -> (c: char)
    requires
        d < 10,
    ensures
        c == digit_char(d as nat),
{
    if d == 0 {
        '0'
    } else if d == 1 {
        '1'
    } else if d == 2 {
        '2'
    } else if d == 3 {
        '3'
    } else if d == 4 {
        '4'
    } else if d == 5 {
        '5'
    } else if d == 6 {
        '6'
    } else if d == 7 {
        '7'
    } else if d == 8 {
        '8'
    } else {
        '9'
    }
}

fn push_decimal(out: &mut String, n: u32)
    ensures
        final(out)@ == old(out)@ + decimal(n as nat),
    decreases n,
{
    if n >= 10 {
        push_decimal(out, n / 10);
    }
    push_char(out, digit(n % 10));
    assert(final(out)@ =~= old(out)@ + decimal(n as nat));
}

fn push_int(out: &mut String, n: i32)
    ensures
        final(out)@ == old(out)@ + int_text(n as int),
{
    if n < 0 {
        push_char(out, '-');
        let m: i64 = -(n as i64);
        push_decimal(out, m as u32);
        assert(final(out)@ =~= old(out)@ + int_text(n as int));
    } else {
        push_decimal(out, n as u32);
    }
}

impl Token {
    /// The token as it is listed: kind, lexeme and secondary value, separated
    /// by single spaces.
    pub fn to_text(&self) -> (r: String)
        ensures
            r@ == token_text(self@),
    {
        let mut s = String::new();
        s.append(self.token_type.name());
        push_char(&mut s, ' ');
        s.append(self.lexeme.as_str());
        push_char(&mut s, ' ');
        s.append(self.appendix.as_str());
        assert(s@ =~= token_text(self@));
        s
    }

    /// The diagnostic for an error token.
    pub fn error_message(&self) -> (r: String)
        requires
            self@.kind.is_error(),
        ensures
            r@ == error_text(self@),
    {
        let mut s = String::new();
        s.append("[line ");
        push_int(&mut s, self.line);
        if self.token_type == TokenType::LEXICAL_ERROR {
            s.append("] Error: Unexpected character: ");
            s.append(self.lexeme.as_str());
        } else {
            s.append("] Error: Unterminated string.");
        }
        assert(s@ =~= error_text(self@));
        s
    }
}

impl Lexer {
    /// Splits a scan's tokens into what is listed and what is diagnosed, and
    /// gives the exit status: the listing of the tokens that are neither
    /// errors nor end-of-input tokens, always closed by `EOF  null`; the
    /// diagnostics of the error tokens (unexpected characters first), and
    /// 65 when an error occurred, 0 otherwise.
    pub fn report(tokens: &Vec<Token>) -> (r: (Vec<String>, Vec<String>, i32))
        ensures
            texts(r.0@) == out_lines(views(tokens@)),
            texts(r.1@) == err_lines(views(tokens@)),
            r.2 as int == exit_code(views(tokens@)),
    {
        let ghost all = views(tokens@);
        let mut out: Vec<String> = Vec::new();
        let mut unexpected: Vec<String> = Vec::new();
        let mut unterminated: Vec<String> = Vec::new();
        let mut error_code: i32 = 0;
        let mut i: usize = 0;
        while i < tokens.len()
            invariant
                i <= tokens.len(),
                all == views(tokens@),
                texts(out@) == token_lines(all.subrange(0, i as int)),
                texts(unexpected@) == diagnostics_of(all.subrange(0, i as int), TokenType::LEXICAL_ERROR),
                texts(unterminated@) == diagnostics_of(all.subrange(0, i as int), TokenType::UNTERM_STR),
                error_code as int == exit_code(all.subrange(0, i as int)),
            decreases tokens.len() - i,
        {
            let t = &tokens[i];
            let ghost prefix = all.subrange(0, i as int);
            let ghost next = all.subrange(0, i + 1);
            assert(next.drop_last() =~= prefix);
            assert(next.last() == t@);
            if t.token_type == TokenType::LEXICAL_ERROR {
                let line = t.error_message();
                proof {
                    assert(texts(unexpected@.push(line)) =~= texts(unexpected@).push(line@));
                }
                unexpected.push(line);
                error_code = 65;
            } else if t.token_type == TokenType::UNTERM_STR {
                let line = t.error_message();
                proof {
                    assert(texts(unterminated@.push(line)) =~= texts(unterminated@).push(line@));
                }
                unterminated.push(line);
                error_code = 65;
            } else if t.token_type != TokenType::EOF {
                let line = t.to_text();
                proof {
                    assert(texts(out@.push(line)) =~= texts(out@).push(line@));
                }
                out.push(line);
            }
            proof {
                if t@.kind.is_error() {
                    assert(next[i as int] == t@);
                } else if has_error(next) {
                    let k = choose|k: int| 0 <= k < next.len() && (#[trigger] next[k]).kind.is_error();
                    assert(prefix[k] == next[k]);
                }
            }
            i = i + 1;
        }
        assert(all.subrange(0, tokens.len() as int) =~= all);
        let mut last = String::new();
        last.append("EOF  null");
        proof {
            assert(last@ =~= "EOF  null"@);
            assert(texts(out@.push(last)) =~= texts(out@).push(last@));
        }
        out.push(last);
        let ghost a = unexpected@;
        let ghost b = unterminated@;
        unexpected.append(&mut unterminated);
        assert(texts(a + b) =~= texts(a) + texts(b));
        (out, unexpected, error_code)
    }
}

} // verus!
