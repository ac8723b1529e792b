use vstd::prelude::*;

use crate::grammar::{char_class, eof_at, find_from, mk, newlines, scan, scan_from, with_equal};
use crate::token::{null_text, push_char, Token, TokenType, TokenView};

verus! {

/// The characters of `s`, in order.
fn chars_of(s: &str) -> (v: Vec<char>)
    ensures
        v@ == s@,
{
    let mut v: Vec<char> = Vec::new();
    for c in it: s.chars()
        invariant
            v@ == it.history(),
    {
        v.push(c);
    }
    v
}

/// The text `null`.
fn null_string() -> (r: String)
    ensures
        r@ == null_text(),
{
    let mut s = String::new();
    push_char(&mut s, 'n');
    push_char(&mut s, 'u');
    push_char(&mut s, 'l');
    push_char(&mut s, 'l');
    assert(s@ =~= null_text());
    s
}

/// The views of a sequence of tokens, in order.
pub open spec fn views(ts: Seq<Token>) -> Seq<TokenView> {
    ts.map_values(|t: Token| t@)
}

proof fn lemma_views_push(ts: Seq<Token>, t: Token, rest: Seq<TokenView>)
    ensures
        views(ts.push(t)) + rest == views(ts) + (seq![t@] + rest),
{
    assert(views(ts.push(t)) =~= views(ts).push(t@));
    assert(views(ts).push(t@) + rest =~= views(ts) + (seq![t@] + rest));
}

/// The two-character kind that `k` becomes when `=` follows it.
fn equal_form(k: TokenType) -> (r: Option<TokenType>)
    ensures
        r == with_equal(k),
{
    match k {
        TokenType::BANG => Some(TokenType::BANG_EQUAL),
        TokenType::EQUAL => Some(TokenType::EQUAL_EQUAL),
        TokenType::LESS => Some(TokenType::LESS_EQUAL),
        TokenType::GREATER => Some(TokenType::GREATER_EQUAL),
        _ => None,
    }
}

/// A scanner that turns source text into tokens, tracking the current line.
pub struct Lexer {
    line_nr: i32,
}

impl Default for Lexer {
    fn default() -> (r: Self)
        ensures
            r.line() == 1,
    {
        Self { line_nr: 1 }
    }
}

impl Lexer {
    /// The line the scanner stands on.
    pub closed spec fn line(&self) -> int {
        self.line_nr as int
    }

    /// A token of kind `k` on the current line whose lexeme is `first`,
    /// followed by `second` if there is one.
    fn token_here(&self, k: TokenType, first: char, second: Option<char>) -> (r: Token)
        ensures
            r@ == mk(
                k,
                match second {
                    Some(d) => seq![first, d],
                    None => seq![first],
                },
                null_text(),
                self.line(),
            ),
    {
        let mut lexeme = String::new();
        push_char(&mut lexeme, first);
        if let Some(d) = second {
            push_char(&mut lexeme, d);
        }
        assert(lexeme@ =~= match second {
            Some(d) => seq![first, d],
            None => seq![first],
        });
        Token::new(k, lexeme, null_string(), self.line_nr)
    }

    /// Classifies one character on its own. Whitespace and line breaks give no
    /// token; a line break moves the scanner to the next line.
    fn scan_char(&mut self, c: char) -> (r: Option<Token>)
        requires
            c == '\n' ==> old(self).line() < i32::MAX,
        ensures
            final(self).line() == old(self).line() + if c == '\n' { 1int } else { 0 },
            match char_class(c) {
                None => r is None,
                Some(k) => r matches Some(t) && t@ == mk(k, seq![c], null_text(), old(self).line()),
            },
    {
        let k = match c {
            '(' => TokenType::LEFT_PAREN,
            ')' => TokenType::RIGHT_PAREN,
            '{' => TokenType::LEFT_BRACE,
            '}' => TokenType::RIGHT_BRACE,
            '*' => TokenType::STAR,
            '.' => TokenType::DOT,
            ',' => TokenType::COMMA,
            '+' => TokenType::PLUS,
            '-' => TokenType::MINUS,
            ';' => TokenType::SEMICOLON,
            '=' => TokenType::EQUAL,
            '!' => TokenType::BANG,
            '<' => TokenType::LESS,
            '>' => TokenType::GREATER,
            '/' => TokenType::SLASH,
            '"' => TokenType::QMARK,
            '\n' => {
                self.line_nr = self.line_nr + 1;
                return None;
            },
            ' ' | '\t' | '\r' => {
                return None;
            },
            _ => TokenType::LEXICAL_ERROR,
        };
        Some(self.token_here(k, c, None))
    }
    /// Scans `file` from its first line to its end and returns every token read,
    /// error tokens included, closed by one end-of-input token. Scanning always
    /// starts on line 1, whatever line the scanner stood on before.
    pub fn lex(&mut self, file: &str) -> (tokens: Vec<Token>)
        requires
            file@.len() < i32::MAX,
        ensures
            views(tokens@) == scan(file@),
            final(self).line() == scan(file@).last().line,
    {
        let chars = chars_of(file);
        let n = chars.len();
        let ghost s = file@;
        self.line_nr = 1;
        let mut tokens: Vec<Token> = Vec::new();
        let mut i: usize = 0;
        assert(views(tokens@) + scan_from(s, 0, 1) =~= scan(s));
        while i < n
            invariant
                chars@ == s,
                n == s.len(),
                n < i32::MAX,
                i <= n,
                1 <= self.line() <= i + 1,
                views(tokens@) + scan_from(s, i as int, self.line()) == scan(s),
            decreases n - i,
        {
            let c = chars[i];
            let ghost i0 = i as int;
            let ghost line0 = self.line();
            let ghost before = tokens@;
            let next_is_equal = i + 1 < n && chars[i + 1] == '=';
            let next_is_slash = i + 1 < n && chars[i + 1] == '/';
            i = i + 1;
            if let Some(t) = self.scan_char(c) {
                let k = t.token_type;
                let wide = equal_form(k);
                if k == TokenType::QMARK {
                    // A string literal: read up to the closing quote or the end of input.
                    let start_line = self.line_nr;
                    let mut literal = String::new();
                    let mut lexeme = String::new();
                    push_char(&mut lexeme, c);
                    let mut j: usize = i;
                    while j < n && chars[j] != '"'
                        invariant
                            chars@ == s,
                            n == s.len(),
                            n < i32::MAX,
                            0 <= i0,
                            i0 + 1 <= j <= n,
                            s[i0] == '"',
                            find_from(s, i0 + 1, '"') == find_from(s, j as int, '"'),
                            literal@ == s.subrange(i0 + 1, j as int),
                            lexeme@ == s.subrange(i0, j as int),
                            start_line == line0,
                            self.line() == line0 + newlines(s, i0 + 1, j as int),
                            1 <= self.line() <= j,
                        decreases n - j,
                    {
                        let d = chars[j];
                        if d == '\n' {
                            self.line_nr = self.line_nr + 1;
                        }
                        push_char(&mut literal, d);
                        push_char(&mut lexeme, d);
                        j = j + 1;
                        assert(literal@ =~= s.subrange(i0 + 1, j as int));
                        assert(lexeme@ =~= s.subrange(i0, j as int));
                    }
                    if j < n {
                        push_char(&mut lexeme, '"');
                        assert(lexeme@ =~= s.subrange(i0, j + 1));
                        let tok = Token::new(TokenType::STRING, lexeme, literal, start_line);
                        proof {
                            lemma_views_push(before, tok, scan_from(s, j + 1, self.line()));
                        }
                        tokens.push(tok);
                        i = j + 1;
                    } else {
                        let tok = Token::new(TokenType::UNTERM_STR, String::new(), String::new(), start_line);
                        assert(tok@.lexeme =~= Seq::<char>::empty());
                        assert(tok@.appendix =~= Seq::<char>::empty());
                        proof {
                            lemma_views_push(before, tok, scan_from(s, j as int, self.line()));
                        }
                        tokens.push(tok);
                        i = j;
                    }
                } else if k == TokenType::SLASH && next_is_slash {
                    // A comment: skip through the end of the line.
                    let mut j: usize = i + 1;
                    while j < n && chars[j] != '\n'
                        invariant
                            chars@ == s,
                            n == s.len(),
                            0 <= i0,
                            i0 + 2 <= j <= n,
                            find_from(s, i0 + 2, '\n') == find_from(s, j as int, '\n'),
                        decreases n - j,
                    {
                        j = j + 1;
                    }
                    if j < n {
                        self.line_nr = self.line_nr + 1;
                        i = j + 1;
                    } else {
                        i = j;
                    }
                } else if next_is_equal && wide.is_some() {
                    let tok = self.token_here(wide.unwrap(), c, Some('='));
                    proof {
                        lemma_views_push(before, tok, scan_from(s, i0 + 2, line0));
                    }
                    tokens.push(tok);
                    i = i + 1;
                } else {
                    proof {
                        lemma_views_push(before, t, scan_from(s, i0 + 1, line0));
                    }
                    tokens.push(t);
                }
            }
        }
        let eof = Token::new(TokenType::EOF, String::new(), null_string(), self.line_nr);
        assert(eof@ == eof_at(self.line())) by {
            assert(eof@.lexeme =~= Seq::<char>::empty());
        }
        proof {
            lemma_views_push(tokens@, eof, Seq::empty());
            assert(seq![eof@] + Seq::<TokenView>::empty() =~= seq![eof@]);
            assert(views(tokens@.push(eof)) == scan(s));
        }
        tokens.push(eof);
        tokens
    }
}

} // verus!
