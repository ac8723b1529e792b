use vstd::prelude::*;

use crate::grammar::{
    char_class, emits, eof_at, find_from, is_read_point, lemma_find_from_bounds, newlines,
    next_pos, read_from, scan, scan_from, starts_from, token_starts, unclosed_at, unexpected_at,
    with_equal,
};
use crate::report::{exit_code, has_error};
use crate::token::TokenType;

verus! {

proof fn lemma_newlines_split(s: Seq<char>, lo: int, mid: int, hi: int)
    requires
        lo <= mid <= hi,
    ensures
        newlines(s, lo, hi) == newlines(s, lo, mid) + newlines(s, mid, hi),
    decreases hi - mid,
{
    if hi > mid {
        lemma_newlines_split(s, lo, mid, hi - 1);
    }
}

proof fn lemma_newlines_none(s: Seq<char>, lo: int, hi: int)
    requires
        lo <= hi,
        forall|k: int| lo <= k < hi ==> s[k] != '\n',
    ensures
        newlines(s, lo, hi) == 0,
    decreases hi - lo,
{
    if hi > lo {
        lemma_newlines_none(s, lo, hi - 1);
    }
}

proof fn lemma_newlines_one(s: Seq<char>, i: int)
    ensures
        newlines(s, i, i + 1) == if s[i] == '\n' { 1int } else { 0 },
{
    assert(newlines(s, i, i) == 0);
}

/// Scanning from any position ends with exactly one end-of-input token, whose
/// line counts every line break from that position on.
proof fn lemma_eof_from(s: Seq<char>, i: int, line: int)
    requires
        0 <= i <= s.len(),
    ensures
        scan_from(s, i, line).len() >= 1,
        scan_from(s, i, line).last() == eof_at(line + newlines(s, i, s.len() as int)),
        forall|k: int|
            0 <= k < scan_from(s, i, line).len() - 1 ==> #[trigger] scan_from(s, i, line)[k].kind
                != TokenType::EOF,
    decreases s.len() - i,
{
    let r = scan_from(s, i, line);
    if i < s.len() {
        let c = s[i];
        let n = s.len() as int;
        lemma_newlines_split(s, i, i + 1, n);
        lemma_newlines_one(s, i);
        match char_class(c) {
            None => {
                lemma_eof_from(s, i + 1, if c == '\n' { line + 1 } else { line });
            },
            Some(k) => {
                if k == TokenType::QMARK {
                    let e = find_from(s, i + 1, '"');
                    lemma_find_from_bounds(s, i + 1, '"');
                    lemma_newlines_split(s, i + 1, e, n);
                    if e < n {
                        lemma_newlines_split(s, e, e + 1, n);
                        lemma_newlines_one(s, e);
                        lemma_eof_from(s, e + 1, line + newlines(s, i + 1, e));
                    } else {
                        lemma_eof_from(s, e, line + newlines(s, i + 1, e));
                    }
                    let rest = if e < n { scan_from(s, e + 1, line + newlines(s, i + 1, e)) } else { scan_from(s, e, line + newlines(s, i + 1, e)) };
                    assert(r == seq![r[0]] + rest);
                    assert forall|k: int| 0 <= k < r.len() - 1 implies #[trigger] r[k].kind != TokenType::EOF by {
                        if k > 0 {
                            assert(r[k] == rest[k - 1]);
                        }
                    }
                } else if k == TokenType::SLASH && i + 1 < n && s[i + 1] == '/' {
                    let e = find_from(s, i + 2, '\n');
                    lemma_find_from_bounds(s, i + 2, '\n');
                    lemma_newlines_split(s, i + 1, i + 2, n);
                    lemma_newlines_one(s, i + 1);
                    lemma_newlines_split(s, i + 2, e, n);
                    lemma_newlines_none(s, i + 2, e);
                    if e < n {
                        lemma_newlines_split(s, e, e + 1, n);
                        lemma_newlines_one(s, e);
                        lemma_eof_from(s, e + 1, line + 1);
                    } else {
                        lemma_eof_from(s, e, line);
                    }
                } else if with_equal(k) is Some && i + 1 < n && s[i + 1] == '=' {
                    lemma_newlines_split(s, i + 1, i + 2, n);
                    lemma_newlines_one(s, i + 1);
                    lemma_eof_from(s, i + 2, line);
                    let rest = scan_from(s, i + 2, line);
                    assert forall|k: int| 0 <= k < r.len() - 1 implies #[trigger] r[k].kind != TokenType::EOF by {
                        if k > 0 {
                            assert(r[k] == rest[k - 1]);
                        }
                    }
                } else {
                    lemma_eof_from(s, i + 1, line);
                    let rest = scan_from(s, i + 1, line);
                    assert forall|k: int| 0 <= k < r.len() - 1 implies #[trigger] r[k].kind != TokenType::EOF by {
                        if k > 0 {
                            assert(r[k] == rest[k - 1]);
                        }
                    }
                }
            },
        }
    }
}

/// Every scan ends with exactly one end-of-input token: its lexeme is empty,
/// its line is one more than the number of line breaks in the whole text, and
/// no token before it is an end-of-input token.
pub proof fn lemma_single_eof(s: Seq<char>)
    ensures
        scan(s).len() >= 1,
        scan(s).last().kind == TokenType::EOF,
        scan(s).last().lexeme.len() == 0,
        scan(s).last().line == newlines(s, 0, s.len() as int) + 1,
        forall|k: int| 0 <= k < scan(s).len() - 1 ==> #[trigger] scan(s)[k].kind != TokenType::EOF,
{
    lemma_eof_from(s, 0, 1);
}

/// Scanning is a function of the text alone: equal texts give equal token
/// sequences, kind for kind, lexeme for lexeme, line for line.
pub proof fn lemma_scan_deterministic(a: Seq<char>, b: Seq<char>)
    requires
        a == b,
    ensures
        scan(a) == scan(b),
        token_starts(a) == token_starts(b),
{
}

/// Each token read from position `i` starts at an index from `i` to the end of
/// the text, its lexeme is the text found there, and its line is `line` plus
/// the line breaks between `i` and that index.
proof fn lemma_positions_from(s: Seq<char>, i: int, line: int, k: int)
    requires
        0 <= i <= s.len(),
        0 <= k < scan_from(s, i, line).len(),
    ensures
        starts_from(s, i).len() == scan_from(s, i, line).len(),
        i <= starts_from(s, i)[k] <= s.len(),
        scan_from(s, i, line)[k].line == line + newlines(s, i, starts_from(s, i)[k]),
        scan_from(s, i, line)[k].lexeme == s.subrange(
            starts_from(s, i)[k],
            starts_from(s, i)[k] + scan_from(s, i, line)[k].lexeme.len(),
        ),
    decreases s.len() - i,
{
    let r = scan_from(s, i, line);
    let p = starts_from(s, i);
    let n = s.len() as int;
    if i < n {
        let c = s[i];
        lemma_newlines_one(s, i);
        match char_class(c) {
            None => {
                let l2 = if c == '\n' { line + 1 } else { line };
                lemma_positions_from(s, i + 1, l2, k);
                lemma_newlines_split(s, i, i + 1, p[k]);
            },
            Some(kind) => {
                if kind == TokenType::QMARK {
                    let e = find_from(s, i + 1, '"');
                    lemma_find_from_bounds(s, i + 1, '"');
                    let after = line + newlines(s, i + 1, e);
                    let j = if e < n { e + 1 } else { e };
                    lemma_eof_from(s, j, after);
                    if k == 0 {
                        lemma_positions_from(s, j, after, 0);
                        assert(r[0].lexeme =~= s.subrange(i, i + r[0].lexeme.len()));
                    } else {
                        lemma_positions_from(s, j, after, k - 1);
                        assert(r[k] == scan_from(s, j, after)[k - 1]);
                        assert(p[k] == starts_from(s, j)[k - 1]);
                        lemma_newlines_split(s, i, i + 1, p[k]);
                        lemma_newlines_split(s, i + 1, e, p[k]);
                        if e < n {
                            lemma_newlines_split(s, e, e + 1, p[k]);
                            lemma_newlines_one(s, e);
                        }
                    }
                    lemma_positions_from(s, j, after, 0);
                } else if kind == TokenType::SLASH && i + 1 < n && s[i + 1] == '/' {
                    let e = find_from(s, i + 2, '\n');
                    lemma_find_from_bounds(s, i + 2, '\n');
                    if e < n {
                        lemma_positions_from(s, e + 1, line + 1, k);
                        lemma_newlines_split(s, e, e + 1, p[k]);
                        lemma_newlines_one(s, e);
                    } else {
                        lemma_positions_from(s, e, line, k);
                    }
                    lemma_newlines_split(s, i, i + 1, p[k]);
                    lemma_newlines_split(s, i + 1, i + 2, p[k]);
                    lemma_newlines_one(s, i + 1);
                    lemma_newlines_split(s, i + 2, e, p[k]);
                    lemma_newlines_none(s, i + 2, e);
                } else {
                    let w = with_equal(kind) is Some && i + 1 < n && s[i + 1] == '=';
                    let j = if w { i + 2 } else { i + 1 };
                    lemma_eof_from(s, j, line);
                    if k == 0 {
                        lemma_positions_from(s, j, line, 0);
                        assert(r[0].lexeme =~= s.subrange(i, i + r[0].lexeme.len()));
                    } else {
                        lemma_positions_from(s, j, line, k - 1);
                        assert(r[k] == scan_from(s, j, line)[k - 1]);
                        assert(p[k] == starts_from(s, j)[k - 1]);
                        lemma_newlines_split(s, i, i + 1, p[k]);
                        if w {
                            lemma_newlines_split(s, i + 1, i + 2, p[k]);
                            lemma_newlines_one(s, i + 1);
                        }
                    }
                    lemma_positions_from(s, j, line, 0);
                }
            },
        }
    } else {
        assert(s.subrange(n, n) =~= Seq::<char>::empty());
    }
}

/// Every token's line is one more than the number of line breaks that come
/// before its first character, and its lexeme is the text that starts there
/// (the end-of-input token starts just past the last character).
pub proof fn lemma_line_numbers(s: Seq<char>, k: int)
    requires
        0 <= k < scan(s).len(),
    ensures
        token_starts(s).len() == scan(s).len(),
        0 <= token_starts(s)[k] <= s.len(),
        scan(s)[k].line == newlines(s, 0, token_starts(s)[k]) + 1,
        scan(s)[k].lexeme == s.subrange(
            token_starts(s)[k],
            token_starts(s)[k] + scan(s)[k].lexeme.len(),
        ),
{
    lemma_positions_from(s, 0, 1, k);
}

/// One step of the scanner: reading at `i` yields at most one token, which
/// starts at `i`, and scanning goes on from `next_pos(s, i)`.
proof fn lemma_step(s: Seq<char>, i: int, line: int)
    requires
        0 <= i < s.len(),
    ensures
        i < next_pos(s, i) <= s.len(),
        emits(s, i) ==> scan_from(s, i, line) == seq![scan_from(s, i, line)[0]] + scan_from(
            s,
            next_pos(s, i),
            line + newlines(s, i, next_pos(s, i)),
        ),
        emits(s, i) ==> starts_from(s, i) == seq![i] + starts_from(s, next_pos(s, i)),
        emits(s, i) ==> scan_from(s, i, line)[0].line == line,
        emits(s, i) && unclosed_at(s, i) ==> next_pos(s, i) == s.len(),
        emits(s, i) ==> scan_from(s, i, line)[0].kind != TokenType::QMARK,
        emits(s, i) ==> scan_from(s, i, line)[0].kind != TokenType::EOF,
        emits(s, i) ==> (scan_from(s, i, line)[0].lexeme.len() == 0 <==> scan_from(s, i, line)[0].kind
            == TokenType::UNTERM_STR),
        emits(s, i) ==> (scan_from(s, i, line)[0].kind == TokenType::LEXICAL_ERROR <==> unexpected_at(s, i)),
        emits(s, i) ==> (scan_from(s, i, line)[0].kind == TokenType::UNTERM_STR <==> unclosed_at(s, i)),
        !emits(s, i) ==> scan_from(s, i, line) == scan_from(
            s,
            next_pos(s, i),
            line + newlines(s, i, next_pos(s, i)),
        ),
        !emits(s, i) ==> starts_from(s, i) == starts_from(s, next_pos(s, i)),
{
    let n = s.len() as int;
    let c = s[i];
    let j = next_pos(s, i);
    lemma_find_from_bounds(s, i + 1, '"');
    lemma_find_from_bounds(s, i + 2, '\n');
    lemma_newlines_one(s, i);
    lemma_newlines_split(s, i, i + 1, j);
    match char_class(c) {
        None => {},
        Some(k) => {
            if k == TokenType::QMARK {
                let e = find_from(s, i + 1, '"');
                if e < n {
                    lemma_newlines_split(s, i + 1, e, e + 1);
                    lemma_newlines_one(s, e);
                }
            } else if k == TokenType::SLASH && i + 1 < n && s[i + 1] == '/' {
                let e = find_from(s, i + 2, '\n');
                lemma_newlines_split(s, i + 1, i + 2, j);
                lemma_newlines_one(s, i + 1);
                lemma_newlines_split(s, i + 2, e, j);
                lemma_newlines_none(s, i + 2, e);
                if e < n {
                    lemma_newlines_split(s, e, e + 1, j);
                    lemma_newlines_one(s, e);
                }
            } else if with_equal(k) is Some && i + 1 < n && s[i + 1] == '=' {
                lemma_newlines_split(s, i + 1, i + 2, j);
                lemma_newlines_one(s, i + 1);
            }
        },
    }
}

/// Each error token read from `i` starts at a point where the scanner reads
/// a fresh character, and that character is what the error says it is.
proof fn lemma_error_source(s: Seq<char>, i: int, line: int, k: int)
    requires
        0 <= i <= s.len(),
        0 <= k < scan_from(s, i, line).len(),
        scan_from(s, i, line)[k].kind.is_error(),
    ensures
        k < starts_from(s, i).len(),
        read_from(s, i, starts_from(s, i)[k]),
        scan_from(s, i, line)[k].kind == TokenType::LEXICAL_ERROR ==> unexpected_at(
            s,
            starts_from(s, i)[k],
        ),
        scan_from(s, i, line)[k].kind == TokenType::UNTERM_STR ==> unclosed_at(
            s,
            starts_from(s, i)[k],
        ),
        scan_from(s, i, line)[k].kind == TokenType::UNTERM_STR ==> k == scan_from(s, i, line).len()
            - 2,
    decreases s.len() - i,
{
    if i < s.len() {
        lemma_step(s, i, line);
        let j = next_pos(s, i);
        let l2 = line + newlines(s, i, j);
        if emits(s, i) {
            if k > 0 {
                assert(scan_from(s, i, line)[k] == scan_from(s, j, l2)[k - 1]);
                lemma_error_source(s, j, l2, k - 1);
                assert(starts_from(s, i)[k] == starts_from(s, j)[k - 1]);
            }
        } else {
            lemma_error_source(s, j, l2, k);
        }
    }
}

/// Each point where the scanner reads a fresh character that starts no
/// token, or an opening quote that is never closed, gives an error token
/// there.
proof fn lemma_fault_reported(s: Seq<char>, i: int, line: int, p: int)
    requires
        0 <= i,
        read_from(s, i, p),
        unexpected_at(s, p) || unclosed_at(s, p),
    ensures
        exists|k: int|
            0 <= k < scan_from(s, i, line).len() && k < starts_from(s, i).len()
                && starts_from(s, i)[k] == p && (#[trigger] scan_from(s, i, line)[k]).kind == (
            if unexpected_at(s, p) {
                TokenType::LEXICAL_ERROR
            } else {
                TokenType::UNTERM_STR
            }),
    decreases s.len() - i,
{
    lemma_step(s, i, line);
    let j = next_pos(s, i);
    let l2 = line + newlines(s, i, j);
    let want = if unexpected_at(s, p) { TokenType::LEXICAL_ERROR } else { TokenType::UNTERM_STR };
    lemma_eof_from(s, j, l2);
    if p == i {
        assert(emits(s, i));
        assert(scan_from(s, i, line)[0].kind == want);
    } else {
        lemma_fault_reported(s, j, l2, p);
        let k2 = choose|k: int|
            0 <= k < scan_from(s, j, l2).len() && k < starts_from(s, j).len()
                && starts_from(s, j)[k] == p && (#[trigger] scan_from(s, j, l2)[k]).kind == want;
        if emits(s, i) {
            assert(scan_from(s, i, line)[k2 + 1] == scan_from(s, j, l2)[k2]);
            assert(starts_from(s, i)[k2 + 1] == starts_from(s, j)[k2]);
        } else {
            assert(scan_from(s, i, line)[k2] == scan_from(s, j, l2)[k2]);
        }
    }
}

/// Where no point at which the scanner reads a fresh character holds a
/// character that starts no token or an opening quote that is never closed,
/// the scan succeeds: no error token, exit status 0.
pub proof fn lemma_clean_input_succeeds(s: Seq<char>)
    requires
        forall|p: int| is_read_point(s, p) ==> !unexpected_at(s, p) && !unclosed_at(s, p),
    ensures
        !has_error(scan(s)),
        exit_code(scan(s)) == 0,
{
    if has_error(scan(s)) {
        let k = choose|k: int| 0 <= k < scan(s).len() && (#[trigger] scan(s)[k]).kind.is_error();
        lemma_error_source(s, 0, 1, k);
    }
}

/// Where a point at which the scanner reads a fresh character holds a
/// character that starts no token, or an opening quote that is never closed,
/// the scan fails with exit status 65, and that point has its own error token:
/// an unexpected-character token or an unterminated-string token that starts
/// there.
pub proof fn lemma_faulty_input_fails(s: Seq<char>, p: int)
    requires
        is_read_point(s, p),
        unexpected_at(s, p) || unclosed_at(s, p),
    ensures
        exit_code(scan(s)) == 65,
        exists|k: int|
            0 <= k < scan(s).len() && k < token_starts(s).len() && token_starts(s)[k] == p && (
            #[trigger] scan(s)[k]).kind == (if unexpected_at(s, p) {
                TokenType::LEXICAL_ERROR
            } else {
                TokenType::UNTERM_STR
            }),
{
    lemma_fault_reported(s, 0, 1, p);
    let k = choose|k: int|
        0 <= k < scan(s).len() && k < token_starts(s).len() && token_starts(s)[k] == p && (
        #[trigger] scan(s)[k]).kind == (if unexpected_at(s, p) {
            TokenType::LEXICAL_ERROR
        } else {
            TokenType::UNTERM_STR
        });
    assert(scan(s)[k].kind.is_error());
}

/// Every error token of a scan starts at a point where the scanner reads a
/// fresh character, and that point holds what the error reports: a character
/// that starts no token, or an opening quote that is never closed. An
/// unterminated string is followed by nothing but the end-of-input token.
pub proof fn lemma_errors_have_sources(s: Seq<char>, k: int)
    requires
        0 <= k < scan(s).len(),
        scan(s)[k].kind.is_error(),
    ensures
        k < token_starts(s).len(),
        is_read_point(s, token_starts(s)[k]),
        scan(s)[k].kind == TokenType::LEXICAL_ERROR ==> unexpected_at(s, token_starts(s)[k]),
        scan(s)[k].kind == TokenType::UNTERM_STR ==> unclosed_at(s, token_starts(s)[k]),
        scan(s)[k].kind == TokenType::UNTERM_STR ==> k == scan(s).len() - 2,
{
    lemma_error_source(s, 0, 1, k);
}

proof fn lemma_newlines_nonneg(s: Seq<char>, lo: int, hi: int)
    ensures
        newlines(s, lo, hi) >= 0,
    decreases hi - lo,
{
    if hi > lo {
        lemma_newlines_nonneg(s, lo, hi - 1);
    }
}

proof fn lemma_well_formed_from(s: Seq<char>, i: int, line: int)
    requires
        0 <= i <= s.len(),
    ensures
        forall|a: int, b: int|
            0 <= a <= b < scan_from(s, i, line).len() ==> line <= #[trigger] scan_from(s, i, line)[a].line
                <= #[trigger] scan_from(s, i, line)[b].line,
        forall|a: int|
            0 <= a < scan_from(s, i, line).len() ==> (#[trigger] scan_from(s, i, line)[a]).kind
                != TokenType::QMARK,
        forall|a: int|
            0 <= a < scan_from(s, i, line).len() ==> ((#[trigger] scan_from(s, i, line)[a]).lexeme.len()
                == 0 <==> (scan_from(s, i, line)[a].kind == TokenType::UNTERM_STR
                || scan_from(s, i, line)[a].kind == TokenType::EOF)),
    decreases s.len() - i,
{
    let r = scan_from(s, i, line);
    if i < s.len() {
        lemma_step(s, i, line);
        let j = next_pos(s, i);
        let l2 = line + newlines(s, i, j);
        lemma_newlines_nonneg(s, i, j);
        lemma_well_formed_from(s, j, l2);
        let rest = scan_from(s, j, l2);
        if emits(s, i) {
            assert forall|a: int| 0 < a < r.len() implies #[trigger] r[a] == rest[a - 1] by {}
            assert forall|a: int, b: int| 0 <= a <= b < r.len() implies line <= #[trigger] r[a].line
                <= #[trigger] r[b].line by {
                if a > 0 {
                    assert(r[a] == rest[a - 1]);
                }
                if b > 0 {
                    assert(r[b] == rest[b - 1]);
                }
            }
        }
    }
}

/// The shape of every scan: lines never decrease from one token to the next
/// and start at 1; no token is an opening-quote marker; and a token's lexeme
/// is empty exactly when it is the end-of-input token or an unterminated
/// string.
pub proof fn lemma_scan_well_formed(s: Seq<char>)
    ensures
        forall|a: int, b: int|
            0 <= a <= b < scan(s).len() ==> 1 <= #[trigger] scan(s)[a].line
                <= #[trigger] scan(s)[b].line,
        forall|a: int| 0 <= a < scan(s).len() ==> (#[trigger] scan(s)[a]).kind != TokenType::QMARK,
        forall|a: int|
            0 <= a < scan(s).len() ==> ((#[trigger] scan(s)[a]).lexeme.len() == 0 <==> (
            scan(s)[a].kind == TokenType::UNTERM_STR || scan(s)[a].kind == TokenType::EOF)),
{
    lemma_well_formed_from(s, 0, 1);
}

} // verus!
