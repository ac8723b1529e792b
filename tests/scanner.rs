use lox_scanner::lexer::Lexer;
use lox_scanner::token::{Token, TokenType};

fn scan(src: &str) -> (Vec<Token>, Vec<String>, Vec<String>, i32) {
    let mut lexer = Lexer::default();
    let tokens = lexer.lex(src);
    let (out, err, code) = Lexer::report(&tokens);
    (tokens, out, err, code)
}

fn kinds(tokens: &[Token]) -> Vec<TokenType> {
    tokens.iter().map(|t| t.token_type).collect()
}

#[test]
fn parentheses_and_braces() {
    let (tokens, out, err, code) = scan("(()){}");
    assert_eq!(
        out,
        vec![
            "LEFT_PAREN ( null",
            "LEFT_PAREN ( null",
            "RIGHT_PAREN ) null",
            "RIGHT_PAREN ) null",
            "LEFT_BRACE { null",
            "RIGHT_BRACE } null",
            "EOF  null",
        ]
    );
    assert!(err.is_empty());
    assert_eq!(code, 0);
    assert_eq!(tokens.len(), 7);
    assert!(tokens.iter().all(|t| t.line == 1));
}

#[test]
fn equal_equal() {
    let (_, out, err, code) = scan("==");
    assert_eq!(out, vec!["EQUAL_EQUAL == null", "EOF  null"]);
    assert!(err.is_empty());
    assert_eq!(code, 0);
}

#[test]
fn bang_equal_then_equal() {
    let (_, out, _, code) = scan("!==");
    assert_eq!(out, vec!["BANG_EQUAL != null", "EQUAL = null", "EOF  null"]);
    assert_eq!(code, 0);
}

#[test]
fn one_character_operators_without_equal() {
    let (tokens, _, _, code) = scan("!<>=/");
    assert_eq!(
        kinds(&tokens),
        vec![
            TokenType::BANG,
            TokenType::LESS,
            TokenType::GREATER_EQUAL,
            TokenType::SLASH,
            TokenType::EOF
        ]
    );
    assert_eq!(tokens[2].lexeme, ">=");
    assert_eq!(code, 0);
}

#[test]
fn all_single_character_tokens() {
    let (tokens, _, _, _) = scan("(){},.-+;*");
    assert_eq!(
        kinds(&tokens),
        vec![
            TokenType::LEFT_PAREN,
            TokenType::RIGHT_PAREN,
            TokenType::LEFT_BRACE,
            TokenType::RIGHT_BRACE,
            TokenType::COMMA,
            TokenType::DOT,
            TokenType::MINUS,
            TokenType::PLUS,
            TokenType::SEMICOLON,
            TokenType::STAR,
            TokenType::EOF
        ]
    );
}

#[test]
fn comment_then_paren_on_line_two() {
    let (tokens, out, err, code) = scan("// comment\n(");
    assert_eq!(out, vec!["LEFT_PAREN ( null", "EOF  null"]);
    assert_eq!(tokens[0].line, 2);
    assert_eq!(tokens[1].line, 2);
    assert!(err.is_empty());
    assert_eq!(code, 0);
}

#[test]
fn comment_at_end_of_input_keeps_line() {
    let (tokens, _, _, code) = scan("( // trailing");
    assert_eq!(kinds(&tokens), vec![TokenType::LEFT_PAREN, TokenType::EOF]);
    assert_eq!(tokens[1].line, 1);
    assert_eq!(code, 0);
}

#[test]
fn unterminated_string() {
    let (tokens, out, err, code) = scan("\"unterminated");
    assert_eq!(out, vec!["EOF  null"]);
    assert_eq!(err, vec!["[line 1] Error: Unterminated string."]);
    assert_eq!(code, 65);
    assert_eq!(kinds(&tokens), vec![TokenType::UNTERM_STR, TokenType::EOF]);
    assert_eq!(tokens[0].lexeme, "");
    assert_eq!(tokens[0].appendix, "");
}

#[test]
fn unexpected_character() {
    let (tokens, out, err, code) = scan("@");
    assert_eq!(out, vec!["EOF  null"]);
    assert_eq!(err, vec!["[line 1] Error: Unexpected character: @"]);
    assert_eq!(code, 65);
    assert_eq!(tokens[0].token_type, TokenType::LEXICAL_ERROR);
}

#[test]
fn empty_input() {
    let (tokens, out, err, code) = scan("");
    assert_eq!(out, vec!["EOF  null"]);
    assert!(err.is_empty());
    assert_eq!(code, 0);
    assert_eq!(tokens.len(), 1);
    assert_eq!(tokens[0].lexeme, "");
    assert_eq!(tokens[0].line, 1);
}

#[test]
fn string_literal() {
    let (tokens, out, _, code) = scan("\"hi there\";");
    assert_eq!(out, vec!["STRING \"hi there\" hi there", "SEMICOLON ; null", "EOF  null"]);
    assert_eq!(tokens[0].appendix, "hi there");
    assert_eq!(code, 0);
}

#[test]
fn string_spanning_lines_starts_on_its_first_line() {
    let (tokens, _, _, _) = scan("(\"a\nb\"\n)");
    assert_eq!(kinds(&tokens), vec![TokenType::LEFT_PAREN, TokenType::STRING, TokenType::RIGHT_PAREN, TokenType::EOF]);
    assert_eq!(tokens[1].line, 1);
    assert_eq!(tokens[1].appendix, "a\nb");
    assert_eq!(tokens[2].line, 3);
    assert_eq!(tokens[3].line, 3);
}

#[test]
fn unterminated_string_on_later_line() {
    let (_, _, err, code) = scan("\n\n\"abc\nxyz");
    assert_eq!(err, vec!["[line 3] Error: Unterminated string."]);
    assert_eq!(code, 65);
}

#[test]
fn errors_do_not_stop_scanning() {
    let (tokens, out, err, code) = scan("#(\n$)\"open");
    assert_eq!(
        kinds(&tokens),
        vec![
            TokenType::LEXICAL_ERROR,
            TokenType::LEFT_PAREN,
            TokenType::LEXICAL_ERROR,
            TokenType::RIGHT_PAREN,
            TokenType::UNTERM_STR,
            TokenType::EOF
        ]
    );
    assert_eq!(out, vec!["LEFT_PAREN ( null", "RIGHT_PAREN ) null", "EOF  null"]);
    assert_eq!(
        err,
        vec![
            "[line 1] Error: Unexpected character: #",
            "[line 2] Error: Unexpected character: $",
            "[line 2] Error: Unterminated string.",
        ]
    );
    assert_eq!(code, 65);
}

#[test]
fn whitespace_is_skipped() {
    let (tokens, _, _, code) = scan(" \t\r+ ");
    assert_eq!(kinds(&tokens), vec![TokenType::PLUS, TokenType::EOF]);
    assert_eq!(code, 0);
}

#[test]
fn line_numbers_count_preceding_line_breaks() {
    let (tokens, _, _, _) = scan("(\n\n)\n// note\n*");
    let lines: Vec<i32> = tokens.iter().map(|t| t.line).collect();
    assert_eq!(lines, vec![1, 3, 5, 5]);
}

#[test]
fn large_line_number_in_message() {
    let src = format!("{}@", "\n".repeat(11));
    let (_, _, err, _) = scan(&src);
    assert_eq!(err, vec!["[line 12] Error: Unexpected character: @"]);
}

#[test]
fn scanning_twice_gives_the_same_tokens() {
    let src = "(\"x\"\n!= @ // c\n{";
    let mut lexer = Lexer::default();
    let first = lexer.lex(src);
    let second = lexer.lex(src);
    assert_eq!(first, second);
    let fresh = Lexer::default().lex(src);
    assert_eq!(first, fresh);
}

#[test]
fn single_eof_at_the_end() {
    for src in ["", "@", "\"open", "// only a comment", "(\n)", "a\"b\"c"] {
        let mut lexer = Lexer::default();
        let tokens = lexer.lex(src);
        let last = tokens.last().unwrap();
        assert_eq!(last.token_type, TokenType::EOF);
        assert_eq!(last.lexeme, "");
        assert_eq!(tokens.iter().filter(|t| t.token_type == TokenType::EOF).count(), 1);
    }
}

#[test]
fn non_ascii_character_is_an_error() {
    let (tokens, _, err, code) = scan("é");
    assert_eq!(tokens[0].lexeme, "é");
    assert_eq!(err, vec!["[line 1] Error: Unexpected character: é"]);
    assert_eq!(code, 65);
}

#[test]
fn token_new_keeps_its_fields() {
    let t = Token::new(TokenType::STRING, String::from("\"a\""), String::from("a"), 4);
    assert_eq!(t.token_type, TokenType::STRING);
    assert_eq!(t.lexeme, "\"a\"");
    assert_eq!(t.appendix, "a");
    assert_eq!(t.line, 4);
    assert_eq!(t.to_text(), "STRING \"a\" a");
}

#[test]
fn kind_names() {
    assert_eq!(TokenType::LEFT_PAREN.name(), "LEFT_PAREN");
    assert_eq!(TokenType::GREATER_EQUAL.name(), "GREATER_EQUAL");
    assert_eq!(TokenType::EOF.name(), "EOF");
}

#[test]
fn negative_line_in_message() {
    let t = Token::new(TokenType::UNTERM_STR, String::new(), String::new(), -305);
    assert_eq!(t.error_message(), "[line -305] Error: Unterminated string.");
    let t = Token::new(TokenType::LEXICAL_ERROR, String::from("~"), String::from("null"), i32::MIN);
    assert_eq!(t.error_message(), "[line -2147483648] Error: Unexpected character: ~");
}

#[test]
fn report_of_no_tokens_still_closes_the_listing() {
    let (out, err, code) = Lexer::report(&Vec::new());
    assert_eq!(out, vec!["EOF  null"]);
    assert!(err.is_empty());
    assert_eq!(code, 0);
}

#[test]
fn report_without_eof_token_closes_the_listing() {
    let tokens = vec![
        Token::new(TokenType::LEXICAL_ERROR, String::from("@"), String::from("null"), 3),
        Token::new(TokenType::LEFT_PAREN, String::from("("), String::from("null"), 3),
    ];
    let (out, err, code) = Lexer::report(&tokens);
    assert_eq!(out, vec!["LEFT_PAREN ( null", "EOF  null"]);
    assert_eq!(err, vec!["[line 3] Error: Unexpected character: @"]);
    assert_eq!(code, 65);
}

#[test]
fn nothing_follows_an_unterminated_string_but_eof() {
    let (tokens, _, _, _) = scan("( \"open ) @ {");
    assert_eq!(kinds(&tokens), vec![TokenType::LEFT_PAREN, TokenType::UNTERM_STR, TokenType::EOF]);
}
