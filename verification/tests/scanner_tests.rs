use lax_ast::error::LoxError;
use lax_ast::scanner::Scanner;
use lax_ast::token::{Literal, Token};
use lax_ast::token_type::TokenType;

fn scan(src: &str) -> (Vec<Token>, Vec<LoxError>, bool) {
    let mut s = Scanner::new(src.to_string());
    let ok = s.scan_tokens().is_ok();
    (s.tokens().clone(), s.diagnostics().clone(), ok)
}

fn types_of(tokens: &[Token]) -> Vec<TokenType> {
    tokens.iter().map(|t| t.ttype).collect()
}

#[test]
fn empty_input_yields_single_eof_at_line_1() {
    let (tokens, diags, ok) = scan("");
    assert!(ok);
    assert!(diags.is_empty());
    assert_eq!(tokens.len(), 1);
    assert_eq!(tokens[0].ttype, TokenType::Eof);
    assert_eq!(tokens[0].lexeme, "");
    assert_eq!(tokens[0].literal, None);
    assert_eq!(tokens[0].line, 1);
}

#[test]
fn lexemes_concatenate_to_input_without_gaps() {
    let input = "(1+2)*x";
    let (tokens, _, ok) = scan(input);
    assert!(ok);
    let rebuilt: String = tokens.iter().map(|t| t.lexeme.as_str()).collect::<Vec<_>>().concat();
    assert_eq!(rebuilt, input);
}

#[test]
fn lexemes_concatenate_to_input_minus_gaps() {
    let input = " (\t) // trailing comment";
    let (tokens, _, ok) = scan(input);
    assert!(ok);
    let rebuilt: String = tokens.iter().map(|t| t.lexeme.as_str()).collect::<Vec<_>>().concat();
    assert_eq!(rebuilt, "()");
}

#[test]
fn every_newline_increments_line_exactly_once() {
    // Newlines in plain text, inside a string body, and after a comment all
    // count; no other character moves the counter.
    let input = "a\nb\n\"c\nd\"\n// x\ne";
    let (tokens, _, ok) = scan(input);
    assert!(ok);
    let newline_count = input.chars().filter(|c| *c == '\n').count();
    assert_eq!(tokens.last().unwrap().ttype, TokenType::Eof);
    assert_eq!(tokens.last().unwrap().line, 1 + newline_count);
}

#[test]
fn carriage_return_and_tab_do_not_increment_line() {
    let (tokens, _, ok) = scan("\r\t (");
    assert!(ok);
    assert_eq!(types_of(&tokens), vec![TokenType::LeftParen, TokenType::Eof]);
    assert_eq!(tokens[0].line, 1);
}

#[test]
fn bang_equal_is_never_split() {
    let (tokens, diags, ok) = scan("!=");
    assert!(ok);
    assert!(diags.is_empty());
    assert_eq!(types_of(&tokens), vec![TokenType::BangEqual, TokenType::Eof]);
    assert_eq!(tokens[0].lexeme, "!=");
}

#[test]
fn one_and_two_character_operators() {
    let (tokens, _, ok) = scan("! != = == < <= > >=");
    assert!(ok);
    assert_eq!(
        types_of(&tokens),
        vec![
            TokenType::Bang,
            TokenType::BangEqual,
            TokenType::Equal,
            TokenType::EqualEqual,
            TokenType::Less,
            TokenType::LessEqual,
            TokenType::Greater,
            TokenType::GreaterEqual,
            TokenType::Eof,
        ]
    );
}

#[test]
fn line_comment_consumes_to_end_of_line_and_emits_nothing() {
    let (tokens, diags, ok) = scan("// x\n(");
    assert!(ok);
    assert!(diags.is_empty());
    assert_eq!(types_of(&tokens), vec![TokenType::LeftParen, TokenType::Eof]);
    assert_eq!(tokens[0].line, 2);
    assert_eq!(tokens[1].line, 2);
}

#[test]
fn comment_at_end_of_input_without_newline() {
    let (tokens, _, ok) = scan("//");
    assert!(ok);
    assert_eq!(types_of(&tokens), vec![TokenType::Eof]);
}

#[test]
fn slash_alone_is_a_token() {
    let (tokens, _, ok) = scan("/");
    assert!(ok);
    assert_eq!(types_of(&tokens), vec![TokenType::Slash, TokenType::Eof]);
}

fn number_value(t: &Token) -> f64 {
    match &t.literal {
        Some(Literal::Num(s)) => s.parse::<f64>().unwrap(),
        other => panic!("expected a number literal, got {:?}", other),
    }
}

#[test]
fn integer_number_literal() {
    let (tokens, _, ok) = scan("123");
    assert!(ok);
    assert_eq!(types_of(&tokens), vec![TokenType::Number, TokenType::Eof]);
    assert_eq!(tokens[0].lexeme, "123");
    assert_eq!(number_value(&tokens[0]), 123.0);
}

#[test]
fn fractional_number_literal() {
    let (tokens, _, ok) = scan("123.45");
    assert!(ok);
    assert_eq!(types_of(&tokens), vec![TokenType::Number, TokenType::Eof]);
    assert_eq!(tokens[0].lexeme, "123.45");
    assert_eq!(number_value(&tokens[0]), 123.45);
}

#[test]
fn trailing_dot_is_not_part_of_the_number() {
    let (tokens, _, ok) = scan("123.");
    assert!(ok);
    assert_eq!(
        types_of(&tokens),
        vec![TokenType::Number, TokenType::Dot, TokenType::Eof]
    );
    assert_eq!(tokens[0].lexeme, "123");
    assert_eq!(number_value(&tokens[0]), 123.0);
    assert_eq!(tokens[1].lexeme, ".");
}

#[test]
fn leading_dot_never_starts_a_number() {
    let (tokens, _, ok) = scan(".5");
    assert!(ok);
    assert_eq!(
        types_of(&tokens),
        vec![TokenType::Dot, TokenType::Number, TokenType::Eof]
    );
    assert_eq!(tokens[1].lexeme, "5");
}

#[test]
fn number_with_leading_zeros() {
    let (tokens, _, ok) = scan("007");
    assert!(ok);
    assert_eq!(tokens[0].lexeme, "007");
    assert_eq!(number_value(&tokens[0]), 7.0);
}

#[test]
fn string_literal_body_excludes_quotes() {
    let (tokens, diags, ok) = scan("\"hi\"");
    assert!(ok);
    assert!(diags.is_empty());
    assert_eq!(types_of(&tokens), vec![TokenType::Str, TokenType::Eof]);
    assert_eq!(tokens[0].lexeme, "\"hi\"");
    assert_eq!(tokens[0].literal, Some(Literal::Str("hi".to_string())));
}

#[test]
fn string_may_contain_lexical_characters() {
    let (tokens, _, ok) = scan("\"()//\"");
    assert!(ok);
    assert_eq!(types_of(&tokens), vec![TokenType::Str, TokenType::Eof]);
    assert_eq!(tokens[0].literal, Some(Literal::Str("()//".to_string())));
}

#[test]
fn multiline_string_counts_lines_and_starts_on_its_first_line() {
    let (tokens, _, ok) = scan("\"a\nb\"x");
    assert!(ok);
    assert_eq!(
        types_of(&tokens),
        vec![TokenType::Str, TokenType::Identifier, TokenType::Eof]
    );
    assert_eq!(tokens[0].literal, Some(Literal::Str("a\nb".to_string())));
    assert_eq!(tokens[0].line, 1);
    assert_eq!(tokens[1].line, 2);
}

#[test]
fn unterminated_string_reports_at_last_line_and_still_completes() {
    let (tokens, diags, ok) = scan("\"unterminated");
    assert!(!ok);
    assert_eq!(diags.len(), 1);
    assert_eq!(diags[0].message, "Unterminated string");
    assert_eq!(diags[0].line, 1);
    assert_eq!(types_of(&tokens), vec![TokenType::Eof]);
}

#[test]
fn unterminated_string_across_lines_reports_last_line() {
    let (tokens, diags, ok) = scan("\"ab\ncd");
    assert!(!ok);
    assert_eq!(diags.len(), 1);
    assert_eq!(diags[0].message, "Unterminated string");
    assert_eq!(diags[0].line, 2);
    assert_eq!(types_of(&tokens), vec![TokenType::Eof]);
}

#[test]
fn unterminated_string_consumes_the_rest_of_the_input() {
    let (tokens, diags, ok) = scan("\"ab ( )");
    assert!(!ok);
    assert_eq!(diags.len(), 1);
    assert_eq!(types_of(&tokens), vec![TokenType::Eof]);
}

#[test]
fn keyword_matching_is_exact() {
    let (tokens, _, ok) = scan("class");
    assert!(ok);
    assert_eq!(types_of(&tokens), vec![TokenType::Class, TokenType::Eof]);
    assert_eq!(tokens[0].literal, None);
}

#[test]
fn keyword_matching_is_case_sensitive() {
    let (tokens, _, ok) = scan("Class");
    assert!(ok);
    assert_eq!(types_of(&tokens), vec![TokenType::Identifier, TokenType::Eof]);
}

#[test]
fn keyword_prefix_is_an_identifier() {
    let (tokens, _, ok) = scan("classify");
    assert!(ok);
    assert_eq!(types_of(&tokens), vec![TokenType::Identifier, TokenType::Eof]);
    assert_eq!(tokens[0].lexeme, "classify");
}

#[test]
fn all_sixteen_keywords() {
    let (tokens, _, ok) = scan(
        "and class else false for fun if nil or print return super this true var while",
    );
    assert!(ok);
    assert_eq!(
        types_of(&tokens),
        vec![
            TokenType::And,
            TokenType::Class,
            TokenType::Else,
            TokenType::False,
            TokenType::For,
            TokenType::Fun,
            TokenType::If,
            TokenType::Nil,
            TokenType::Or,
            TokenType::Print,
            TokenType::Return,
            TokenType::Super,
            TokenType::This,
            TokenType::True,
            TokenType::Var,
            TokenType::While,
            TokenType::Eof,
        ]
    );
}

#[test]
fn identifiers_take_underscores_and_digits() {
    let (tokens, _, ok) = scan("_abc a1_b");
    assert!(ok);
    assert_eq!(
        types_of(&tokens),
        vec![TokenType::Identifier, TokenType::Identifier, TokenType::Eof]
    );
    assert_eq!(tokens[0].lexeme, "_abc");
    assert_eq!(tokens[1].lexeme, "a1_b");
}

#[test]
fn invalid_character_does_not_stop_the_scan() {
    let (tokens, diags, ok) = scan("(@)");
    assert!(!ok);
    assert_eq!(diags.len(), 1);
    assert_eq!(diags[0].message, "Unexpected character");
    assert_eq!(diags[0].line, 1);
    assert_eq!(
        types_of(&tokens),
        vec![TokenType::LeftParen, TokenType::RightParen, TokenType::Eof]
    );
}

#[test]
fn multiple_errors_are_all_recorded_in_source_order() {
    let mut s = Scanner::new("@\n#".to_string());
    let r = s.scan_tokens();
    assert!(r.is_err());
    let last = r.unwrap_err();
    assert_eq!(last.line, 2);
    assert_eq!(last.message, "Unexpected character");
    let diags = s.diagnostics();
    assert_eq!(diags.len(), 2);
    assert_eq!(diags[0].line, 1);
    assert_eq!(diags[1].line, 2);
}

#[test]
fn punctuation_sequence_on_one_line() {
    let (tokens, diags, ok) = scan("(( )){}");
    assert!(ok);
    assert!(diags.is_empty());
    assert_eq!(
        types_of(&tokens),
        vec![
            TokenType::LeftParen,
            TokenType::LeftParen,
            TokenType::RightParen,
            TokenType::RightParen,
            TokenType::LeftBrace,
            TokenType::RightBrace,
            TokenType::Eof,
        ]
    );
    for t in &tokens {
        assert_eq!(t.line, 1);
    }
}

#[test]
fn all_single_character_punctuation() {
    let (tokens, _, ok) = scan("(){},.-+;*");
    assert!(ok);
    assert_eq!(
        types_of(&tokens),
        vec![
            TokenType::LeftParen,
            TokenType::RightParen,
            TokenType::LeftBrace,
            TokenType::RightBrace,
            TokenType::Comma,
            TokenType::Dot,
            TokenType::Minus,
            TokenType::Plus,
            TokenType::Semicolon,
            TokenType::Star,
            TokenType::Eof,
        ]
    );
}

#[test]
fn scanning_resumes_on_the_character_after_an_error() {
    let (tokens, diags, ok) = scan("var@x");
    assert!(!ok);
    assert_eq!(diags.len(), 1);
    assert_eq!(
        types_of(&tokens),
        vec![TokenType::Var, TokenType::Identifier, TokenType::Eof]
    );
    assert_eq!(tokens[1].lexeme, "x");
}

#[test]
fn token_lines_never_decrease() {
    let (tokens, _, _) = scan("a\nb\nc @\n\"x\ny\" d");
    let mut prev = 0usize;
    for t in &tokens {
        assert!(t.line >= prev);
        prev = t.line;
    }
}

#[test]
fn eof_constructor_builds_the_sentinel() {
    let t = Token::eof(5);
    assert_eq!(t.ttype, TokenType::Eof);
    assert_eq!(t.lexeme, "");
    assert_eq!(t.literal, None);
    assert_eq!(t.line, 5);
}

#[test]
fn token_constructor_keeps_its_fields() {
    let t = Token::new(
        TokenType::Number,
        "42".to_string(),
        Some(Literal::Num("42".to_string())),
        3,
    );
    assert_eq!(t.ttype, TokenType::Number);
    assert_eq!(t.lexeme, "42");
    assert_eq!(t.literal, Some(Literal::Num("42".to_string())));
    assert_eq!(t.line, 3);
}

#[test]
fn diagnostic_renders_with_line_and_message() {
    let e = LoxError::new(3, "Unexpected character".to_string());
    assert_eq!(e.render(), "[line 3] Error: Unexpected character");
}

#[test]
fn diagnostic_renders_multi_digit_lines() {
    let e = LoxError::new(120, "Unterminated string".to_string());
    assert_eq!(e.render(), "[line 120] Error: Unterminated string");
}
