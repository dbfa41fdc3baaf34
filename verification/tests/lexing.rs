use rox::lexer::{LexError, Lexer};
use rox::span::Span;
use rox::token::{Token, TokenKind};

fn kinds(tokens: &[Token]) -> Vec<TokenKind> {
    tokens.iter().map(|t| t.kind).collect()
}

fn span(start: usize, end: usize) -> Span {
    Span::new(start, end)
}

#[test]
fn lex_variable_declaration() {
    let output = Lexer::new("var x = 1;").lex();
    assert!(output.errors.is_empty());
    assert_eq!(
        kinds(&output.tokens),
        vec![
            TokenKind::Var,
            TokenKind::Identifier,
            TokenKind::Equal,
            TokenKind::FloatLiteral,
            TokenKind::Semicolon,
            TokenKind::Eof,
        ]
    );
    assert_eq!(output.tokens[1].span, span(4, 5));
    assert_eq!(output.tokens[1].value, b"x".to_vec());
    assert_eq!(output.tokens[3].span, span(8, 9));
    assert_eq!(output.tokens[3].value, b"1".to_vec());
    assert_eq!(output.tokens[5].span, span(10, 10));
}

#[test]
fn lex_two_character_operators() {
    let output = Lexer::new("!= == <= >= ! = < >").lex();
    assert!(output.errors.is_empty());
    assert_eq!(
        kinds(&output.tokens),
        vec![
            TokenKind::BangEqual,
            TokenKind::EqualEqual,
            TokenKind::LessEqual,
            TokenKind::GreaterEqual,
            TokenKind::Bang,
            TokenKind::Equal,
            TokenKind::Less,
            TokenKind::Greater,
            TokenKind::Eof,
        ]
    );
    assert_eq!(output.tokens[0].span, span(0, 2));
    assert_eq!(output.tokens[4].span, span(12, 13));
}

#[test]
fn lex_keywords_and_identifiers() {
    let output = Lexer::new("class fun classy _x9 this").lex();
    assert!(output.errors.is_empty());
    assert_eq!(
        kinds(&output.tokens),
        vec![
            TokenKind::Class,
            TokenKind::Fun,
            TokenKind::Identifier,
            TokenKind::Identifier,
            TokenKind::This,
            TokenKind::Eof,
        ]
    );
    assert_eq!(output.tokens[2].value, b"classy".to_vec());
    assert_eq!(output.tokens[3].value, b"_x9".to_vec());
    assert!(output.tokens[0].value.is_empty());
}

#[test]
fn lex_skips_comments() {
    let output = Lexer::new("// note\n+ /* a /* nested */ comment */ -").lex();
    assert!(output.errors.is_empty());
    assert_eq!(
        kinds(&output.tokens),
        vec![TokenKind::Plus, TokenKind::Minus, TokenKind::Eof]
    );
    assert_eq!(output.tokens[0].span, span(8, 9));
}

#[test]
fn lex_slash_alone() {
    let output = Lexer::new("6 / 3").lex();
    assert_eq!(
        kinds(&output.tokens),
        vec![
            TokenKind::FloatLiteral,
            TokenKind::Slash,
            TokenKind::FloatLiteral,
            TokenKind::Eof,
        ]
    );
}

#[test]
fn lex_numbers() {
    let output = Lexer::new("3.25 7.").lex();
    assert_eq!(
        kinds(&output.tokens),
        vec![
            TokenKind::FloatLiteral,
            TokenKind::FloatLiteral,
            TokenKind::Dot,
            TokenKind::Eof,
        ]
    );
    assert_eq!(output.tokens[0].value, b"3.25".to_vec());
    assert_eq!(output.tokens[0].span, span(0, 4));
    assert_eq!(output.tokens[1].value, b"7".to_vec());
    assert_eq!(output.tokens[2].span, span(6, 7));
}

#[test]
fn lex_unterminated_block_comment() {
    let output = Lexer::new("/* x").lex();
    assert_eq!(kinds(&output.tokens), vec![TokenKind::Eof]);
    assert_eq!(
        output.errors,
        vec![LexError::UnterminatedBlockComment { span: span(0, 4) }]
    );
}

#[test]
fn lex_unexpected_character() {
    let output = Lexer::new("1 @").lex();
    assert_eq!(
        output.errors,
        vec![LexError::UnexpectedCharacter { span: span(2, 3), char: b'@' }]
    );
    assert_eq!(
        kinds(&output.tokens),
        vec![TokenKind::FloatLiteral, TokenKind::Eof]
    );
}

#[test]
fn lex_string_reads_to_the_end() {
    // The lexer emits a string at each later quote and keeps reading to
    // the end of the source, where it reports the string as unterminated.
    let output = Lexer::new("\"ab\" x").lex();
    assert_eq!(
        kinds(&output.tokens),
        vec![TokenKind::StringLiteral, TokenKind::Eof]
    );
    assert_eq!(output.tokens[0].span, span(0, 4));
    assert_eq!(output.tokens[0].value, b"ab".to_vec());
    assert_eq!(output.tokens[1].span, span(6, 6));
    assert_eq!(
        output.errors,
        vec![LexError::UnterminatedString { span: span(0, 6) }]
    );
}

#[test]
fn lex_identifiers_come_from_the_source() {
    let source = "foo + bar_2 * baz";
    let output = Lexer::new(source).lex();
    for token in &output.tokens {
        if token.kind == TokenKind::Identifier {
            let text = &source.as_bytes()[token.span.start()..token.span.end()];
            assert_eq!(token.value, text.to_vec());
        }
    }
    let last = output.tokens.last().unwrap();
    assert_eq!(last.kind, TokenKind::Eof);
    assert_eq!(last.span, span(source.len(), source.len()));
}
