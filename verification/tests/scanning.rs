use rox::scanner::{ScanError, Scanner};
use rox::span::Span;
use rox::token::TokenKind;

#[test]
fn scan_declaration() {
    let mut scanner = Scanner::new("var answer = 42;");
    let tokens = scanner.scan_tokens();
    let kinds: Vec<TokenKind> = tokens.iter().map(|t| t.kind).collect();
    assert_eq!(
        kinds,
        vec![
            TokenKind::Var,
            TokenKind::Identifier,
            TokenKind::Equal,
            TokenKind::FloatLiteral,
            TokenKind::Semicolon,
            TokenKind::Eof,
        ]
    );
    assert_eq!(tokens[1].value, b"answer".to_vec());
    assert_eq!(tokens[3].value, b"42".to_vec());
    assert_eq!(tokens[5].span, Span::new(16, 16));
    assert!(scanner.errors.is_empty());
}

#[test]
fn scan_string_stops_at_closing_quote() {
    let mut scanner = Scanner::new("\"ab\" x");
    let tokens = scanner.scan_tokens();
    let kinds: Vec<TokenKind> = tokens.iter().map(|t| t.kind).collect();
    assert_eq!(
        kinds,
        vec![TokenKind::StringLiteral, TokenKind::Identifier, TokenKind::Eof]
    );
    assert_eq!(tokens[0].span, Span::new(0, 4));
    assert_eq!(tokens[0].value, b"ab".to_vec());
    assert!(scanner.errors.is_empty());
}

#[test]
fn scan_unterminated_string() {
    let mut scanner = Scanner::new("\"abc");
    let tokens = scanner.scan_tokens();
    assert_eq!(tokens.len(), 1);
    assert_eq!(tokens[0].kind, TokenKind::Eof);
    assert_eq!(
        scanner.errors,
        vec![ScanError::UnterminatedString(Span::new(0, 4))]
    );
}

#[test]
fn scan_slash_at_end_is_dropped() {
    let mut scanner = Scanner::new("1 /");
    let tokens = scanner.scan_tokens();
    let kinds: Vec<TokenKind> = tokens.iter().map(|t| t.kind).collect();
    assert_eq!(kinds, vec![TokenKind::FloatLiteral, TokenKind::Eof]);
    assert_eq!(tokens[1].span, Span::new(3, 3));
}

#[test]
fn scan_unexpected_character() {
    let mut scanner = Scanner::new("#");
    let tokens = scanner.scan_tokens();
    assert_eq!(tokens.len(), 1);
    assert_eq!(
        scanner.errors,
        vec![ScanError::UnexpectedCharacter { span: Span::new(0, 1), char: b'#' }]
    );
}

#[test]
fn scan_unterminated_block_comment() {
    let mut scanner = Scanner::new("/* /* */");
    let tokens = scanner.scan_tokens();
    assert_eq!(tokens.len(), 1);
    assert_eq!(
        scanner.errors,
        vec![ScanError::UnterminatedBlockComment(Span::new(0, 8))]
    );
}
