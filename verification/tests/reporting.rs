use rox::context::Context;
use rox::diagnostic::{Diagnostic, Formatter, Position};
use rox::lexer::LexError;
use rox::name_resolution::CompileError;
use rox::parser::ParseError;
use rox::span::Span;

const RED: &str = "\x1b[91m";
const WHITE: &str = "\x1b[97m";
const CYAN: &str = "\x1b[96m";
const YELLOW: &str = "\x1b[93m";
const RESET: &str = "\x1b[0m";

fn one_line(source_line: &str, number: usize, width: usize, column: usize, length: usize, color: &str, cyan: &str, message: &str) -> String {
    let mut s = String::new();
    s.push_str(&format!("{cyan}{:width$} |{RESET}\n", ""));
    s.push_str(&format!("{cyan}{:width$} |{RESET}   {}\n", number, source_line));
    s.push_str(&format!(
        "{cyan}{:width$} |{RESET}   {:column$}{color}{:^^length$} {message}{RESET}\n",
        "", "", ""
    ));
    s
}

#[test]
fn position_from_source() {
    let source = b"ab\ncd\nef";
    let p = Position::from_source(source, 4);
    assert_eq!(p.line_start, 3);
    assert_eq!(p.line_end, 5);
    assert_eq!(p.line_number, 2);
    assert_eq!(p.column, 1);
    let q = Position::from_source(source, 0);
    assert_eq!((q.line_start, q.line_end, q.line_number, q.column), (0, 2, 1, 0));
    let r = Position::from_source(source, 8);
    assert_eq!((r.line_start, r.line_end, r.line_number, r.column), (6, 8, 3, 2));
}

#[test]
fn headlines() {
    let mut f = Formatter::new(b"x");
    f.error(b"oops");
    f.warn(b"careful");
    f.help(b"try this");
    let expected = format!(
        "{RED}error{WHITE}: oops{RESET}\n{YELLOW}warning{WHITE}: careful{RESET}\n{CYAN}help{WHITE}: try this{RESET}\n"
    );
    assert_eq!(f.output(), expected.as_bytes());
}

#[test]
fn span_on_one_line() {
    let source = "let x = 1;\nnext";
    let mut f = Formatter::new(source.as_bytes());
    f.span_error(Span::new(4, 5), b"here");
    let expected = one_line("let x = 1;", 1, 1, 4, 1, RED, CYAN, "here");
    assert_eq!(f.output(), expected.as_bytes());
}

#[test]
fn empty_span_gets_one_caret() {
    let source = "abc";
    let mut f = Formatter::new(source.as_bytes());
    f.span_warn(Span::new(3, 3), b"end");
    let expected = one_line("abc", 1, 1, 3, 1, YELLOW, CYAN, "end");
    assert_eq!(f.output(), expected.as_bytes());
}

#[test]
fn span_over_lines() {
    let source = "a\nb\nc\nd\ne\nf\ng\nh\ni\nj\nkey";
    let mut f = Formatter::new(source.as_bytes());
    f.span_help(Span::new(2, 21), b"all of it");
    let width = 2;
    let mut expected = String::new();
    expected.push_str(&format!("{CYAN}{:width$} |{RESET}\n", ""));
    expected.push_str(&format!("{CYAN}{:width$} |{RESET}   {}\n", 2, "b"));
    expected.push_str(&format!("{CYAN}{:width$} |{RESET}  {CYAN}_{:_^column$}^{RESET}\n", "", "", column = 0));
    expected.push_str(&format!("{CYAN}{:width$} |{RESET} {CYAN}|{RESET} {}\n", 11, "key"));
    expected.push_str(&format!("{:width$} {CYAN}|{RESET} {CYAN}|_{:_^column$}^ all of it{RESET}\n", "", "", column = 1));
    assert_eq!(f.output(), expected.as_bytes());
}

#[test]
fn lex_error_report() {
    let source = "1 @";
    let mut f = Formatter::new(source.as_bytes());
    LexError::UnexpectedCharacter { span: Span::new(2, 3), char: b'@' }.fmt(&mut f);
    let mut expected = format!("{RED}error{WHITE}: unexpected character{RESET}\n");
    expected.push_str(&one_line("1 @", 1, 1, 2, 1, RED, CYAN, &format!("'{}' (0x{:x}) is not valid syntax", '@', b'@')));
    assert_eq!(f.output(), expected.as_bytes());
}

#[test]
fn lex_error_report_for_high_byte() {
    let source = [b'1', b' ', 0xe9];
    let mut f = Formatter::new(&source);
    LexError::UnexpectedCharacter { span: Span::new(2, 3), char: 0xe9 }.fmt(&mut f);
    let message = format!("'{}' (0x{:x}) is not valid syntax", 0xe9u8 as char, 0xe9u8);
    assert!(f.output().ends_with(format!("{message}{RESET}\n").as_bytes()));
}

#[test]
fn parse_error_report_quotes_source() {
    let source = "print 1 +;";
    let mut f = Formatter::new(source.as_bytes());
    ParseError::ExpectedExpression(Span::new(9, 10)).fmt(&mut f);
    let mut expected = format!("{RED}error{WHITE}: unexpected token{RESET}\n");
    expected.push_str(&one_line(source, 1, 1, 9, 1, RED, CYAN, "expected expression, found ';'"));
    assert_eq!(f.output(), expected.as_bytes());
}

#[test]
fn compile_error_report() {
    let source = "var a; var a;";
    let mut f = Formatter::new(source.as_bytes());
    CompileError::ItemRedefined { original: Span::new(4, 5), redefinition: Span::new(11, 12) }.fmt(&mut f);
    let mut expected = format!("{RED}error{WHITE}: duplicate item definition{RESET}\n");
    expected.push_str(&one_line(source, 1, 1, 11, 1, RED, CYAN, "'a' was already defined"));
    expected.push_str(&one_line(source, 1, 1, 4, 1, CYAN, CYAN, "previously defined here"));
    assert_eq!(f.output(), expected.as_bytes());
}

#[test]
fn context_reports() {
    let source = "x = y;";
    let mut context = Context::new(source.as_bytes());
    let mut out = Vec::new();
    context.error(&mut out, b"bad");
    context.span(Span::new(4, 5), &mut out, b"undefined");
    let red = "\x1b[31;1m";
    let cyan = "\x1b[96;1m";
    let mut expected = format!("{red}error{WHITE}: bad{RESET}\n");
    expected.push_str(&one_line(source, 1, 1, 4, 1, red, cyan, "undefined"));
    assert_eq!(out, expected.into_bytes());
    assert_eq!(context.source(), source.as_bytes());
}

struct Unterminated(Span);

impl rox::context::Diagnostic for Unterminated {
    fn fmt(&self, c: &mut Context<'_>, out: &mut Vec<u8>) {
        c.error(out, b"unterminated string");
        c.span(self.0, out, b"starts here");
    }
}

#[test]
fn context_diagnostics_write_headline_then_span() {
    let source = b"print \"abc";
    let mut context = Context::new(source);
    let mut out = Vec::new();
    rox::context::Diagnostic::fmt(&Unterminated(Span::new(6, 10)), &mut context, &mut out);
    let text = String::from_utf8(out).unwrap();
    assert!(text.starts_with("\x1b[31;1merror\x1b[97m: unterminated string\x1b[0m\n"));
    assert!(text.contains("print \"abc"));
    assert!(text.contains("starts here"));
}

#[test]
fn reports_know_whether_their_spans_fit_the_source() {
    let source = b"print 1 +;";
    assert!(ParseError::ExpectedExpression(Span::new(9, 10)).can_render(source));
    assert!(!ParseError::ExpectedExpression(Span::new(9, 11)).can_render(source));
    assert!(!ParseError::ExpectedExpression(Span::new(5, 3)).can_render(source));
    assert!(LexError::UnexpectedCharacter { span: Span::new(2, 3), char: b'@' }.can_render(source));
}
