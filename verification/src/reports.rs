use vstd::prelude::*;
use vstd::string::StringSliceAdditionalSpecFns;

use crate::diagnostic::{
    emit_text, is_renderable, push_bytes, push_str, renderable, span_text, Diagnostic, Formatter, BRIGHT_CYAN,
    BRIGHT_RED,
};
use crate::lexer::LexError;
use crate::name_resolution::CompileError;
use crate::parser::ParseError;
use crate::scanner::ScanError;
use crate::span::Span;

verus! {

/// A span that a report can show and quote.
pub open spec fn showable(source: Seq<u8>, span: Span) -> bool {
    &&& renderable(source, span)
    &&& span.spec_start() <= span.spec_end()
}

/// Whether `span` can be shown and does not end before it starts.
pub fn is_showable(source: &[u8], span: Span) -> (r: bool)
    ensures
        r == showable(source@, span),
{
    is_renderable(source, span) && span.start() <= span.end()
}

/// The text of `span`.
pub open spec fn quote(source: Seq<u8>, span: Span) -> Seq<u8> {
    source.subrange(span.spec_start() as int, span.spec_end() as int)
}

/// An error headline.
pub open spec fn error_text(message: Seq<u8>) -> Seq<u8> {
    emit_text(message, "error".spec_bytes(), BRIGHT_RED.spec_bytes())
}

/// A span shown as the place of an error.
pub open spec fn at_error(source: Seq<u8>, span: Span, message: Seq<u8>) -> Seq<u8> {
    span_text(source, span, message, BRIGHT_RED.spec_bytes(), BRIGHT_CYAN.spec_bytes())
}

/// A span shown as a hint.
pub open spec fn at_help(source: Seq<u8>, span: Span, message: Seq<u8>) -> Seq<u8> {
    span_text(source, span, message, BRIGHT_CYAN.spec_bytes(), BRIGHT_CYAN.spec_bytes())
}

/// The UTF-8 encoding of the character whose code is the byte `c`.
pub open spec fn char_text(c: u8) -> Seq<u8> {
    if c < 128 {
        seq![c]
    } else {
        seq![(192 + c / 64) as u8, (128 + c % 64) as u8]
    }
}

pub open spec fn hex_digit(d: int) -> u8 {
    if d < 10 {
        (48 + d) as u8
    } else {
        (87 + d) as u8
    }
}

/// The byte `c` in lowercase hexadecimal, without leading zeros.
pub open spec fn hex_text(c: u8) -> Seq<u8> {
    if c < 16 {
        seq![hex_digit(c as int)]
    } else {
        seq![hex_digit((c / 16) as int), hex_digit((c % 16) as int)]
    }
}

/// What is said of a byte that is no valid syntax.
pub open spec fn unexpected_text(c: u8) -> Seq<u8> {
    "'".spec_bytes() + char_text(c) + "' (0x".spec_bytes() + hex_text(c)
        + ") is not valid syntax".spec_bytes()
}

fn hex_digit_of(d: u8) -> (r: u8)
    requires
        d < 16,
    ensures
        r == hex_digit(d as int),
{
    if d < 10 {
        48 + d
    } else {
        87 + d
    }
}

fn unexpected_message(c: u8) -> (r: Vec<u8>)
    ensures
        r@ == unexpected_text(c),
{
    let mut out: Vec<u8> = Vec::new();
    push_str(&mut out, "'");
    let ghost before_char = out@;
    if c < 128 {
        out.push(c);
    } else {
        out.push(192 + c / 64);
        out.push(128 + c % 64);
    }
    proof {
        assert(out@ =~= before_char + char_text(c));
    }
    push_str(&mut out, "' (0x");
    let ghost before_hex = out@;
    if c < 16 {
        out.push(hex_digit_of(c));
    } else {
        out.push(hex_digit_of(c / 16));
        out.push(hex_digit_of(c % 16));
    }
    proof {
        assert(out@ =~= before_hex + hex_text(c));
    }
    push_str(&mut out, ") is not valid syntax");
    proof {
        assert(out@ =~= unexpected_text(c));
    }
    out
}

/// `prefix`, the text of `span`, then `suffix`.
fn quoted_message(source: &[u8], span: Span, prefix: &str, suffix: &str) -> (r: Vec<u8>)
    requires
        span.spec_start() <= span.spec_end() <= source@.len(),
    ensures
        r@ == prefix.spec_bytes() + quote(source@, span) + suffix.spec_bytes(),
{
    let mut out: Vec<u8> = Vec::new();
    push_str(&mut out, prefix);
    push_bytes(&mut out, span.get(source));
    push_str(&mut out, suffix);
    proof {
        assert(out@ =~= prefix.spec_bytes() + quote(source@, span) + suffix.spec_bytes());
    }
    out
}

impl Diagnostic for LexError {
    open spec fn spec_renderable(&self, source: Seq<u8>) -> bool {
        match *self {
            LexError::UnexpectedCharacter { span, .. } => renderable(source, span),
            LexError::UnterminatedBlockComment { span } => renderable(source, span),
            LexError::UnterminatedString { span } => renderable(source, span),
        }
    }

    open spec fn spec_render(&self, source: Seq<u8>) -> Seq<u8> {
        match *self {
            LexError::UnexpectedCharacter { span, char } => error_text(
                "unexpected character".spec_bytes(),
            ) + at_error(source, span, unexpected_text(char)),
            LexError::UnterminatedBlockComment { span } => error_text(
                "unterminated block comment".spec_bytes(),
            ) + at_error(
                source,
                span,
                "this block comment is missing a closing tag (*/)".spec_bytes(),
            ),
            LexError::UnterminatedString { span } => error_text(
                "unterminated string".spec_bytes(),
            ) + at_error(source, span, "this string is missing a closing quote (\")".spec_bytes()),
        }
    }

    fn can_render(&self, source: &[u8]) -> (r: bool) {
        match self {
            LexError::UnexpectedCharacter { span, .. } => is_renderable(source, *span),
            LexError::UnterminatedBlockComment { span } => is_renderable(source, *span),
            LexError::UnterminatedString { span } => is_renderable(source, *span),
        }
    }

    fn fmt(&self, f: &mut Formatter) {
        match self {
            LexError::UnexpectedCharacter { span, char } => {
                f.error("unexpected character".as_bytes());
                let message = unexpected_message(*char);
                f.span_error(*span, message.as_slice());
            },
            LexError::UnterminatedBlockComment { span } => {
                f.error("unterminated block comment".as_bytes());
                f.span_error(*span, "this block comment is missing a closing tag (*/)".as_bytes());
            },
            LexError::UnterminatedString { span } => {
                f.error("unterminated string".as_bytes());
                f.span_error(*span, "this string is missing a closing quote (\")".as_bytes());
            },
        }
    }
}

impl Diagnostic for ScanError {
    open spec fn spec_renderable(&self, source: Seq<u8>) -> bool {
        match *self {
            ScanError::UnexpectedCharacter { span, .. } => renderable(source, span),
            ScanError::UnterminatedBlockComment(span) => renderable(source, span),
            ScanError::UnterminatedString(span) => renderable(source, span),
        }
    }

    open spec fn spec_render(&self, source: Seq<u8>) -> Seq<u8> {
        match *self {
            ScanError::UnexpectedCharacter { span, char } => error_text(
                "unexpected character".spec_bytes(),
            ) + at_error(source, span, unexpected_text(char)),
            ScanError::UnterminatedBlockComment(span) => error_text(
                "unterminated block comment".spec_bytes(),
            ) + at_error(
                source,
                span,
                "this block comment is missing a closing tag (*/)".spec_bytes(),
            ),
            ScanError::UnterminatedString(span) => error_text("unterminated string".spec_bytes())
                + at_error(source, span, "this string is missing a closing quote (\")".spec_bytes()),
        }
    }

    fn can_render(&self, source: &[u8]) -> (r: bool) {
        match self {
            ScanError::UnexpectedCharacter { span, .. } => is_renderable(source, *span),
            ScanError::UnterminatedBlockComment(span) => is_renderable(source, *span),
            ScanError::UnterminatedString(span) => is_renderable(source, *span),
        }
    }

    fn fmt(&self, f: &mut Formatter) {
        match self {
            ScanError::UnexpectedCharacter { span, char } => {
                f.error("unexpected character".as_bytes());
                let message = unexpected_message(*char);
                f.span_error(*span, message.as_slice());
            },
            ScanError::UnterminatedBlockComment(span) => {
                f.error("unterminated block comment".as_bytes());
                f.span_error(*span, "this block comment is missing a closing tag (*/)".as_bytes());
            },
            ScanError::UnterminatedString(span) => {
                f.error("unterminated string".as_bytes());
                f.span_error(*span, "this string is missing a closing quote (\")".as_bytes());
            },
        }
    }
}

impl Diagnostic for ParseError {
    open spec fn spec_renderable(&self, source: Seq<u8>) -> bool {
        match *self {
            ParseError::ExpectedExpression(span) => showable(source, span),
            ParseError::UnterminatedGroup { start, end } => renderable(source, start) && showable(
                source,
                end,
            ),
            ParseError::UnterminatedStatement { stmt, next } => renderable(source, stmt)
                && next.spec_start() <= next.spec_end() <= source.len(),
            ParseError::UnterminatedBlock { start, end } => renderable(source, start) && showable(
                source,
                end,
            ),
            ParseError::ExpectedIdent(span) => renderable(source, span),
            ParseError::ExpectedLeftParen(span) => renderable(source, span),
            ParseError::ExpectedLeftBrace(span) => renderable(source, span),
            ParseError::InvalidAssignmentTarget(span) => renderable(source, span),
            ParseError::ExpectedSemicolon(span) => renderable(source, span),
            ParseError::ExpectedDot(span) => renderable(source, span),
        }
    }

    open spec fn spec_render(&self, source: Seq<u8>) -> Seq<u8> {
        match *self {
            ParseError::ExpectedExpression(span) => error_text("unexpected token".spec_bytes())
                + at_error(
                source,
                span,
                "expected expression, found '".spec_bytes() + quote(source, span) + "'".spec_bytes(),
            ),
            ParseError::UnterminatedGroup { start, end } => error_text(
                "unterminated group".spec_bytes(),
            ) + at_error(
                source,
                start,
                "the group started here is missing a closing ')'".spec_bytes(),
            ) + at_error(
                source,
                end,
                "insert a ')' before '".spec_bytes() + quote(source, end) + "'".spec_bytes(),
            ),
            ParseError::UnterminatedStatement { stmt, next } => error_text(
                "unterminated statement".spec_bytes(),
            ) + at_error(
                source,
                stmt,
                "this statement was followed by '".spec_bytes() + quote(source, next)
                    + "' instead of ';'".spec_bytes(),
            ),
            ParseError::UnterminatedBlock { start, end } => error_text(
                "unterminated block".spec_bytes(),
            ) + at_error(
                source,
                start,
                "the block started here is missing a closing '}'".spec_bytes(),
            ) + at_error(
                source,
                end,
                "insert a '}' before '".spec_bytes() + quote(source, end) + "'".spec_bytes(),
            ),
            ParseError::ExpectedIdent(span) => error_text("expected identifier".spec_bytes())
                + at_error(source, span, "expected an identifier here".spec_bytes()),
            ParseError::ExpectedLeftParen(span) => error_text(
                "missing opening parenthesis".spec_bytes(),
            ) + at_error(source, span, "expected a '(' here".spec_bytes()),
            ParseError::ExpectedLeftBrace(span) => error_text("missing opening brace".spec_bytes())
                + at_error(source, span, "expected a '{' here".spec_bytes()),
            ParseError::InvalidAssignmentTarget(span) => error_text(
                "invalid assignment target".spec_bytes(),
            ) + at_error(
                source,
                span,
                "this is the left-hand side of an assignment expression, but is not a place".spec_bytes(),
            ),
            ParseError::ExpectedSemicolon(span) => error_text("missing semicolon".spec_bytes())
                + at_error(source, span, "expected a ';' here".spec_bytes()),
            ParseError::ExpectedDot(span) => error_text("missing dot".spec_bytes()) + at_error(
                source,
                span,
                "expected a '.' here".spec_bytes(),
            ),
        }
    }

    #[verifier::rlimit(60)]
    #[verifier::spinoff_prover]
    fn can_render(&self, source: &[u8]) -> (r: bool) {
        match self {
            ParseError::ExpectedExpression(span) => is_showable(source, *span),
            ParseError::UnterminatedGroup { start, end } => is_renderable(source, *start) && is_showable(
                source,
                *end,
            ),
            ParseError::UnterminatedStatement { stmt, next } => is_renderable(source, *stmt) && next.start()
                <= next.end() && next.end() <= source.len(),
            ParseError::UnterminatedBlock { start, end } => is_renderable(source, *start) && is_showable(
                source,
                *end,
            ),
            ParseError::ExpectedIdent(span) => is_renderable(source, *span),
            ParseError::ExpectedLeftParen(span) => is_renderable(source, *span),
            ParseError::ExpectedLeftBrace(span) => is_renderable(source, *span),
            ParseError::InvalidAssignmentTarget(span) => is_renderable(source, *span),
            ParseError::ExpectedSemicolon(span) => is_renderable(source, *span),
            ParseError::ExpectedDot(span) => is_renderable(source, *span),
        }
    }

    #[verifier::spinoff_prover]
    #[verifier::rlimit(40)]
    fn fmt(&self, f: &mut Formatter) {
        match self {
            ParseError::ExpectedExpression(span) => {
                f.error("unexpected token".as_bytes());
                let message = quoted_message(f.source(), *span, "expected expression, found '", "'");
                f.span_error(*span, message.as_slice());
            },
            ParseError::UnterminatedGroup { start, end } => {
                f.error("unterminated group".as_bytes());
                f.span_error(*start, "the group started here is missing a closing ')'".as_bytes());
                let message = quoted_message(f.source(), *end, "insert a ')' before '", "'");
                f.span_error(*end, message.as_slice());
            },
            ParseError::UnterminatedStatement { stmt, next } => {
                f.error("unterminated statement".as_bytes());
                let message = quoted_message(
                    f.source(),
                    *next,
                    "this statement was followed by '",
                    "' instead of ';'",
                );
                f.span_error(*stmt, message.as_slice());
            },
            ParseError::UnterminatedBlock { start, end } => {
                f.error("unterminated block".as_bytes());
                f.span_error(*start, "the block started here is missing a closing '}'".as_bytes());
                let message = quoted_message(f.source(), *end, "insert a '}' before '", "'");
                f.span_error(*end, message.as_slice());
            },
            ParseError::ExpectedIdent(span) => {
                f.error("expected identifier".as_bytes());
                f.span_error(*span, "expected an identifier here".as_bytes());
            },
            ParseError::ExpectedLeftParen(span) => {
                f.error("missing opening parenthesis".as_bytes());
                f.span_error(*span, "expected a '(' here".as_bytes());
            },
            ParseError::ExpectedLeftBrace(span) => {
                f.error("missing opening brace".as_bytes());
                f.span_error(*span, "expected a '{' here".as_bytes());
            },
            ParseError::InvalidAssignmentTarget(span) => {
                f.error("invalid assignment target".as_bytes());
                f.span_error(
                    *span,
                    "this is the left-hand side of an assignment expression, but is not a place".as_bytes(),
                );
            },
            ParseError::ExpectedSemicolon(span) => {
                f.error("missing semicolon".as_bytes());
                f.span_error(*span, "expected a ';' here".as_bytes());
            },
            ParseError::ExpectedDot(span) => {
                f.error("missing dot".as_bytes());
                f.span_error(*span, "expected a '.' here".as_bytes());
            },
        }
    }
}

impl Diagnostic for CompileError {
    open spec fn spec_renderable(&self, source: Seq<u8>) -> bool {
        match *self {
            CompileError::UndefinedItem { span } => showable(source, span),
            CompileError::ItemRedefined { original, redefinition } => renderable(source, original)
                && showable(source, redefinition),
            CompileError::ReturnInInitializer { span } => renderable(source, span),
        }
    }

    open spec fn spec_render(&self, source: Seq<u8>) -> Seq<u8> {
        match *self {
            CompileError::UndefinedItem { span } => error_text(
                "undefined item '".spec_bytes() + quote(source, span) + "'".spec_bytes(),
            ) + at_error(source, span, "referenced here".spec_bytes()),
            CompileError::ItemRedefined { original, redefinition } => error_text(
                "duplicate item definition".spec_bytes(),
            ) + at_error(
                source,
                redefinition,
                "'".spec_bytes() + quote(source, redefinition) + "' was already defined".spec_bytes(),
            ) + at_help(source, original, "previously defined here".spec_bytes()),
            CompileError::ReturnInInitializer { span } => error_text(
                "return in initializer".spec_bytes(),
            ) + at_error(source, span, "an initializer cannot return".spec_bytes()),
        }
    }

    fn can_render(&self, source: &[u8]) -> (r: bool) {
        match self {
            CompileError::UndefinedItem { span } => is_showable(source, *span),
            CompileError::ItemRedefined { original, redefinition } => is_renderable(source, *original)
                && is_showable(source, *redefinition),
            CompileError::ReturnInInitializer { span } => is_renderable(source, *span),
        }
    }

    fn fmt(&self, f: &mut Formatter) {
        match self {
            CompileError::UndefinedItem { span } => {
                let message = quoted_message(f.source(), *span, "undefined item '", "'");
                f.error(message.as_slice());
                f.span_error(*span, "referenced here".as_bytes());
            },
            CompileError::ItemRedefined { original, redefinition } => {
                f.error("duplicate item definition".as_bytes());
                let message = quoted_message(f.source(), *redefinition, "'", "' was already defined");
                f.span_error(*redefinition, message.as_slice());
                f.span_help(*original, "previously defined here".as_bytes());
            },
            CompileError::ReturnInInitializer { span } => {
                f.error("return in initializer".as_bytes());
                f.span_error(*span, "an initializer cannot return".as_bytes());
            },
        }
    }
}

} // verus!
