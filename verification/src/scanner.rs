use vstd::prelude::*;
use vstd::string::StringSliceAdditionalSpecFns;

use crate::chars::{
    block_comment_end, closing_quote, lemma_closing_quote, number_end, skip_digits, skip_ident,
    skip_line,
};
use crate::lexer::{
    lemma_lex_step_advances, lemma_lex_step_from_source, lex_step, spec_span, token_from_source,
    LexError,
};
use crate::span::Span;
use crate::token::{keyword, keyword_kind, simple_token, tokens_view, Token, TokenKind, TokenView};

verus! {

broadcast use Span::lemma_span_bounds;

/// An error met while scanning.
#[derive(Clone, Copy, Debug, PartialEq, Eq)]
pub enum ScanError {
    UnexpectedCharacter { span: Span, char: u8 },
    UnterminatedBlockComment(Span),
    UnterminatedString(Span),
}

/// The scanner's error for an error of the lexer's kind.
pub open spec fn scan_error_of(e: LexError) -> ScanError {
    match e {
        LexError::UnexpectedCharacter { span, char } => ScanError::UnexpectedCharacter { span, char },
        LexError::UnterminatedBlockComment { span } => ScanError::UnterminatedBlockComment(span),
        LexError::UnterminatedString { span } => ScanError::UnterminatedString(span),
    }
}

/// One step of the scanner on the lexeme whose first byte is at `start`.
///
/// It differs from the lexer's step in two places: a `/` that ends the
/// source yields nothing, and a string literal ends at its closing quote.
pub open spec fn scan_step(src: Seq<u8>, start: int) -> (int, Seq<TokenView>, Seq<ScanError>) {
    let c = src[start];
    let i = start + 1;
    if c == 47 && i >= src.len() {
        (i, seq![], seq![])
    } else if c == 34 {
        match closing_quote(src, i) {
            Some(e) => (
                e,
                seq![(TokenKind::StringLiteral, spec_span(start, e), src.subrange(start + 1, e - 1))],
                seq![],
            ),
            None => (
                src.len() as int,
                seq![],
                seq![ScanError::UnterminatedString(spec_span(start, src.len() as int))],
            ),
        }
    } else {
        let step = lex_step(src, start);
        (step.0, step.1, step.2.map_values(|e: LexError| scan_error_of(e)))
    }
}

pub proof fn lemma_scan_step_advances(src: Seq<u8>, start: int)
    requires
        0 <= start < src.len(),
    ensures
        start < scan_step(src, start).0 <= src.len(),
{
    lemma_lex_step_advances(src, start);
    lemma_closing_quote(src, start + 1);
}

/// A space, tab, carriage return or newline between lexemes is skipped:
/// scanning from it gives exactly what scanning from the next byte gives.
pub proof fn lemma_scan_skips_whitespace(src: Seq<u8>, pos: int)
    requires
        0 <= pos < src.len(),
        src[pos] == 32 || src[pos] == 9 || src[pos] == 13 || src[pos] == 10,
    ensures
        scan_from(src, pos) == scan_from(src, pos + 1),
{
    let rest = scan_from(src, pos + 1);
    assert(lex_step(src, pos) == (pos + 1, Seq::<TokenView>::empty(), Seq::<LexError>::empty()));
    assert(Seq::<LexError>::empty().map_values(|e: LexError| scan_error_of(e)) =~= Seq::<ScanError>::empty());
    assert(scan_step(src, pos) == (pos + 1, Seq::<TokenView>::empty(), Seq::<ScanError>::empty()));
    assert(Seq::<TokenView>::empty() + rest.0 =~= rest.0);
    assert(Seq::<ScanError>::empty() + rest.1 =~= rest.1);
}

/// Scanning whitespace alone, from any point on, gives no token and no
/// error.
pub proof fn lemma_scan_whitespace_only(src: Seq<u8>, pos: int)
    requires
        0 <= pos,
        forall|i: int| 0 <= i < src.len() ==> #[trigger] src[i] == 32 || src[i] == 9 || src[i] == 13 || src[i] == 10,
    ensures
        scan_from(src, pos) == (Seq::<TokenView>::empty(), Seq::<ScanError>::empty()),
    decreases src.len() - pos,
{
    if pos < src.len() {
        lemma_scan_whitespace_only(src, pos + 1);
        lemma_scan_skips_whitespace(src, pos);
    }
}

/// Punctuation scans to the token of its own kind, one byte long, or two
/// bytes long where `!`, `=`, `<` or `>` is followed by `=`; a `/` that
/// starts no comment is a slash. Scanning then goes on after it.
pub proof fn lemma_scan_punctuation(src: Seq<u8>, pos: int)
    requires
        0 <= pos < src.len(),
    ensures
        ({
            let r1 = scan_from(src, pos + 1);
            let r2 = scan_from(src, pos + 2);
            let next_eq = pos + 1 < src.len() && src[pos + 1] == 61u8;
            &&& src[pos] == 40u8 ==> scan_from(src, pos) == (seq![simple_token(TokenKind::LeftParen, pos, pos + 1)] + r1.0, r1.1)
            &&& src[pos] == 41u8 ==> scan_from(src, pos) == (seq![simple_token(TokenKind::RightParen, pos, pos + 1)] + r1.0, r1.1)
            &&& src[pos] == 123u8 ==> scan_from(src, pos) == (seq![simple_token(TokenKind::LeftBrace, pos, pos + 1)] + r1.0, r1.1)
            &&& src[pos] == 125u8 ==> scan_from(src, pos) == (seq![simple_token(TokenKind::RightBrace, pos, pos + 1)] + r1.0, r1.1)
            &&& src[pos] == 44u8 ==> scan_from(src, pos) == (seq![simple_token(TokenKind::Comma, pos, pos + 1)] + r1.0, r1.1)
            &&& src[pos] == 46u8 ==> scan_from(src, pos) == (seq![simple_token(TokenKind::Dot, pos, pos + 1)] + r1.0, r1.1)
            &&& src[pos] == 45u8 ==> scan_from(src, pos) == (seq![simple_token(TokenKind::Minus, pos, pos + 1)] + r1.0, r1.1)
            &&& src[pos] == 43u8 ==> scan_from(src, pos) == (seq![simple_token(TokenKind::Plus, pos, pos + 1)] + r1.0, r1.1)
            &&& src[pos] == 59u8 ==> scan_from(src, pos) == (seq![simple_token(TokenKind::Semicolon, pos, pos + 1)] + r1.0, r1.1)
            &&& src[pos] == 42u8 ==> scan_from(src, pos) == (seq![simple_token(TokenKind::Star, pos, pos + 1)] + r1.0, r1.1)
            &&& src[pos] == 33u8 && !next_eq ==> scan_from(src, pos) == (seq![simple_token(TokenKind::Bang, pos, pos + 1)] + r1.0, r1.1)
            &&& src[pos] == 33u8 && next_eq ==> scan_from(src, pos) == (seq![simple_token(TokenKind::BangEqual, pos, pos + 2)] + r2.0, r2.1)
            &&& src[pos] == 61u8 && !next_eq ==> scan_from(src, pos) == (seq![simple_token(TokenKind::Equal, pos, pos + 1)] + r1.0, r1.1)
            &&& src[pos] == 61u8 && next_eq ==> scan_from(src, pos) == (seq![simple_token(TokenKind::EqualEqual, pos, pos + 2)] + r2.0, r2.1)
            &&& src[pos] == 60u8 && !next_eq ==> scan_from(src, pos) == (seq![simple_token(TokenKind::Less, pos, pos + 1)] + r1.0, r1.1)
            &&& src[pos] == 60u8 && next_eq ==> scan_from(src, pos) == (seq![simple_token(TokenKind::LessEqual, pos, pos + 2)] + r2.0, r2.1)
            &&& src[pos] == 62u8 && !next_eq ==> scan_from(src, pos) == (seq![simple_token(TokenKind::Greater, pos, pos + 1)] + r1.0, r1.1)
            &&& src[pos] == 62u8 && next_eq ==> scan_from(src, pos) == (seq![simple_token(TokenKind::GreaterEqual, pos, pos + 2)] + r2.0, r2.1)
            &&& src[pos] == 47u8 && pos + 1 < src.len() && src[pos + 1] != 47u8 && src[pos + 1] != 42u8 ==> scan_from(src, pos) == (seq![simple_token(TokenKind::Slash, pos, pos + 1)] + r1.0, r1.1)
        }),
{
    let r1 = scan_from(src, pos + 1);
    let r2 = scan_from(src, pos + 2);
    assert(Seq::<ScanError>::empty() + r1.1 =~= r1.1);
    assert(Seq::<ScanError>::empty() + r2.1 =~= r2.1);
}

/// The tokens and errors of scanning `src` from `pos` to its end, before
/// the end-of-file token.
pub open spec fn scan_from(src: Seq<u8>, pos: int) -> (Seq<TokenView>, Seq<ScanError>)
    decreases src.len() - pos,
{
    if 0 <= pos < src.len() {
        let step = scan_step(src, pos);
        proof {
            lemma_scan_step_advances(src, pos);
        }
        let rest = scan_from(src, step.0);
        (step.1 + rest.0, step.2 + rest.1)
    } else {
        (seq![], seq![])
    }
}

/// The tokens of an optional token.
pub open spec fn opt_tokens(t: Option<Token>) -> Seq<TokenView> {
    match t {
        Some(t) => seq![t@],
        None => seq![],
    }
}

/// A scanner over the bytes of a source text, collecting its errors.
pub struct Scanner<'a> {
    source: &'a [u8],
    start: usize,
    current: usize,
    pub errors: Vec<ScanError>,
}

impl<'a> Scanner<'a> {
    /// The bytes being scanned.
    pub closed spec fn source_bytes(&self) -> Seq<u8> {
        self.source@
    }

    /// The offset of the next byte to scan.
    pub closed spec fn position(&self) -> int {
        self.current as int
    }

    /// The errors recorded so far.
    pub closed spec fn recorded_errors(&self) -> Seq<ScanError> {
        self.errors@
    }

    pub closed spec fn wf(&self) -> bool {
        &&& self.start <= self.current <= self.source@.len()
        &&& self.source@.len() <= usize::MAX
    }

    pub fn new(source: &'a str) -> (r: Self)
        ensures
            r.wf(),
            r.source_bytes() == source.spec_bytes(),
            r.position() == 0,
            r.recorded_errors().len() == 0,
    {
        let bytes = source.as_bytes();
        let _len = bytes.len();
        Scanner { source: bytes, start: 0, current: 0, errors: Vec::new() }
    }

    /// Scans from the current position to the end of the source, returning
    /// the tokens, the last one end-of-file, and recording the errors.
    pub fn scan_tokens(&mut self) -> (r: Vec<Token>)
        requires
            old(self).wf(),
        ensures
            final(self).wf(),
            final(self).source_bytes() == old(self).source_bytes(),
            final(self).position() == old(self).source_bytes().len(),
            tokens_view(r@) == scan_from(old(self).source_bytes(), old(self).position()).0.push(
                simple_token(
                    TokenKind::Eof,
                    old(self).source_bytes().len() as int,
                    old(self).source_bytes().len() as int,
                ),
            ),
            final(self).recorded_errors() == old(self).recorded_errors() + scan_from(
                old(self).source_bytes(),
                old(self).position(),
            ).1,
    {
        let ghost src = self.source@;
        let ghost first = self.current as int;
        let mut result: Vec<Token> = Vec::new();
        loop
            invariant
                self.source@ == src,
                self.wf(),
                first <= self.current,
                tokens_view(result@) + scan_from(src, self.current as int).0 == scan_from(src, first).0,
                self.errors@ + scan_from(src, self.current as int).1 == old(self).errors@ + scan_from(
                    src,
                    first,
                ).1,
            ensures
                self.source@ == src,
                self.wf(),
                self.current == src.len(),
                tokens_view(result@) + scan_from(src, self.current as int).0 == scan_from(src, first).0,
                self.errors@ + scan_from(src, self.current as int).1 == old(self).errors@ + scan_from(
                    src,
                    first,
                ).1,
            decreases src.len() - self.current,
        {
            self.start = self.current;
            let ghost pos = self.current as int;
            let ghost old_tokens = tokens_view(result@);
            let ghost old_errors = self.errors@;
            let Some(c) = self.advance() else {
                break;
            };
            if let Some(token) = self.scan_token(c) {
                result.push(token);
            }
            proof {
                let step = scan_step(src, pos);
                lemma_scan_step_advances(src, pos);
                assert(tokens_view(result@) =~= old_tokens + step.1);
                assert(scan_from(src, pos).0 == step.1 + scan_from(src, step.0).0);
                assert(old_tokens + (step.1 + scan_from(src, step.0).0) =~= (old_tokens + step.1)
                    + scan_from(src, step.0).0);
                assert(old_errors + (step.2 + scan_from(src, step.0).1) =~= (old_errors + step.2)
                    + scan_from(src, step.0).1);
            }
        }
        self.start = self.current;
        let ghost before = tokens_view(result@);
        let span = self.span();
        result.push(Token { kind: TokenKind::Eof, span, value: Vec::new() });
        proof {
            assert(scan_from(src, self.current as int).0 =~= seq![]);
            assert(scan_from(src, self.current as int).1 =~= seq![]);
            assert(before + seq![] =~= before);
            assert(self.errors@ + seq![] =~= self.errors@);
            assert(tokens_view(result@) =~= before.push(
                simple_token(TokenKind::Eof, src.len() as int, src.len() as int),
            ));
        }
        result
    }

    /// Scans the lexeme whose first byte `c` was just read.
    fn scan_token(&mut self, c: u8) -> (r: Option<Token>)
        requires
            old(self).wf(),
            old(self).current == old(self).start + 1,
            old(self).source@[old(self).start as int] == c,
        ensures
            final(self).wf(),
            final(self).source == old(self).source,
            final(self).current == scan_step(old(self).source@, old(self).start as int).0,
            opt_tokens(r) == scan_step(old(self).source@, old(self).start as int).1,
            final(self).errors@ == old(self).errors@ + scan_step(
                old(self).source@,
                old(self).start as int,
            ).2,
    {
        let ghost src = self.source@;
        let ghost start = self.start as int;
        proof {
            lemma_scan_step_advances(src, start);
            assert(seq![].map_values(|e: LexError| scan_error_of(e)) =~= seq![]);
            assert(self.errors@ + seq![] =~= self.errors@);
        }
        let r = if c == 40 {
            Some(self.simple(TokenKind::LeftParen))
        } else if c == 41 {
            Some(self.simple(TokenKind::RightParen))
        } else if c == 123 {
            Some(self.simple(TokenKind::LeftBrace))
        } else if c == 125 {
            Some(self.simple(TokenKind::RightBrace))
        } else if c == 44 {
            Some(self.simple(TokenKind::Comma))
        } else if c == 46 {
            Some(self.simple(TokenKind::Dot))
        } else if c == 45 {
            Some(self.simple(TokenKind::Minus))
        } else if c == 43 {
            Some(self.simple(TokenKind::Plus))
        } else if c == 59 {
            Some(self.simple(TokenKind::Semicolon))
        } else if c == 42 {
            Some(self.simple(TokenKind::Star))
        } else if c == 33 {
            if self.expect(61) {
                Some(self.simple(TokenKind::BangEqual))
            } else {
                Some(self.simple(TokenKind::Bang))
            }
        } else if c == 61 {
            if self.expect(61) {
                Some(self.simple(TokenKind::EqualEqual))
            } else {
                Some(self.simple(TokenKind::Equal))
            }
        } else if c == 60 {
            if self.expect(61) {
                Some(self.simple(TokenKind::LessEqual))
            } else {
                Some(self.simple(TokenKind::Less))
            }
        } else if c == 62 {
            if self.expect(61) {
                Some(self.simple(TokenKind::GreaterEqual))
            } else {
                Some(self.simple(TokenKind::Greater))
            }
        } else if c == 47 {
            match self.peek() {
                None => None,
                Some(47) => {
                    self.line_comment();
                    None
                },
                Some(42) => {
                    self.block_comment();
                    proof {
                        assert(seq![LexError::UnterminatedBlockComment {
                            span: spec_span(start, src.len() as int) }].map_values(|e: LexError| scan_error_of(e))
                            =~= seq![ScanError::UnterminatedBlockComment(spec_span(start, src.len() as int))]);
                    }
                    None
                },
                _ => Some(self.simple(TokenKind::Slash)),
            }
        } else if c == 34 {
            self.string()
        } else if 48 <= c && c <= 57 {
            self.number()
        } else if c == 95 || (97 <= c && c <= 122) || (65 <= c && c <= 90) {
            Some(self.identifier())
        } else if c == 32 || c == 13 || c == 9 || c == 10 {
            None
        } else {
            let span = self.span();
            self.error(ScanError::UnexpectedCharacter { span, char: c });
            proof {
                assert(seq![LexError::UnexpectedCharacter { span: spec_span(start, start + 1), char: c }].map_values(
                    |e: LexError| scan_error_of(e),
                ) =~= seq![ScanError::UnexpectedCharacter { span: spec_span(start, start + 1), char: c }]);
            }
            None
        };
        r
    }

    fn string(&mut self) -> (r: Option<Token>)
        requires
            old(self).wf(),
            old(self).current == old(self).start + 1,
        ensures
            final(self).wf(),
            final(self).source == old(self).source,
            ({
                let src = old(self).source@;
                let start = old(self).start as int;
                match closing_quote(src, start + 1) {
                    Some(e) => {
                        &&& final(self).current == e
                        &&& opt_tokens(r) == seq![
                            (TokenKind::StringLiteral, spec_span(start, e), src.subrange(start + 1, e - 1)),
                        ]
                        &&& final(self).errors@ == old(self).errors@
                    },
                    None => {
                        &&& final(self).current == src.len()
                        &&& r.is_none()
                        &&& final(self).errors@ == old(self).errors@.push(
                            ScanError::UnterminatedString(spec_span(start, src.len() as int)),
                        )
                    },
                }
            }),
    {
        let ghost src = self.source@;
        let ghost start = self.start as int;
        let ghost first = self.current as int;
        loop
            invariant
                self.wf(),
                self.source@ == src,
                self.source == old(self).source,
                self.start == start,
                self.errors@ == old(self).errors@,
                self.current >= start + 1,
                first == start + 1,
                start == old(self).start,
                src == old(self).source@,
                closing_quote(src, self.current as int) == closing_quote(src, first),
            ensures
                self.wf(),
                self.source@ == src,
                self.source == old(self).source,
                self.start == start,
                self.errors@ == old(self).errors@,
                self.current == src.len(),
                closing_quote(src, self.current as int) == closing_quote(src, first),
            decreases self.source@.len() - self.current,
        {
            let ghost i = self.current as int;
            let Some(c) = self.advance() else {
                break;
            };
            if c == 34 {
                let value = vstd::slice::slice_to_vec(
                    vstd::slice::slice_subrange(self.source, self.start + 1, self.current - 1),
                );
                let span = self.span();
                assert(closing_quote(src, i) == Some(self.current as int));
                let token = Token { kind: TokenKind::StringLiteral, span, value };
                assert(token@ == (
                    TokenKind::StringLiteral,
                    spec_span(start, self.current as int),
                    src.subrange(start + 1, self.current - 1),
                ));
                assert(opt_tokens(Some(token)) =~= seq![token@]);
                assert(closing_quote(src, first) == Some(self.current as int));
                assert(first == old(self).start + 1);
                assert(src == old(self).source@);
                return Some(token);
            }
            assert(closing_quote(src, i) == closing_quote(src, self.current as int));
        }
        assert(closing_quote(src, self.current as int) == None::<int>);
        let span = self.span();
        self.error(ScanError::UnterminatedString(span));
        None
    }

    fn number(&mut self) -> (r: Option<Token>)
        requires
            old(self).wf(),
            old(self).current == old(self).start + 1,
        ensures
            final(self).wf(),
            final(self).source == old(self).source,
            final(self).current == number_end(old(self).source@, old(self).start as int),
            opt_tokens(r) == seq![
                (
                    TokenKind::FloatLiteral,
                    spec_span(
                        old(self).start as int,
                        number_end(old(self).source@, old(self).start as int),
                    ),
                    old(self).source@.subrange(
                        old(self).start as int,
                        number_end(old(self).source@, old(self).start as int),
                    ),
                ),
            ],
            final(self).errors@ == old(self).errors@,
    {
        self.skip_digits();
        if self.peek() == Some(46u8) {
            if let Some(d) = self.peek_next() {
                if 48 <= d && d <= 57 {
                    self.advance();
                    self.skip_digits();
                }
            }
        }
        let value = vstd::slice::slice_to_vec(
            vstd::slice::slice_subrange(self.source, self.start, self.current),
        );
        let span = self.span();
        Some(Token { kind: TokenKind::FloatLiteral, span, value })
    }

    fn identifier(&mut self) -> (r: Token)
        requires
            old(self).wf(),
            old(self).current == old(self).start + 1,
        ensures
            final(self).wf(),
            final(self).source == old(self).source,
            ({
                let src = old(self).source@;
                let start = old(self).start as int;
                let e = skip_ident(src, start + 1);
                let word = src.subrange(start, e);
                &&& final(self).current == e
                &&& r@ == match keyword_kind(word) {
                    Some(k) => simple_token(k, start, e),
                    None => (TokenKind::Identifier, spec_span(start, e), word),
                }
            }),
            final(self).errors@ == old(self).errors@,
    {
        let ghost src = self.source@;
        let ghost first = self.current as int;
        loop
            invariant_except_break
                self.wf(),
                self.source@ == src,
                self.source == old(self).source,
                self.start == old(self).start,
                self.errors@ == old(self).errors@,
                skip_ident(src, self.current as int) == skip_ident(src, first),
            ensures
                self.wf(),
                self.source@ == src,
                self.source == old(self).source,
                self.start == old(self).start,
                self.errors@ == old(self).errors@,
                self.current == skip_ident(src, first),
            decreases self.source@.len() - self.current,
        {
            let Some(c) = self.peek() else {
                break;
            };
            if c == 95 || (97 <= c && c <= 122) || (65 <= c && c <= 90) || (48 <= c && c <= 57) {
                self.advance();
            } else {
                break;
            }
        }
        match keyword(self.source, self.start, self.current) {
            Some(kind) => self.simple(kind),
            None => {
                let value = vstd::slice::slice_to_vec(
                    vstd::slice::slice_subrange(self.source, self.start, self.current),
                );
                let span = self.span();
                Token { kind: TokenKind::Identifier, span, value }
            },
        }
    }

    fn simple(&self, kind: TokenKind) -> (r: Token)
        requires
            self.wf(),
        ensures
            r@ == simple_token(kind, self.start as int, self.current as int),
    {
        let span = self.span();
        Token { kind, span, value: Vec::new() }
    }

    fn error(&mut self, e: ScanError)
        requires
            old(self).wf(),
        ensures
            final(self).wf(),
            final(self).source == old(self).source,
            final(self).start == old(self).start,
            final(self).current == old(self).current,
            final(self).errors@ == old(self).errors@.push(e),
    {
        self.errors.push(e);
    }

    fn peek(&self) -> (r: Option<u8>)
        ensures
            r == if self.current < self.source@.len() {
                Some(self.source@[self.current as int])
            } else {
                None::<u8>
            },
    {
        if self.current < self.source.len() {
            Some(self.source[self.current])
        } else {
            None
        }
    }

    fn peek_next(&self) -> (r: Option<u8>)
        requires
            self.wf(),
        ensures
            r == if self.current + 1 < self.source@.len() {
                Some(self.source@[self.current + 1])
            } else {
                None::<u8>
            },
    {
        if self.current < self.source.len() && self.source.len() - self.current > 1 {
            Some(self.source[self.current + 1])
        } else {
            None
        }
    }

    fn advance(&mut self) -> (r: Option<u8>)
        requires
            old(self).wf(),
        ensures
            final(self).wf(),
            final(self).source == old(self).source,
            final(self).start == old(self).start,
            final(self).errors@ == old(self).errors@,
            if old(self).current < old(self).source@.len() {
                &&& r == Some(old(self).source@[old(self).current as int])
                &&& final(self).current == old(self).current + 1
            } else {
                &&& r == None::<u8>
                &&& final(self).current == old(self).current
            },
    {
        let c = self.peek();
        if c.is_some() {
            self.current += 1;
        }
        c
    }

    fn expect(&mut self, next: u8) -> (r: bool)
        requires
            old(self).wf(),
        ensures
            final(self).wf(),
            final(self).source == old(self).source,
            final(self).start == old(self).start,
            final(self).errors@ == old(self).errors@,
            r == (old(self).current < old(self).source@.len() && old(self).source@[old(self).current as int]
                == next),
            final(self).current == old(self).current + if r {
                1int
            } else {
                0
            },
    {
        let c = self.peek();
        if c == Some(next) {
            self.advance();
            true
        } else {
            false
        }
    }

    fn span(&self) -> (r: Span)
        requires
            self.wf(),
        ensures
            r == spec_span(self.start as int, self.current as int),
    {
        Span::new(self.start, self.current)
    }

    fn line_comment(&mut self)
        requires
            old(self).wf(),
            old(self).current == old(self).start + 1,
            old(self).current < old(self).source@.len(),
        ensures
            final(self).wf(),
            final(self).source == old(self).source,
            final(self).start == old(self).start,
            final(self).current == skip_line(old(self).source@, old(self).current + 1),
            final(self).errors@ == old(self).errors@,
    {
        let ghost src = self.source@;
        self.advance();
        let ghost first = self.current as int;
        loop
            invariant_except_break
                self.wf(),
                self.source@ == src,
                self.source == old(self).source,
                self.start == old(self).start,
                self.errors@ == old(self).errors@,
                skip_line(src, self.current as int) == skip_line(src, first),
            ensures
                self.wf(),
                self.source@ == src,
                self.source == old(self).source,
                self.start == old(self).start,
                self.errors@ == old(self).errors@,
                self.current == skip_line(src, first),
            decreases self.source@.len() - self.current,
        {
            let Some(next) = self.advance() else {
                break;
            };
            if next == 10 {
                break;
            }
        }
    }

    fn block_comment(&mut self)
        requires
            old(self).wf(),
            old(self).current == old(self).start + 1,
            old(self).current < old(self).source@.len(),
        ensures
            final(self).wf(),
            final(self).source == old(self).source,
            final(self).start == old(self).start,
            match block_comment_end(old(self).source@, old(self).current + 1, 1) {
                Some(e) => final(self).current == e && final(self).errors@ == old(self).errors@,
                None => final(self).current == old(self).source@.len() && final(self).errors@
                    == old(self).errors@.push(
                    ScanError::UnterminatedBlockComment(
                        spec_span(old(self).start as int, old(self).source@.len() as int),
                    ),
                ),
            },
    {
        let ghost src = self.source@;
        let mut depth: usize = 1;
        self.advance();
        let ghost first = self.current as int;
        assert(first == old(self).current + 1);
        loop
            invariant
                self.wf(),
                self.source@ == src,
                self.source == old(self).source,
                self.start == old(self).start,
                self.errors@ == old(self).errors@,
                1 <= depth <= self.current,
                self.source == old(self).source,
                first == old(self).current + 1,
                block_comment_end(src, self.current as int, depth as nat) == block_comment_end(
                    src,
                    first,
                    1,
                ),
            ensures
                self.wf(),
                self.source == old(self).source,
                self.start == old(self).start,
                self.errors@ == old(self).errors@,
                self.current == src.len(),
                block_comment_end(src, self.current as int, depth as nat) == block_comment_end(
                    src,
                    first,
                    1,
                ),
            decreases self.source@.len() - self.current,
        {
            let ghost i = self.current as int;
            let ghost d = depth as nat;
            let Some(c) = self.advance() else {
                break;
            };
            if c == 47 {
                if self.expect(42) {
                    depth += 1;
                }
            } else if c == 42 {
                if self.expect(47) {
                    depth -= 1;
                    if depth == 0 {
                        assert(block_comment_end(src, i, d) == Some(self.current as int));
                        assert(block_comment_end(src, first, 1) == Some(self.current as int));
                        assert(first == old(self).current + 1);
                        return;
                    }
                }
            }
            assert(block_comment_end(src, i, d) == block_comment_end(
                src,
                self.current as int,
                depth as nat,
            ));
        }
        assert(block_comment_end(src, self.current as int, depth as nat) == None::<int>);
        let span = self.span();
        self.error(ScanError::UnterminatedBlockComment(span));
    }

    fn skip_digits(&mut self)
        requires
            old(self).wf(),
        ensures
            final(self).wf(),
            final(self).source == old(self).source,
            final(self).start == old(self).start,
            final(self).current == skip_digits(old(self).source@, old(self).current as int),
            final(self).errors@ == old(self).errors@,
    {
        let ghost src = self.source@;
        let ghost first = self.current as int;
        loop
            invariant_except_break
                self.wf(),
                self.source@ == src,
                self.source == old(self).source,
                self.start == old(self).start,
                self.errors@ == old(self).errors@,
                skip_digits(src, self.current as int) == skip_digits(src, first),
            ensures
                self.wf(),
                self.source@ == src,
                self.source == old(self).source,
                self.start == old(self).start,
                self.errors@ == old(self).errors@,
                self.current == skip_digits(src, first),
            decreases self.source@.len() - self.current,
        {
            let Some(c) = self.peek() else {
                break;
            };
            if 48 <= c && c <= 57 {
                self.advance();
            } else {
                break;
            }
        }
    }
}

} // verus!

verus! {

proof fn lemma_scan_step_from_source(src: Seq<u8>, pos: int)
    requires
        0 <= pos < src.len(),
        src.len() <= usize::MAX,
    ensures
        forall|k: int|
            0 <= k < scan_step(src, pos).1.len() ==> token_from_source(
                src,
                #[trigger] scan_step(src, pos).1[k],
            ),
{
    lemma_lex_step_from_source(src, pos);
    lemma_closing_quote(src, pos + 1);
    let c = src[pos];
    if c == 47 && pos + 1 >= src.len() {
    } else if c == 34 {
        if let Some(e) = closing_quote(src, pos + 1) {
            let t = scan_step(src, pos).1[0];
            assert(t.1 == spec_span(pos, e));
        }
    } else {
        assert(scan_step(src, pos).1 == lex_step(src, pos).1);
    }
}

proof fn lemma_scan_from_from_source(src: Seq<u8>, pos: int)
    requires
        0 <= pos <= src.len(),
        src.len() <= usize::MAX,
    ensures
        forall|k: int|
            0 <= k < scan_from(src, pos).0.len() ==> token_from_source(
                src,
                #[trigger] scan_from(src, pos).0[k],
            ),
    decreases src.len() - pos,
{
    if pos < src.len() {
        let step = scan_step(src, pos);
        lemma_scan_step_advances(src, pos);
        lemma_scan_step_from_source(src, pos);
        lemma_scan_from_from_source(src, step.0);
        let rest = scan_from(src, step.0).0;
        assert forall|k: int| 0 <= k < scan_from(src, pos).0.len() implies token_from_source(
            src,
            #[trigger] scan_from(src, pos).0[k],
        ) by {
            if k >= step.1.len() {
                assert(scan_from(src, pos).0[k] == rest[k - step.1.len()]);
            } else {
                assert(scan_from(src, pos).0[k] == step.1[k]);
            }
        }
    }
}

/// Every token that scanning from any position produces comes from the
/// source (its span lies within it, it is not end-of-file, and an
/// identifier holds the bytes of its span and spells no keyword).
pub proof fn lemma_scan_tokens_from_source(src: Seq<u8>, pos: int)
    requires
        0 <= pos <= src.len(),
        src.len() <= usize::MAX,
    ensures
        forall|k: int|
            0 <= k < scan_from(src, pos).0.len() ==> token_from_source(
                src,
                #[trigger] scan_from(src, pos).0[k],
            ),
{
    lemma_scan_from_from_source(src, pos);
}

} // verus!
