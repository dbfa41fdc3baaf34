use vstd::prelude::*;
use vstd::string::StringSliceAdditionalSpecFns;

use crate::chars::{
    block_comment_end, closing_quote, is_digit, is_ident_start, lemma_block_comment_end,
    lemma_number_end, lemma_skip_ident, lemma_skip_line, number_end, skip_digits, skip_ident,
    skip_line,
};
use crate::span::Span;
use crate::token::{keyword, keyword_kind, simple_token, tokens_view, Token, TokenKind, TokenView};

verus! {

broadcast use Span::lemma_span_bounds;

/// An error met while lexing.
#[derive(Clone, Copy, Debug, PartialEq, Eq)]
pub enum LexError {
    UnexpectedCharacter { span: Span, char: u8 },
    UnterminatedBlockComment { span: Span },
    UnterminatedString { span: Span },
}

/// The tokens and errors that lexing a source produced.
pub struct LexOutput {
    pub tokens: Vec<Token>,
    pub errors: Vec<LexError>,
}

/// The outcome of lexing one lexeme: where the next one starts, the tokens
/// produced and the errors met.
pub type LexStep = (int, Seq<TokenView>, Seq<LexError>);

pub open spec fn spec_span(start: int, end: int) -> Span {
    Span::spec_new(start as usize, end as usize)
}

pub open spec fn simple_step(kind: TokenKind, start: int, end: int) -> LexStep {
    (end, seq![simple_token(kind, start, end)], seq![])
}

/// The string literal tokens the lexer emits for an opening quote at
/// `start`: one for every later `"` in the source, each holding all the
/// text between the opening quote and that `"`.
pub open spec fn string_tokens(src: Seq<u8>, start: int, i: int) -> Seq<TokenView>
    decreases src.len() - i,
{
    if 0 <= i < src.len() {
        let rest = string_tokens(src, start, i + 1);
        if src[i] == 34 {
            seq![(TokenKind::StringLiteral, spec_span(start, i + 1), src.subrange(start + 1, i))]
                + rest
        } else {
            rest
        }
    } else {
        seq![]
    }
}

/// One step of the lexer on the lexeme whose first byte is at `start`.
pub open spec fn lex_step(src: Seq<u8>, start: int) -> LexStep {
    let c = src[start];
    let i = start + 1;
    let next_is = |b: u8| i < src.len() && src[i] == b;
    if c == 40 {
        simple_step(TokenKind::LeftParen, start, i)
    } else if c == 41 {
        simple_step(TokenKind::RightParen, start, i)
    } else if c == 123 {
        simple_step(TokenKind::LeftBrace, start, i)
    } else if c == 125 {
        simple_step(TokenKind::RightBrace, start, i)
    } else if c == 44 {
        simple_step(TokenKind::Comma, start, i)
    } else if c == 46 {
        simple_step(TokenKind::Dot, start, i)
    } else if c == 45 {
        simple_step(TokenKind::Minus, start, i)
    } else if c == 43 {
        simple_step(TokenKind::Plus, start, i)
    } else if c == 59 {
        simple_step(TokenKind::Semicolon, start, i)
    } else if c == 42 {
        simple_step(TokenKind::Star, start, i)
    } else if c == 33 {
        if next_is(61) {
            simple_step(TokenKind::BangEqual, start, i + 1)
        } else {
            simple_step(TokenKind::Bang, start, i)
        }
    } else if c == 61 {
        if next_is(61) {
            simple_step(TokenKind::EqualEqual, start, i + 1)
        } else {
            simple_step(TokenKind::Equal, start, i)
        }
    } else if c == 60 {
        if next_is(61) {
            simple_step(TokenKind::LessEqual, start, i + 1)
        } else {
            simple_step(TokenKind::Less, start, i)
        }
    } else if c == 62 {
        if next_is(61) {
            simple_step(TokenKind::GreaterEqual, start, i + 1)
        } else {
            simple_step(TokenKind::Greater, start, i)
        }
    } else if c == 47 {
        if next_is(47) {
            (skip_line(src, i + 1), seq![], seq![])
        } else if next_is(42) {
            match block_comment_end(src, i + 1, 1) {
                Some(e) => (e, seq![], seq![]),
                None => (
                    src.len() as int,
                    seq![],
                    seq![LexError::UnterminatedBlockComment { span: spec_span(start, src.len() as int) }],
                ),
            }
        } else {
            simple_step(TokenKind::Slash, start, i)
        }
    } else if c == 34 {
        (
            src.len() as int,
            string_tokens(src, start, i),
            seq![LexError::UnterminatedString { span: spec_span(start, src.len() as int) }],
        )
    } else if is_digit(c) {
        let e = number_end(src, start);
        (e, seq![(TokenKind::FloatLiteral, spec_span(start, e), src.subrange(start, e))], seq![])
    } else if is_ident_start(c) {
        let e = skip_ident(src, i);
        let word = src.subrange(start, e);
        match keyword_kind(word) {
            Some(k) => simple_step(k, start, e),
            None => (e, seq![(TokenKind::Identifier, spec_span(start, e), word)], seq![]),
        }
    } else if c == 32 || c == 13 || c == 9 || c == 10 {
        (i, seq![], seq![])
    } else {
        (i, seq![], seq![LexError::UnexpectedCharacter { span: spec_span(start, i), char: c }])
    }
}

pub proof fn lemma_lex_step_advances(src: Seq<u8>, start: int)
    requires
        0 <= start < src.len(),
    ensures
        start < lex_step(src, start).0 <= src.len(),
{
    let i = start + 1;
    let c = src[start];
    if c == 47 {
        if i < src.len() {
            lemma_skip_line(src, i + 1);
            lemma_block_comment_end(src, i + 1, 1);
        }
    } else if is_digit(c) {
        lemma_number_end(src, start);
    } else if is_ident_start(c) {
        lemma_skip_ident(src, i);
    }
}

/// A space, tab, carriage return or newline between lexemes is skipped:
/// lexing from it gives exactly what lexing from the next byte gives.
pub proof fn lemma_lex_skips_whitespace(src: Seq<u8>, pos: int)
    requires
        0 <= pos < src.len(),
        src[pos] == 32 || src[pos] == 9 || src[pos] == 13 || src[pos] == 10,
    ensures
        lex_from(src, pos) == lex_from(src, pos + 1),
{
    let rest = lex_from(src, pos + 1);
    assert(lex_step(src, pos) == (pos + 1, Seq::<TokenView>::empty(), Seq::<LexError>::empty()));
    assert(Seq::<TokenView>::empty() + rest.0 =~= rest.0);
    assert(Seq::<LexError>::empty() + rest.1 =~= rest.1);
}

/// Lexing whitespace alone, from any point on, gives no token and no error.
proof fn lemma_lex_whitespace_from(src: Seq<u8>, pos: int)
    requires
        0 <= pos,
        forall|i: int| 0 <= i < src.len() ==> #[trigger] src[i] == 32 || src[i] == 9 || src[i] == 13 || src[i] == 10,
    ensures
        lex_from(src, pos) == (Seq::<TokenView>::empty(), Seq::<LexError>::empty()),
    decreases src.len() - pos,
{
    if pos < src.len() {
        lemma_lex_whitespace_from(src, pos + 1);
        lemma_lex_skips_whitespace(src, pos);
    }
}

/// A source of spaces, tabs, carriage returns and newlines alone lexes to
/// the end-of-file token alone, with no error.
pub proof fn lemma_lex_whitespace_only(src: Seq<u8>)
    requires
        forall|i: int| 0 <= i < src.len() ==> #[trigger] src[i] == 32 || src[i] == 9 || src[i] == 13 || src[i] == 10,
    ensures
        lex_source(src).0 == seq![(TokenKind::Eof, spec_span(src.len() as int, src.len() as int), Seq::<u8>::empty())],
        lex_source(src).1 == Seq::<LexError>::empty(),
{
    lemma_lex_whitespace_from(src, 0);
    assert(lex_source(src).0 =~= seq![(TokenKind::Eof, spec_span(src.len() as int, src.len() as int), Seq::<u8>::empty())]);
}

/// Punctuation lexes to the token of its own kind, one byte long, or two
/// bytes long where `!`, `=`, `<` or `>` is followed by `=`; a `/` that
/// starts no comment is a slash. Lexing then goes on after it.
pub proof fn lemma_lex_punctuation(src: Seq<u8>, pos: int)
    requires
        0 <= pos < src.len(),
    ensures
        ({
            let r1 = lex_from(src, pos + 1);
            let r2 = lex_from(src, pos + 2);
            let next_eq = pos + 1 < src.len() && src[pos + 1] == 61u8;
            &&& src[pos] == 40u8 ==> lex_from(src, pos) == (seq![simple_token(TokenKind::LeftParen, pos, pos + 1)] + r1.0, r1.1)
            &&& src[pos] == 41u8 ==> lex_from(src, pos) == (seq![simple_token(TokenKind::RightParen, pos, pos + 1)] + r1.0, r1.1)
            &&& src[pos] == 123u8 ==> lex_from(src, pos) == (seq![simple_token(TokenKind::LeftBrace, pos, pos + 1)] + r1.0, r1.1)
            &&& src[pos] == 125u8 ==> lex_from(src, pos) == (seq![simple_token(TokenKind::RightBrace, pos, pos + 1)] + r1.0, r1.1)
            &&& src[pos] == 44u8 ==> lex_from(src, pos) == (seq![simple_token(TokenKind::Comma, pos, pos + 1)] + r1.0, r1.1)
            &&& src[pos] == 46u8 ==> lex_from(src, pos) == (seq![simple_token(TokenKind::Dot, pos, pos + 1)] + r1.0, r1.1)
            &&& src[pos] == 45u8 ==> lex_from(src, pos) == (seq![simple_token(TokenKind::Minus, pos, pos + 1)] + r1.0, r1.1)
            &&& src[pos] == 43u8 ==> lex_from(src, pos) == (seq![simple_token(TokenKind::Plus, pos, pos + 1)] + r1.0, r1.1)
            &&& src[pos] == 59u8 ==> lex_from(src, pos) == (seq![simple_token(TokenKind::Semicolon, pos, pos + 1)] + r1.0, r1.1)
            &&& src[pos] == 42u8 ==> lex_from(src, pos) == (seq![simple_token(TokenKind::Star, pos, pos + 1)] + r1.0, r1.1)
            &&& src[pos] == 33u8 && !next_eq ==> lex_from(src, pos) == (seq![simple_token(TokenKind::Bang, pos, pos + 1)] + r1.0, r1.1)
            &&& src[pos] == 33u8 && next_eq ==> lex_from(src, pos) == (seq![simple_token(TokenKind::BangEqual, pos, pos + 2)] + r2.0, r2.1)
            &&& src[pos] == 61u8 && !next_eq ==> lex_from(src, pos) == (seq![simple_token(TokenKind::Equal, pos, pos + 1)] + r1.0, r1.1)
            &&& src[pos] == 61u8 && next_eq ==> lex_from(src, pos) == (seq![simple_token(TokenKind::EqualEqual, pos, pos + 2)] + r2.0, r2.1)
            &&& src[pos] == 60u8 && !next_eq ==> lex_from(src, pos) == (seq![simple_token(TokenKind::Less, pos, pos + 1)] + r1.0, r1.1)
            &&& src[pos] == 60u8 && next_eq ==> lex_from(src, pos) == (seq![simple_token(TokenKind::LessEqual, pos, pos + 2)] + r2.0, r2.1)
            &&& src[pos] == 62u8 && !next_eq ==> lex_from(src, pos) == (seq![simple_token(TokenKind::Greater, pos, pos + 1)] + r1.0, r1.1)
            &&& src[pos] == 62u8 && next_eq ==> lex_from(src, pos) == (seq![simple_token(TokenKind::GreaterEqual, pos, pos + 2)] + r2.0, r2.1)
            &&& src[pos] == 47u8 && pos + 1 < src.len() && src[pos + 1] != 47u8 && src[pos + 1] != 42u8 ==> lex_from(src, pos) == (seq![simple_token(TokenKind::Slash, pos, pos + 1)] + r1.0, r1.1)
        }),
{
    let r1 = lex_from(src, pos + 1);
    let r2 = lex_from(src, pos + 2);
    assert(Seq::<LexError>::empty() + r1.1 =~= r1.1);
    assert(Seq::<LexError>::empty() + r2.1 =~= r2.1);
}

/// The tokens and errors of lexing `src` from `pos` to its end, before the
/// end-of-file token.
pub open spec fn lex_from(src: Seq<u8>, pos: int) -> (Seq<TokenView>, Seq<LexError>)
    decreases src.len() - pos,
{
    if 0 <= pos < src.len() {
        let step = lex_step(src, pos);
        proof {
            lemma_lex_step_advances(src, pos);
        }
        let rest = lex_from(src, step.0);
        (step.1 + rest.0, step.2 + rest.1)
    } else {
        (seq![], seq![])
    }
}

/// What lexing the whole of `src` produces: the tokens of every lexeme,
/// followed by the end-of-file token, and the errors met.
pub open spec fn lex_source(src: Seq<u8>) -> (Seq<TokenView>, Seq<LexError>) {
    let body = lex_from(src, 0);
    (body.0.push(simple_token(TokenKind::Eof, src.len() as int, src.len() as int)), body.1)
}

/// A lexer over the bytes of a source text.
pub struct Lexer<'a> {
    source: &'a [u8],
    start: usize,
    current: usize,
    tokens: Vec<Token>,
    errors: Vec<LexError>,
}

impl<'a> Lexer<'a> {
    /// The bytes being lexed.
    pub closed spec fn source_bytes(&self) -> Seq<u8> {
        self.source@
    }

    /// The lexer has not read anything yet.
    pub closed spec fn is_fresh(&self) -> bool {
        &&& self.start == 0
        &&& self.current == 0
        &&& self.tokens@.len() == 0
        &&& self.errors@.len() == 0
        &&& self.source@.len() <= usize::MAX
    }

    spec fn wf(&self) -> bool {
        &&& self.start <= self.current <= self.source@.len()
        &&& self.source@.len() <= usize::MAX
    }

    pub fn new(source: &'a str) -> (r: Self)
        ensures
            r.source_bytes() == source.spec_bytes(),
            r.is_fresh(),
    {
        let bytes = source.as_bytes();
        let _len = bytes.len();
        Lexer { source: bytes, start: 0, current: 0, tokens: Vec::new(), errors: Vec::new() }
    }

    /// Lexes the whole source.
    pub fn lex(self) -> (r: LexOutput)
        requires
            self.is_fresh(),
        ensures
            tokens_view(r.tokens@) == lex_source(self.source_bytes()).0,
            r.errors@ == lex_source(self.source_bytes()).1,
    {
        let mut this = self;
        let ghost src = this.source@;
        loop
            invariant
                this.source@ == src,
                this.wf(),
                tokens_view(this.tokens@) + lex_from(src, this.current as int).0 == lex_from(src, 0).0,
                this.errors@ + lex_from(src, this.current as int).1 == lex_from(src, 0).1,
            ensures
                this.source@ == src,
                this.wf(),
                this.current == src.len(),
                tokens_view(this.tokens@) + lex_from(src, this.current as int).0 == lex_from(src, 0).0,
                this.errors@ + lex_from(src, this.current as int).1 == lex_from(src, 0).1,
            decreases src.len() - this.current,
        {
            this.start = this.current;
            let ghost pos = this.current as int;
            let ghost old_tokens = tokens_view(this.tokens@);
            let ghost old_errors = this.errors@;
            let Some(c) = this.advance() else {
                break;
            };
            this.lex_token(c);
            proof {
                let step = lex_step(src, pos);
                lemma_lex_step_advances(src, pos);
                assert(lex_from(src, pos).0 == step.1 + lex_from(src, step.0).0);
                assert(old_tokens + (step.1 + lex_from(src, step.0).0) =~= (old_tokens + step.1)
                    + lex_from(src, step.0).0);
                assert(old_errors + (step.2 + lex_from(src, step.0).1) =~= (old_errors + step.2)
                    + lex_from(src, step.0).1);
            }
        }
        this.start = this.current;
        let ghost before = tokens_view(this.tokens@);
        this.simple(TokenKind::Eof);
        proof {
            assert(lex_from(src, this.current as int).0 =~= seq![]);
            assert(lex_from(src, this.current as int).1 =~= seq![]);
            assert(before + seq![] =~= before);
            assert(this.errors@ + seq![] =~= this.errors@);
        }
        LexOutput { tokens: this.tokens, errors: this.errors }
    }

    /// Lexes the lexeme whose first byte `c` was just read.
    fn lex_token(&mut self, c: u8)
        requires
            old(self).wf(),
            old(self).current == old(self).start + 1,
            old(self).source@[old(self).start as int] == c,
        ensures
            final(self).wf(),
            final(self).source == old(self).source,
            final(self).current == lex_step(old(self).source@, old(self).start as int).0,
            tokens_view(final(self).tokens@) == tokens_view(old(self).tokens@) + lex_step(
                old(self).source@,
                old(self).start as int,
            ).1,
            final(self).errors@ == old(self).errors@ + lex_step(old(self).source@, old(self).start as int).2,
    {
        let ghost src = self.source@;
        let ghost start = self.start as int;
        proof {
            lemma_lex_step_advances(src, start);
        }
        if c == 40 {
            self.simple(TokenKind::LeftParen)
        } else if c == 41 {
            self.simple(TokenKind::RightParen)
        } else if c == 123 {
            self.simple(TokenKind::LeftBrace)
        } else if c == 125 {
            self.simple(TokenKind::RightBrace)
        } else if c == 44 {
            self.simple(TokenKind::Comma)
        } else if c == 46 {
            self.simple(TokenKind::Dot)
        } else if c == 45 {
            self.simple(TokenKind::Minus)
        } else if c == 43 {
            self.simple(TokenKind::Plus)
        } else if c == 59 {
            self.simple(TokenKind::Semicolon)
        } else if c == 42 {
            self.simple(TokenKind::Star)
        } else if c == 33 {
            if self.expect(61) {
                self.simple(TokenKind::BangEqual)
            } else {
                self.simple(TokenKind::Bang)
            }
        } else if c == 61 {
            if self.expect(61) {
                self.simple(TokenKind::EqualEqual)
            } else {
                self.simple(TokenKind::Equal)
            }
        } else if c == 60 {
            if self.expect(61) {
                self.simple(TokenKind::LessEqual)
            } else {
                self.simple(TokenKind::Less)
            }
        } else if c == 62 {
            if self.expect(61) {
                self.simple(TokenKind::GreaterEqual)
            } else {
                self.simple(TokenKind::Greater)
            }
        } else if c == 47 {
            match self.peek() {
                Some(47) => self.line_comment(),
                Some(42) => self.block_comment(),
                _ => self.simple(TokenKind::Slash),
            }
        } else if c == 34 {
            self.string()
        } else if 48 <= c && c <= 57 {
            self.number()
        } else if c == 95 || (97 <= c && c <= 122) || (65 <= c && c <= 90) {
            self.identifier()
        } else if c == 32 || c == 13 || c == 9 || c == 10 {
            proof {
                assert(tokens_view(self.tokens@) =~= tokens_view(self.tokens@) + seq![]);
                assert(self.errors@ =~= self.errors@ + seq![]);
            }
        } else {
            let span = self.span();
            self.error(LexError::UnexpectedCharacter { span, char: c });
            proof {
                assert(tokens_view(self.tokens@) =~= tokens_view(self.tokens@) + seq![]);
            }
        }
    }

    fn line_comment(&mut self)
        requires
            old(self).wf(),
            old(self).current == old(self).start + 1,
            old(self).current < old(self).source@.len(),
        ensures
            final(self).wf(),
            final(self).source == old(self).source,
            final(self).start == old(self).start,
            final(self).current == skip_line(old(self).source@, old(self).current + 1),
            final(self).tokens@ == old(self).tokens@,
            final(self).errors@ == old(self).errors@,
    {
        let ghost src = self.source@;
        self.advance();
        let ghost first = self.current as int;
        loop
            invariant_except_break
                self.wf(),
                self.source@ == src,
                self.source == old(self).source,
                self.start == old(self).start,
                self.tokens@ == old(self).tokens@,
                self.errors@ == old(self).errors@,
                skip_line(src, self.current as int) == skip_line(src, first),
            ensures
                self.wf(),
                self.source@ == src,
                self.source == old(self).source,
                self.start == old(self).start,
                self.tokens@ == old(self).tokens@,
                self.errors@ == old(self).errors@,
                self.current == skip_line(src, first),
            decreases self.source@.len() - self.current,
        {
            let Some(next) = self.advance() else {
                break;
            };
            if next == 10 {
                break;
            }
        }
    }

    fn block_comment(&mut self)
        requires
            old(self).wf(),
            old(self).current == old(self).start + 1,
            old(self).current < old(self).source@.len(),
        ensures
            final(self).wf(),
            final(self).source == old(self).source,
            final(self).start == old(self).start,
            final(self).tokens@ == old(self).tokens@,
            match block_comment_end(old(self).source@, old(self).current + 1, 1) {
                Some(e) => final(self).current == e && final(self).errors@ == old(self).errors@,
                None => final(self).current == old(self).source@.len() && final(self).errors@
                    == old(self).errors@.push(
                    LexError::UnterminatedBlockComment {
                        span: spec_span(old(self).start as int, old(self).source@.len() as int),
                    },
                ),
            },
    {
        let ghost src = self.source@;
        let mut depth: usize = 1;
        self.advance();
        let ghost first = self.current as int;
        assert(first == old(self).current + 1);
        loop
            invariant
                self.wf(),
                self.source@ == src,
                self.source == old(self).source,
                self.start == old(self).start,
                self.tokens@ == old(self).tokens@,
                self.errors@ == old(self).errors@,
                1 <= depth <= self.current,
                self.source == old(self).source,
                first == old(self).current + 1,
                block_comment_end(src, self.current as int, depth as nat) == block_comment_end(
                    src,
                    first,
                    1,
                ),
            ensures
                self.wf(),
                self.source == old(self).source,
                self.start == old(self).start,
                self.tokens@ == old(self).tokens@,
                self.errors@ == old(self).errors@,
                self.current == src.len(),
                block_comment_end(src, self.current as int, depth as nat) == block_comment_end(
                    src,
                    first,
                    1,
                ),
            decreases self.source@.len() - self.current,
        {
            let ghost i = self.current as int;
            let ghost d = depth as nat;
            let Some(c) = self.advance() else {
                break;
            };
            if c == 47 {
                if self.expect(42) {
                    depth += 1;
                }
            } else if c == 42 {
                if self.expect(47) {
                    depth -= 1;
                    if depth == 0 {
                        assert(block_comment_end(src, i, d) == Some(self.current as int));
                        assert(block_comment_end(src, first, 1) == Some(self.current as int));
                        assert(first == old(self).current + 1);
                        return;
                    }
                }
            }
            assert(block_comment_end(src, i, d) == block_comment_end(
                src,
                self.current as int,
                depth as nat,
            ));
        }
        assert(block_comment_end(src, self.current as int, depth as nat) == None::<int>);
        let span = self.span();
        self.error(LexError::UnterminatedBlockComment { span });
    }

    fn string(&mut self)
        requires
            old(self).wf(),
            old(self).current == old(self).start + 1,
        ensures
            final(self).wf(),
            final(self).source == old(self).source,
            final(self).current == old(self).source@.len(),
            tokens_view(final(self).tokens@) == tokens_view(old(self).tokens@) + string_tokens(
                old(self).source@,
                old(self).start as int,
                old(self).current as int,
            ),
            final(self).errors@ == old(self).errors@.push(
                LexError::UnterminatedString {
                    span: spec_span(old(self).start as int, old(self).source@.len() as int),
                },
            ),
    {
        let ghost src = self.source@;
        let ghost start = self.start as int;
        let ghost first = self.current as int;
        loop
            invariant
                self.wf(),
                self.source@ == src,
                self.start == start,
                self.errors@ == old(self).errors@,
                self.source == old(self).source,
                self.current >= start + 1,
                tokens_view(self.tokens@) + string_tokens(src, start, self.current as int)
                    == tokens_view(old(self).tokens@) + string_tokens(src, start, first),
            ensures
                self.wf(),
                self.source == old(self).source,
                self.start == start,
                self.errors@ == old(self).errors@,
                self.current == src.len(),
                tokens_view(self.tokens@) + string_tokens(src, start, self.current as int)
                    == tokens_view(old(self).tokens@) + string_tokens(src, start, first),
            decreases self.source@.len() - self.current,
        {
            let Some(c) = self.advance() else {
                break;
            };
            let ghost before = tokens_view(self.tokens@);
            if c == 34 {
                let value = vstd::slice::slice_to_vec(
                    vstd::slice::slice_subrange(self.source, self.start + 1, self.current - 1),
                );
                let span = self.span();
                self.token(Token { kind: TokenKind::StringLiteral, span, value });
            }
            proof {
                let q = self.current - 1;
                assert(string_tokens(src, start, q) == if src[q] == 34 {
                    seq![(TokenKind::StringLiteral, spec_span(start, q + 1), src.subrange(start + 1, q))]
                        + string_tokens(src, start, q + 1)
                } else {
                    string_tokens(src, start, q + 1)
                });
                if c == 34 {
                    assert(tokens_view(self.tokens@) =~= before.push(
                        (TokenKind::StringLiteral, spec_span(start, q + 1), src.subrange(start + 1, q)),
                    ));
                    assert(before + string_tokens(src, start, q) =~= tokens_view(self.tokens@)
                        + string_tokens(src, start, q + 1));
                }
            }
        }
        proof {
            assert(string_tokens(src, start, self.current as int) =~= seq![]);
            assert(tokens_view(self.tokens@) + seq![] =~= tokens_view(self.tokens@));
        }
        let span = self.span();
        self.error(LexError::UnterminatedString { span });
    }

    fn number(&mut self)
        requires
            old(self).wf(),
            old(self).current == old(self).start + 1,
        ensures
            final(self).wf(),
            final(self).source == old(self).source,
            final(self).current == number_end(old(self).source@, old(self).start as int),
            tokens_view(final(self).tokens@) == tokens_view(old(self).tokens@).push(
                (
                    TokenKind::FloatLiteral,
                    spec_span(
                        old(self).start as int,
                        number_end(old(self).source@, old(self).start as int),
                    ),
                    old(self).source@.subrange(
                        old(self).start as int,
                        number_end(old(self).source@, old(self).start as int),
                    ),
                ),
            ),
            final(self).errors@ == old(self).errors@,
    {
        let ghost src = self.source@;
        let ghost start = self.start as int;
        self.skip_digits();
        if self.peek() == Some(46u8) {
            if let Some(d) = self.peek_next() {
                if 48 <= d && d <= 57 {
                    self.advance();
                    self.skip_digits();
                }
            }
        }
        let value = vstd::slice::slice_to_vec(
            vstd::slice::slice_subrange(self.source, self.start, self.current),
        );
        let span = self.span();
        self.token(Token { kind: TokenKind::FloatLiteral, span, value });
    }

    /// Reads digits for as long as there are any.
    fn skip_digits(&mut self)
        requires
            old(self).wf(),
        ensures
            final(self).wf(),
            final(self).source == old(self).source,
            final(self).start == old(self).start,
            final(self).current == skip_digits(old(self).source@, old(self).current as int),
            final(self).tokens@ == old(self).tokens@,
            final(self).errors@ == old(self).errors@,
    {
        let ghost src = self.source@;
        let ghost first = self.current as int;
        loop
            invariant_except_break
                self.wf(),
                self.source@ == src,
                self.source == old(self).source,
                self.start == old(self).start,
                self.tokens@ == old(self).tokens@,
                self.errors@ == old(self).errors@,
                skip_digits(src, self.current as int) == skip_digits(src, first),
            ensures
                self.wf(),
                self.source@ == src,
                self.source == old(self).source,
                self.start == old(self).start,
                self.tokens@ == old(self).tokens@,
                self.errors@ == old(self).errors@,
                self.current == skip_digits(src, first),
            decreases self.source@.len() - self.current,
        {
            let Some(c) = self.peek() else {
                break;
            };
            if 48 <= c && c <= 57 {
                self.advance();
            } else {
                break;
            }
        }
    }

    fn identifier(&mut self)
        requires
            old(self).wf(),
            old(self).current == old(self).start + 1,
        ensures
            final(self).wf(),
            final(self).source == old(self).source,
            ({
                let src = old(self).source@;
                let start = old(self).start as int;
                let e = skip_ident(src, start + 1);
                let word = src.subrange(start, e);
                &&& final(self).current == e
                &&& tokens_view(final(self).tokens@) == tokens_view(old(self).tokens@).push(
                    match keyword_kind(word) {
                        Some(k) => simple_token(k, start, e),
                        None => (TokenKind::Identifier, spec_span(start, e), word),
                    },
                )
            }),
            final(self).errors@ == old(self).errors@,
    {
        let ghost src = self.source@;
        let ghost first = self.current as int;
        loop
            invariant_except_break
                self.wf(),
                self.source@ == src,
                self.source == old(self).source,
                self.start == old(self).start,
                self.tokens@ == old(self).tokens@,
                self.errors@ == old(self).errors@,
                skip_ident(src, self.current as int) == skip_ident(src, first),
            ensures
                self.wf(),
                self.source@ == src,
                self.source == old(self).source,
                self.start == old(self).start,
                self.tokens@ == old(self).tokens@,
                self.errors@ == old(self).errors@,
                self.current == skip_ident(src, first),
            decreases self.source@.len() - self.current,
        {
            let Some(c) = self.peek() else {
                break;
            };
            if c == 95 || (97 <= c && c <= 122) || (65 <= c && c <= 90) || (48 <= c && c <= 57) {
                self.advance();
            } else {
                break;
            }
        }
        match keyword(self.source, self.start, self.current) {
            Some(kind) => self.simple(kind),
            None => {
                let value = vstd::slice::slice_to_vec(
                    vstd::slice::slice_subrange(self.source, self.start, self.current),
                );
                let span = self.span();
                self.token(Token { kind: TokenKind::Identifier, span, value });
            },
        }
    }

    fn peek(&self) -> (r: Option<u8>)
        ensures
            r == if self.current < self.source@.len() {
                Some(self.source@[self.current as int])
            } else {
                None::<u8>
            },
    {
        if self.current < self.source.len() {
            Some(self.source[self.current])
        } else {
            None
        }
    }

    fn peek_next(&self) -> (r: Option<u8>)
        requires
            self.wf(),
        ensures
            r == if self.current + 1 < self.source@.len() {
                Some(self.source@[self.current + 1])
            } else {
                None::<u8>
            },
    {
        if self.current < self.source.len() && self.source.len() - self.current > 1 {
            Some(self.source[self.current + 1])
        } else {
            None
        }
    }

    fn advance(&mut self) -> (r: Option<u8>)
        requires
            old(self).wf(),
        ensures
            final(self).wf(),
            final(self).source == old(self).source,
            final(self).start == old(self).start,
            final(self).tokens@ == old(self).tokens@,
            final(self).errors@ == old(self).errors@,
            if old(self).current < old(self).source@.len() {
                &&& r == Some(old(self).source@[old(self).current as int])
                &&& final(self).current == old(self).current + 1
            } else {
                &&& r == None::<u8>
                &&& final(self).current == old(self).current
            },
    {
        let c = self.peek();
        if c.is_some() {
            self.current += 1;
        }
        c
    }

    fn expect(&mut self, next: u8) -> (r: bool)
        requires
            old(self).wf(),
        ensures
            final(self).wf(),
            final(self).source == old(self).source,
            final(self).start == old(self).start,
            final(self).tokens@ == old(self).tokens@,
            final(self).errors@ == old(self).errors@,
            r == (old(self).current < old(self).source@.len() && old(self).source@[old(self).current as int]
                == next),
            final(self).current == old(self).current + if r {
                1int
            } else {
                0
            },
    {
        let c = self.peek();
        if c == Some(next) {
            self.advance();
            true
        } else {
            false
        }
    }

    fn span(&self) -> (r: Span)
        requires
            self.wf(),
        ensures
            r == spec_span(self.start as int, self.current as int),
    {
        Span::new(self.start, self.current)
    }

    fn simple(&mut self, kind: TokenKind)
        requires
            old(self).wf(),
        ensures
            final(self).wf(),
            final(self).source == old(self).source,
            final(self).start == old(self).start,
            final(self).current == old(self).current,
            tokens_view(final(self).tokens@) == tokens_view(old(self).tokens@).push(
                simple_token(kind, old(self).start as int, old(self).current as int),
            ),
            final(self).errors@ == old(self).errors@,
    {
        let span = self.span();
        self.token(Token { kind, span, value: Vec::new() });
    }

    fn token(&mut self, t: Token)
        requires
            old(self).wf(),
        ensures
            final(self).wf(),
            final(self).source == old(self).source,
            final(self).start == old(self).start,
            final(self).current == old(self).current,
            final(self).tokens@ == old(self).tokens@.push(t),
            tokens_view(final(self).tokens@) == tokens_view(old(self).tokens@).push(t@),
            final(self).errors@ == old(self).errors@,
    {
        self.tokens.push(t);
        proof {
            assert(tokens_view(self.tokens@) =~= tokens_view(old(self).tokens@).push(t@));
        }
    }

    fn error(&mut self, e: LexError)
        requires
            old(self).wf(),
        ensures
            final(self).wf(),
            final(self).source == old(self).source,
            final(self).start == old(self).start,
            final(self).current == old(self).current,
            final(self).tokens@ == old(self).tokens@,
            final(self).errors@ == old(self).errors@.push(e),
    {
        self.errors.push(e);
    }
}

} // verus!

verus! {

/// A token read from `src`: its span lies within the source, it is not the
/// end-of-file token, and an identifier holds exactly the bytes of its span,
/// which spell no keyword.
pub open spec fn token_from_source(src: Seq<u8>, t: TokenView) -> bool {
    let start = t.1.spec_start() as int;
    let end = t.1.spec_end() as int;
    &&& start <= end <= src.len()
    &&& t.0 != TokenKind::Eof
    &&& t.0 == TokenKind::Identifier ==> t.2 == src.subrange(start, end) && keyword_kind(t.2)
        is None
}

proof fn lemma_string_tokens_from_source(src: Seq<u8>, start: int, i: int)
    requires
        0 <= start < i <= src.len(),
        src.len() <= usize::MAX,
    ensures
        forall|k: int|
            0 <= k < string_tokens(src, start, i).len() ==> token_from_source(
                src,
                #[trigger] string_tokens(src, start, i)[k],
            ),
    decreases src.len() - i,
{
    if i < src.len() {
        lemma_string_tokens_from_source(src, start, i + 1);
        let rest = string_tokens(src, start, i + 1);
        if src[i] == 34 {
            let t = (TokenKind::StringLiteral, spec_span(start, i + 1), src.subrange(start + 1, i));
            assert forall|k: int| 0 <= k < string_tokens(src, start, i).len() implies token_from_source(
                src,
                #[trigger] string_tokens(src, start, i)[k],
            ) by {
                if k > 0 {
                    assert(string_tokens(src, start, i)[k] == rest[k - 1]);
                }
            }
        }
    }
}

#[verifier::spinoff_prover]
#[verifier::rlimit(40)]
pub(crate) proof fn lemma_lex_step_from_source(src: Seq<u8>, pos: int)
    requires
        0 <= pos < src.len(),
        src.len() <= usize::MAX,
    ensures
        forall|k: int|
            0 <= k < lex_step(src, pos).1.len() ==> token_from_source(
                src,
                #[trigger] lex_step(src, pos).1[k],
            ),
{
    let c = src[pos];
    lemma_lex_step_advances(src, pos);
    if c == 34 {
        lemma_string_tokens_from_source(src, pos, pos + 1);
    } else if is_digit(c) {
        lemma_number_end(src, pos);
    } else if is_ident_start(c) {
        lemma_skip_ident(src, pos + 1);
    }
}

proof fn lemma_lex_from_from_source(src: Seq<u8>, pos: int)
    requires
        0 <= pos <= src.len(),
        src.len() <= usize::MAX,
    ensures
        forall|k: int|
            0 <= k < lex_from(src, pos).0.len() ==> token_from_source(
                src,
                #[trigger] lex_from(src, pos).0[k],
            ),
    decreases src.len() - pos,
{
    if pos < src.len() {
        let step = lex_step(src, pos);
        lemma_lex_step_advances(src, pos);
        lemma_lex_step_from_source(src, pos);
        lemma_lex_from_from_source(src, step.0);
        let rest = lex_from(src, step.0).0;
        assert forall|k: int| 0 <= k < lex_from(src, pos).0.len() implies token_from_source(
            src,
            #[trigger] lex_from(src, pos).0[k],
        ) by {
            if k >= step.1.len() {
                assert(lex_from(src, pos).0[k] == rest[k - step.1.len()]);
            } else {
                assert(lex_from(src, pos).0[k] == step.1[k]);
            }
        }
    }
}

/// Lexing a source gives tokens that all come from the source, followed by
/// one end-of-file token whose span is the empty span at the source's end.
pub proof fn lemma_lex_source_tokens(src: Seq<u8>)
    requires
        src.len() <= usize::MAX,
    ensures
        lex_source(src).0.len() >= 1,
        lex_source(src).0.last() == simple_token(TokenKind::Eof, src.len() as int, src.len() as int),
        forall|k: int|
            0 <= k < lex_source(src).0.len() - 1 ==> token_from_source(src, #[trigger] lex_source(src).0[k]),
{
    lemma_lex_from_from_source(src, 0);
    let body = lex_from(src, 0).0;
    assert forall|k: int| 0 <= k < lex_source(src).0.len() - 1 implies token_from_source(
        src,
        #[trigger] lex_source(src).0[k],
    ) by {
        assert(lex_source(src).0[k] == body[k]);
    }
}

} // verus!
