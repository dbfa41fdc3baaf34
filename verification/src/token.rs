use vstd::prelude::*;

use crate::span::Span;

verus! {

/// The kinds of token of the language.
#[derive(Clone, Copy, Debug, PartialEq, Eq, Structural)]
pub enum TokenKind {
    LeftParen,
    RightParen,
    LeftBrace,
    RightBrace,
    Comma,
    Dot,
    Minus,
    Plus,
    Semicolon,
    Slash,
    Star,
    Bang,
    BangEqual,
    Equal,
    EqualEqual,
    Greater,
    GreaterEqual,
    Less,
    LessEqual,
    Identifier,
    StringLiteral,
    FloatLiteral,
    And,
    Class,
    Else,
    False,
    Fun,
    For,
    If,
    Nil,
    Or,
    Print,
    Return,
    Super,
    This,
    True,
    Var,
    While,
    Eof,
}

/// A token: its kind, the source range it was read from, and its value.
///
/// The value is the identifier's name for `Identifier`, the text between the
/// quotes for `StringLiteral`, the digits of the literal for `FloatLiteral`,
/// and empty for every other kind.
pub struct Token {
    pub kind: TokenKind,
    pub span: Span,
    pub value: Vec<u8>,
}

/// A token as a mathematical value: kind, span and value bytes.
pub type TokenView = (TokenKind, Span, Seq<u8>);

impl View for Token {
    type V = TokenView;

    open spec fn view(&self) -> TokenView {
        (self.kind, self.span, self.value@)
    }
}

/// The views of a sequence of tokens.
pub open spec fn tokens_view(tokens: Seq<Token>) -> Seq<TokenView> {
    tokens.map_values(|t: Token| t@)
}

/// A token of a kind that carries no value.
pub open spec fn simple_token(kind: TokenKind, start: int, end: int) -> TokenView {
    (kind, Span::spec_new(start as usize, end as usize), Seq::empty())
}

/// The keyword that a word spells, if any.
pub open spec fn keyword_kind(word: Seq<u8>) -> Option<TokenKind> {
    if word == seq![97u8, 110, 100] {
        Some(TokenKind::And)
    } else if word == seq![99u8, 108, 97, 115, 115] {
        Some(TokenKind::Class)
    } else if word == seq![101u8, 108, 115, 101] {
        Some(TokenKind::Else)
    } else if word == seq![102u8, 97, 108, 115, 101] {
        Some(TokenKind::False)
    } else if word == seq![102u8, 111, 114] {
        Some(TokenKind::For)
    } else if word == seq![102u8, 117, 110] {
        Some(TokenKind::Fun)
    } else if word == seq![105u8, 102] {
        Some(TokenKind::If)
    } else if word == seq![110u8, 105, 108] {
        Some(TokenKind::Nil)
    } else if word == seq![111u8, 114] {
        Some(TokenKind::Or)
    } else if word == seq![112u8, 114, 105, 110, 116] {
        Some(TokenKind::Print)
    } else if word == seq![114u8, 101, 116, 117, 114, 110] {
        Some(TokenKind::Return)
    } else if word == seq![115u8, 117, 112, 101, 114] {
        Some(TokenKind::Super)
    } else if word == seq![116u8, 104, 105, 115] {
        Some(TokenKind::This)
    } else if word == seq![116u8, 114, 117, 101] {
        Some(TokenKind::True)
    } else if word == seq![118u8, 97, 114] {
        Some(TokenKind::Var)
    } else if word == seq![119u8, 104, 105, 108, 101] {
        Some(TokenKind::While)
    } else {
        None
    }
}

/// Whether the bytes `src[start..end]` spell `word`.
pub fn word_is(src: &[u8], start: usize, end: usize, word: &[u8]) -> (r: bool)
    requires
        start <= end <= src@.len(),
    ensures
        r == (src@.subrange(start as int, end as int) == word@),
{
    if end - start != word.len() {
        return false;
    }
    let mut i: usize = 0;
    while i < word.len()
        invariant
            start <= end <= src@.len(),
            end - start == word@.len(),
            i <= word@.len(),
            forall|j: int| 0 <= j < i ==> src@[start + j] == word@[j],
        decreases word.len() - i,
    {
        if src[start + i] != word[i] {
            assert(src@.subrange(start as int, end as int)[i as int] != word@[i as int]);
            return false;
        }
        i += 1;
    }
    assert(src@.subrange(start as int, end as int) =~= word@);
    true
}

/// The keyword spelled by `src[start..end]`, if any.
pub fn keyword(src: &[u8], start: usize, end: usize) -> (r: Option<TokenKind>)
    requires
        start <= end <= src@.len(),
    ensures
        r == keyword_kind(src@.subrange(start as int, end as int)),
{
    let ghost w = src@.subrange(start as int, end as int);
    if word_is(src, start, end, &[97u8, 110, 100]) {
        Some(TokenKind::And)
    } else if word_is(src, start, end, &[99u8, 108, 97, 115, 115]) {
        Some(TokenKind::Class)
    } else if word_is(src, start, end, &[101u8, 108, 115, 101]) {
        Some(TokenKind::Else)
    } else if word_is(src, start, end, &[102u8, 97, 108, 115, 101]) {
        Some(TokenKind::False)
    } else if word_is(src, start, end, &[102u8, 111, 114]) {
        Some(TokenKind::For)
    } else if word_is(src, start, end, &[102u8, 117, 110]) {
        Some(TokenKind::Fun)
    } else if word_is(src, start, end, &[105u8, 102]) {
        Some(TokenKind::If)
    } else if word_is(src, start, end, &[110u8, 105, 108]) {
        Some(TokenKind::Nil)
    } else if word_is(src, start, end, &[111u8, 114]) {
        Some(TokenKind::Or)
    } else if word_is(src, start, end, &[112u8, 114, 105, 110, 116]) {
        Some(TokenKind::Print)
    } else if word_is(src, start, end, &[114u8, 101, 116, 117, 114, 110]) {
        Some(TokenKind::Return)
    } else if word_is(src, start, end, &[115u8, 117, 112, 101, 114]) {
        Some(TokenKind::Super)
    } else if word_is(src, start, end, &[116u8, 104, 105, 115]) {
        Some(TokenKind::This)
    } else if word_is(src, start, end, &[116u8, 114, 117, 101]) {
        Some(TokenKind::True)
    } else if word_is(src, start, end, &[118u8, 97, 114]) {
        Some(TokenKind::Var)
    } else if word_is(src, start, end, &[119u8, 104, 105, 108, 101]) {
        Some(TokenKind::While)
    } else {
        None
    }
}

} // verus!
