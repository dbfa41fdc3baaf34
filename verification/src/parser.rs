use vstd::prelude::*;

use std::collections::VecDeque;

use crate::ast::{
    arguments_prefix_tokens, arguments_tokens, binary_token, block_tokens, expr_tokens, function_tokens,
    grouping_tokens, methods_tokens, params_prefix_tokens, params_tokens, stmt_tokens, stmts_tokens,
    ident_token, literal_token, punct, unary_token, AssignExpr, Assignment, BinaryExpr,
    BinaryOperator, BlockStmt, CallExpr, ClassDeclStmt, ElseClause, Expr, ExprStmt, FunDeclStmt,
    Function, GetExpr, GroupingExpr, Identifier, IfStmt, Inheritance, Literal, LiteralExpr, Method,
    Name, PrintStmt, Program, ReturnStmt, SetExpr, Stmt, SuperExpr, ThisExpr, UnaryExpr,
    UnaryOperator, VarDeclStmt, VariableExpr, WhileStmt,
};
use crate::decoration::{
    BlockDecoration, ClassDecoration, DecorationKind, Decorator, FunctionDecoration, NameDecoration,
};
use crate::punctuated::Punctuated;
use crate::span::{Span, Spanned};
use crate::token::{Token, TokenKind, TokenView};

verus! {

/// An error met while parsing.
#[derive(Clone, Copy, Debug, PartialEq, Eq)]
pub enum ParseError {
    ExpectedExpression(Span),
    UnterminatedGroup { start: Span, end: Span },
    UnterminatedStatement { stmt: Span, next: Span },
    UnterminatedBlock { start: Span, end: Span },
    ExpectedIdent(Span),
    ExpectedLeftParen(Span),
    ExpectedLeftBrace(Span),
    InvalidAssignmentTarget(Span),
    ExpectedSemicolon(Span),
    ExpectedDot(Span),
}

/// A parsed program and the decorator that numbered its nodes.
pub struct Ast {
    pub program: Program,
    pub decorator: Decorator,
}

/// The program, if one was parsed, and the errors met.
pub struct ParseOutput {
    pub ast: Option<Ast>,
    pub errors: Vec<ParseError>,
}

/// Whether tokens of this kind carry a value.
pub open spec fn has_value(kind: TokenKind) -> bool {
    kind == TokenKind::Identifier || kind == TokenKind::StringLiteral || kind
        == TokenKind::FloatLiteral
}

/// A token as the syntax tree records it: the value of a kind that carries
/// none is not kept.
pub open spec fn recorded(t: Token) -> TokenView {
    if has_value(t.kind) {
        t@
    } else {
        punct(t.kind, t.span)
    }
}

pub open spec fn recorded_tokens(tokens: Seq<Token>) -> Seq<TokenView> {
    tokens.map_values(|t: Token| recorded(t))
}

/// The tokens of the statements in order, each after the tokens skipped
/// before it, then the tokens skipped after the last.
pub open spec fn woven(gaps: Seq<Seq<TokenView>>, stmts: Seq<Stmt>) -> Seq<TokenView>
    decreases stmts.len(),
{
    if stmts.len() == 0 {
        gaps[0]
    } else {
        woven(gaps.drop_last(), stmts.drop_last()) + stmt_tokens(stmts.last()) + gaps.last()
    }
}

/// `s` is what a `for` loop stands for: a block holding the initializer, if
/// any, then a `while` loop on the condition (`true` where there is none)
/// whose body is the loop's body, followed by the increment if there is
/// one. The nodes made up for it carry the span of the `for` keyword.
pub open spec fn desugared_for(
    s: Stmt,
    for_: Span,
    lparen: Span,
    rparen: Span,
    init: Option<Stmt>,
    cond: Option<Expr>,
    incr: Option<Expr>,
    body: Stmt,
) -> bool {
    &&& s matches Stmt::Block(b) && b.lbrace == for_ && b.rbrace == for_ && b.stmts@.len() == match init {
        Some(_) => 2int,
        None => 1int,
    }
    &&& init matches Some(i) ==> s->Block_0.stmts@[0] == i
    &&& s->Block_0.stmts@.last() matches Stmt::While(w) && w.while_ == for_ && w.lparen == lparen && w.rparen == rparen
        && w.expr == match cond {
        Some(e) => e,
        None => Expr::Literal(LiteralExpr { literal: Literal::True(for_) }),
    } && match incr {
        Some(e) => *w.body matches Stmt::Block(bb) && bb.lbrace == for_ && bb.rbrace == for_ && bb.stmts@ == seq![
            body,
            Stmt::Expr(ExprStmt { expr: e, semi: for_ }),
        ],
        None => *w.body == body,
    }
}

/// The tokens of a `for` loop's initializer: the statement, or the lone
/// semicolon of an empty one.
pub open spec fn for_init_tokens(init: Option<Stmt>, init_semi: Span) -> Seq<TokenView> {
    match init {
        Some(i) => stmt_tokens(i),
        None => seq![punct(TokenKind::Semicolon, init_semi)],
    }
}

/// The tokens of a `for` loop's condition and the semicolon after it; none
/// for an empty one.
pub open spec fn for_cond_tokens(cond: Option<Expr>, cond_semi: Span) -> Seq<TokenView> {
    match cond {
        Some(e) => expr_tokens(e) + seq![punct(TokenKind::Semicolon, cond_semi)],
        None => seq![],
    }
}

pub open spec fn optional_expr_tokens(e: Option<Expr>) -> Seq<TokenView> {
    match e {
        Some(e) => expr_tokens(e),
        None => seq![],
    }
}

/// The tokens a `for` loop was parsed from.
pub open spec fn for_tokens(
    for_: Span,
    lparen: Span,
    rparen: Span,
    init: Option<Stmt>,
    init_semi: Span,
    cond: Option<Expr>,
    cond_semi: Span,
    incr: Option<Expr>,
    body: Stmt,
) -> Seq<TokenView> {
    seq![punct(TokenKind::For, for_), punct(TokenKind::LeftParen, lparen)] + for_init_tokens(init, init_semi)
        + for_cond_tokens(cond, cond_semi) + optional_expr_tokens(incr) + seq![
        punct(TokenKind::RightParen, rparen),
    ] + stmt_tokens(body)
}

/// `s` is a `for` loop parsed from `before`, leaving `after`.
pub open spec fn for_parsed(before: Seq<TokenView>, s: Stmt, after: Seq<TokenView>) -> bool {
    exists|
        for_: Span,
        lparen: Span,
        rparen: Span,
        init: Option<Stmt>,
        init_semi: Span,
        cond: Option<Expr>,
        cond_semi: Span,
        incr: Option<Expr>,
        body: Stmt,
    |
        #![trigger desugared_for(s, for_, lparen, rparen, init, cond, incr, body), for_tokens(for_, lparen, rparen, init, init_semi, cond, cond_semi, incr, body)]
        desugared_for(s, for_, lparen, rparen, init, cond, incr, body) && before == for_tokens(
            for_,
            lparen,
            rparen,
            init,
            init_semi,
            cond,
            cond_semi,
            incr,
            body,
        ) + after
}

/// The pieces of a `for` loop, parsed one after another, make up what it
/// was parsed from.
proof fn lemma_for_parsed(
    s0: Seq<TokenView>,
    s2: Seq<TokenView>,
    s3: Seq<TokenView>,
    s5: Seq<TokenView>,
    s6: Seq<TokenView>,
    s7: Seq<TokenView>,
    s8: Seq<TokenView>,
    r: Stmt,
    for_: Span,
    lparen: Span,
    rparen: Span,
    init: Option<Stmt>,
    init_semi: Span,
    cond: Option<Expr>,
    cond_semi: Span,
    incr: Option<Expr>,
    body: Stmt,
)
    requires
        s0 == seq![punct(TokenKind::For, for_), punct(TokenKind::LeftParen, lparen)] + s2,
        s2 == for_init_tokens(init, init_semi) + s3,
        s3 == for_cond_tokens(cond, cond_semi) + s5,
        s5 == optional_expr_tokens(incr) + s6,
        s6 == seq![punct(TokenKind::RightParen, rparen)] + s7,
        s7 == stmt_tokens(body) + s8,
        desugared_for(r, for_, lparen, rparen, init, cond, incr, body),
    ensures
        for_parsed(s0, r, s8),
{
    assert(s0 =~= for_tokens(for_, lparen, rparen, init, init_semi, cond, cond_semi, incr, body) + s8);
}

/// Whether a line at the prompt that begins with a token of `kind` is a
/// declaration or statement, rather than an expression to print.
pub open spec fn starts_statement(kind: TokenKind) -> bool {
    kind == TokenKind::Var || kind == TokenKind::Fun || kind == TokenKind::Class || kind == TokenKind::If
        || kind == TokenKind::Print || kind == TokenKind::While || kind == TokenKind::For || kind
        == TokenKind::Return || kind == TokenKind::LeftBrace
}

/// `stream`, which begins with a token of `first`, is the line that `s` was
/// parsed from, then `rest`: a statement's own tokens, or an expression
/// printed by a statement with empty spans.
pub open spec fn line_parsed(stream: Seq<TokenView>, first: TokenKind, s: Stmt, rest: Seq<TokenView>) -> bool {
    if starts_statement(first) {
        stream == stmt_tokens(s) + rest
    } else {
        &&& s matches Stmt::Print(x)
        &&& x.print == Span::spec_new(0, 0)
        &&& x.semi == Span::spec_new(0, 0)
        &&& stream == expr_tokens(x.expr) + rest
    }
}

/// Some token of `g` is a `)`.
pub open spec fn has_right_paren(g: Seq<TokenView>) -> bool {
    exists|i: int| 0 <= i < g.len() && (#[trigger] g[i]).0 == TokenKind::RightParen
}

/// The number of skipped stretches that hold tokens but no `)`.
pub open spec fn bare_gaps(gaps: Seq<Seq<TokenView>>) -> int
    decreases gaps.len(),
{
    if gaps.len() == 0 {
        0
    } else {
        bare_gaps(gaps.drop_last()) + if gaps.last().len() > 0 && !has_right_paren(gaps.last()) {
            1int
        } else {
            0int
        }
    }
}

/// `stream` is the program's statements, in order, each possibly after
/// tokens that were skipped, then the end of the file, then `rest`; and at
/// most `errors` of the skipped stretches hold no `)` (a stretch is skipped
/// after an error, or after a function with no body, whose parameters end
/// in a `)`).
pub open spec fn parsed_program(stream: Seq<TokenView>, p: Program, rest: Seq<TokenView>, errors: int) -> bool {
    exists|gaps: Seq<Seq<TokenView>>|
        gaps.len() == p.stmts@.len() + 1 && stream == #[trigger] woven(gaps, p.stmts@) + seq![
            punct(TokenKind::Eof, p.eof),
        ] + rest && bare_gaps(gaps) <= errors
}

/// Parsing stopped, with no error, where a function's body should begin:
/// the last token consumed is a `)` and the next one is not a `{`.
pub open spec fn stopped_at_body(before: Parser, after: Parser) -> bool {
    let n = before.remaining().len() - after.remaining().len();
    &&& 1 <= n <= before.remaining().len()
    &&& before.remaining()[n - 1].kind == TokenKind::RightParen
    &&& after.remaining().len() >= 1
    &&& after.remaining()[0].kind != TokenKind::LeftBrace
}

/// Why a parse that gave nothing stopped: it met an error, or a function
/// with no body.
pub open spec fn failure_explained(before: Parser, after: Parser) -> bool {
    before.failed(after) || stopped_at_body(before, after)
}

/// A class declaration whose name is followed by `;`, then what the
/// grammar of simple declarations reads up to the end of the file.
pub open spec fn braceless_class_then_simple(ts: Seq<Token>) -> bool {
    &&& ts.len() >= 3
    &&& ts[0].kind == TokenKind::Class
    &&& class_lacks_brace(ts)
    &&& ts[2].kind == TokenKind::Semicolon
    &&& simple_program(ts.skip(3))
}

/// A class declaration whose name is followed by neither `<` nor `{`.
pub open spec fn class_lacks_brace(ts: Seq<Token>) -> bool {
    &&& ts.len() >= 3
    &&& ts[1].kind == TokenKind::Identifier
    &&& ts[2].kind != TokenKind::Less
    &&& ts[2].kind != TokenKind::LeftBrace
}

/// Whether the first sequence ends the second.
pub open spec fn is_suffix<T>(a: Seq<T>, b: Seq<T>) -> bool {
    &&& a.len() <= b.len()
    &&& a == b.subrange(b.len() - a.len(), b.len() as int)
}

/// A recursive-descent parser over a stream of tokens ending in end-of-file.
pub struct Parser {
    tokens: VecDeque<Token>,
    decorator: Decorator,
    errors: Vec<ParseError>,
}

impl Parser {
    /// The tokens not yet consumed.
    pub closed spec fn remaining(&self) -> Seq<Token> {
        self.tokens@
    }

    /// The errors met so far.
    pub closed spec fn parse_errors(&self) -> Seq<ParseError> {
        self.errors@
    }

    /// The decorations handed out so far, by kind.
    pub closed spec fn decoration_counts(&self) -> Seq<usize> {
        self.decorator.counts()
    }

    pub open spec fn stream(&self) -> Seq<TokenView> {
        recorded_tokens(self.remaining())
    }

    /// The remaining tokens end in end-of-file, and there is room to number
    /// a node for every token.
    pub closed spec fn wf(&self) -> bool {
        &&& self.tokens@.len() >= 1
        &&& self.tokens@.last().kind == TokenKind::Eof
        &&& self.decorator.wf()
        &&& self.decorator.total() + self.tokens@.len() <= usize::MAX - 1
    }

    /// What every parsing step keeps: the remaining tokens are a suffix of
    /// those before, errors are only added, and no more nodes are numbered
    /// than tokens are consumed.
    pub closed spec fn progressed(self, next: Parser) -> bool {
        &&& next.wf()
        &&& is_suffix(next.tokens@, self.tokens@)
        &&& self.errors@.len() <= next.errors@.len()
        &&& next.errors@.subrange(0, self.errors@.len() as int) == self.errors@
        &&& next.decorator.total() + next.tokens@.len() <= self.decorator.total()
            + self.tokens@.len()
        &&& forall|k: int|
            0 <= k < 4 ==> self.decorator.counts()[k] <= #[trigger] next.decorator.counts()[k]
    }

    /// `next` has consumed at least one more token than `self`.
    pub open spec fn consumed(self, next: Parser) -> bool {
        next.remaining().len() < self.remaining().len()
    }

    /// An error was met between `self` and `next`.
    pub open spec fn failed(self, next: Parser) -> bool {
        self.parse_errors().len() < next.parse_errors().len()
    }

    /// No `for` token remains: every loop is a `while`.
    pub open spec fn without_for(self) -> bool {
        forall|i: int| 0 <= i < self.remaining().len() ==> (#[trigger] self.remaining()[i]).kind != TokenKind::For
    }

    proof fn lemma_progressed_refl(self)
        requires
            self.wf(),
        ensures
            self.progressed(self),
    {
        assert(self.tokens@ =~= self.tokens@.subrange(0, self.tokens@.len() as int));
        assert(self.errors@ =~= self.errors@.subrange(0, self.errors@.len() as int));
    }

    proof fn lemma_progressed_trans(a: Parser, b: Parser, c: Parser)
        requires
            a.progressed(b),
            b.progressed(c),
        ensures
            a.progressed(c),
    {
        let la = a.tokens@.len();
        let lb = b.tokens@.len();
        assert(c.tokens@ =~= a.tokens@.subrange(la - c.tokens@.len(), la as int));
        assert(c.errors@.subrange(0, a.errors@.len() as int) =~= a.errors@);
        assert forall|k: int| 0 <= k < 4 implies a.decorator.counts()[k]
            <= #[trigger] c.decorator.counts()[k] by {
            assert(b.decorator.counts()[k] <= c.decorator.counts()[k]);
        }
    }

    /// What remains after a step is free of `for` if what remained before
    /// was.
    proof fn lemma_without_for(a: Parser, b: Parser)
        requires
            a.progressed(b),
            a.without_for(),
        ensures
            b.without_for(),
    {
        let off = a.tokens@.len() - b.tokens@.len();
        assert forall|i: int| 0 <= i < b.remaining().len() implies (#[trigger] b.remaining()[i]).kind
            != TokenKind::For by {
            assert(b.tokens@[i] == a.tokens@[i + off]);
        }
    }

    /// Creates a parser over `tokens`, which must end in end-of-file.
    pub fn new(tokens: Vec<Token>) -> (r: Self)
        requires
            tokens@.len() >= 1,
            tokens@.last().kind == TokenKind::Eof,
            tokens@.len() <= usize::MAX - 1,
        ensures
            r.wf(),
            r.remaining() == tokens@,
            r.parse_errors().len() == 0,
            forall|k: int| 0 <= k < 4 ==> r.decoration_counts()[k] == 0,
    {
        let ghost orig = tokens@;
        let mut tokens = tokens;
        let mut deque: VecDeque<Token> = VecDeque::new();
        while tokens.len() > 0
            invariant
                tokens@ + deque@ == orig,
            decreases tokens@.len(),
        {
            let ghost before = deque@;
            let t = tokens.pop();
            match t {
                Some(t) => {
                    deque.push_front(t);
                    assert(tokens@ + deque@ =~= orig);
                },
                None => {},
            }
        }
        assert(deque@ =~= orig);
        Parser { tokens: deque, decorator: Decorator::new(), errors: Vec::new() }
    }

    /// Parses a whole program.
    pub fn parse(self) -> (r: ParseOutput)
        requires
            self.wf(),
        ensures
            self.parse_errors().len() <= r.errors@.len(),
            r.errors@.subrange(0, self.parse_errors().len() as int) == self.parse_errors(),
            r.ast is Some,
            simple_program(self.remaining()) ==> r.errors@ == self.parse_errors(),
            braceless_class_then_simple(self.remaining()) ==> r.errors@ == self.parse_errors().push(
                ParseError::ExpectedLeftBrace(self.remaining()[2].span),
            ),
            simple_program(self.remaining()) ==> r.ast.unwrap().program.stmts@.len() == simple_count(self.remaining()),
            braceless_class_then_simple(self.remaining()) ==> r.ast.unwrap().program.stmts@.len() == simple_count(
                self.remaining().skip(3),
            ),
            r.ast matches Some(ast) ==> (self.without_for() ==> exists|rest: Seq<TokenView>|
                #[trigger] parsed_program(
                    self.stream(),
                    ast.program,
                    rest,
                    r.errors@.len() - self.parse_errors().len(),
                )),
    {
        let mut this = self;
        let program = this.program();
        let ghost rest = this.stream();
        let r = this.into_output(program);
        proof {
            if self.without_for() {
                assert(parsed_program(
                    self.stream(),
                    r.ast.unwrap().program,
                    rest,
                    r.errors@.len() - self.parse_errors().len(),
                ));
            }
        }
        r
    }

    /// Parses one line typed at the prompt: a declaration or statement, or
    /// an expression to print.
    pub fn parse_repl(self) -> (r: ParseOutput)
        requires
            self.wf(),
        ensures
            self.parse_errors().len() <= r.errors@.len(),
            r.errors@.subrange(0, self.parse_errors().len() as int) == self.parse_errors(),
            r.ast is Some ==> r.ast.unwrap().program.stmts@.len() == 1 && r.ast.unwrap().program.eof == Span::spec_new(
                0,
                0,
            ),
            r.ast is None && !starts_statement(self.remaining()[0].kind) ==> self.parse_errors().len()
                < r.errors@.len(),
            r.ast is None ==> self.parse_errors().len() < r.errors@.len() || exists|i: int|
                0 <= i && i + 1 < self.remaining().len() && (#[trigger] self.remaining()[i]).kind
                    == TokenKind::RightParen && self.remaining()[i + 1].kind != TokenKind::LeftBrace,
            r.ast matches Some(ast) ==> (self.without_for() ==> exists|rest: Seq<TokenView>|
                #[trigger] line_parsed(self.stream(), self.remaining()[0].kind, ast.program.stmts@[0], rest)),
            atom_next(self) ==> r.ast is Some && r.errors@ == self.parse_errors() && (r.ast.unwrap().program.stmts@[0] matches Stmt::Print(x) && (x.expr matches Expr::Variable(v) ==> v.name.decoration.spec_index() == self.decoration_counts()[0])),
            simple_line(self.remaining()) ==> r.ast is Some && r.errors@ == self.parse_errors(),
    {
        let mut this = self;
        let program = this.repl();
        let ghost rest = this.stream();
        let r = this.into_output(program);
        proof {
            if r.ast is None && stopped_at_body(self, this) {
                let n = self.tokens@.len() - this.tokens@.len();
                assert(this.tokens@[0] == self.tokens@.subrange(n, self.tokens@.len() as int)[0]);
                assert(self.remaining()[n - 1].kind == TokenKind::RightParen);
            }
            if self.without_for() && r.ast is Some {
                assert(line_parsed(self.stream(), self.remaining()[0].kind, r.ast.unwrap().program.stmts@[0], rest));
            }
        }
        r
    }

    fn into_output(self, program: Option<Program>) -> (r: ParseOutput)
        ensures
            r.errors@ == self.errors@,
            r.ast is Some <==> program is Some,
            program matches Some(p) ==> r.ast.unwrap().program == p,
    {
        let ast = match program {
            Some(program) => Some(Ast { program, decorator: self.decorator }),
            None => None,
        };
        ParseOutput { ast, errors: self.errors }
    }

    fn peek(&self) -> (r: &Token)
        requires
            self.wf(),
        ensures
            *r == self.tokens@[0],
    {
        &self.tokens[0]
    }

    fn peek_kind(&self) -> (r: TokenKind)
        requires
            self.wf(),
        ensures
            r == self.tokens@[0].kind,
    {
        self.tokens[0].kind
    }

    fn peek_span(&self) -> (r: Span)
        requires
            self.wf(),
        ensures
            r == self.tokens@[0].span,
    {
        self.tokens[0].span
    }

    /// Consumes the next token, which must not be end-of-file.
    fn advance(&mut self) -> (r: Token)
        requires
            old(self).wf(),
            old(self).tokens@[0].kind != TokenKind::Eof,
        ensures
            r == old(self).tokens@[0],
            old(self).progressed(*final(self)),
            final(self).tokens@ == old(self).tokens@.drop_first(),
            final(self).stream() == old(self).stream().drop_first(),
            old(self).stream()[0] == recorded(r),
            final(self).errors@ == old(self).errors@,
            final(self).decorator == old(self).decorator,
    {
        let t = self.tokens.pop_front();
        proof {
            assert(self.tokens@ =~= old(self).tokens@.drop_first());
            assert(self.stream() =~= old(self).stream().drop_first());
            assert(self.tokens@ =~= old(self).tokens@.subrange(
                old(self).tokens@.len() - self.tokens@.len(),
                old(self).tokens@.len() as int,
            ));
            assert(self.errors@ =~= self.errors@.subrange(0, self.errors@.len() as int));
        }
        match t {
            Some(t) => t,
            None => {
                assert(false);
                Token { kind: TokenKind::Eof, span: Span::null(), value: Vec::new() }
            },
        }
    }

    /// Consumes the next token if it is of `kind`.
    fn expect(&mut self, kind: TokenKind) -> (r: Option<Token>)
        requires
            old(self).wf(),
            kind != TokenKind::Eof,
        ensures
            old(self).progressed(*final(self)),
            final(self).errors@ == old(self).errors@,
            final(self).decorator == old(self).decorator,
            match r {
                Some(t) => {
                    &&& old(self).tokens@[0].kind == kind
                    &&& t == old(self).tokens@[0]
                    &&& final(self).tokens@ == old(self).tokens@.drop_first()
                    &&& final(self).stream() == old(self).stream().drop_first()
                    &&& old(self).stream()[0] == recorded(t)
                },
                None => {
                    &&& old(self).tokens@[0].kind != kind
                    &&& *final(self) == *old(self)
                },
            },
    {
        if self.peek_kind() == kind {
            Some(self.advance())
        } else {
            proof {
                self.lemma_progressed_refl();
            }
            None
        }
    }

    /// Consumes an identifier token if one is next.
    fn expect_identifier(&mut self) -> (r: Option<Identifier>)
        requires
            old(self).wf(),
        ensures
            old(self).progressed(*final(self)),
            final(self).errors@ == old(self).errors@,
            final(self).decorator == old(self).decorator,
            match r {
                Some(i) => {
                    &&& final(self).tokens@ == old(self).tokens@.drop_first()
                    &&& old(self).stream() == seq![ident_token(i)] + final(self).stream()
                },
                None => {
                    &&& old(self).tokens@[0].kind != TokenKind::Identifier
                    &&& *final(self) == *old(self)
                },
            },
    {
        match self.expect(TokenKind::Identifier) {
            Some(t) => {
                let r = Identifier { span: t.span, value: t.value };
                proof {
                    assert(old(self).stream() =~= seq![ident_token(r)] + self.stream());
                }
                Some(r)
            },
            None => None,
        }
    }

    /// Consumes a token of `kind`, which carries no value, if it is next.
    fn expect_span(&mut self, kind: TokenKind) -> (r: Option<Span>)
        requires
            old(self).wf(),
            kind != TokenKind::Eof,
            !has_value(kind),
        ensures
            old(self).progressed(*final(self)),
            final(self).errors@ == old(self).errors@,
            final(self).decorator == old(self).decorator,
            match r {
                Some(s) => {
                    &&& old(self).tokens@[0].kind == kind
                    &&& final(self).tokens@ == old(self).tokens@.drop_first()
                    &&& old(self).stream() == seq![punct(kind, s)] + final(self).stream()
                },
                None => {
                    &&& old(self).tokens@[0].kind != kind
                    &&& *final(self) == *old(self)
                },
            },
    {
        match self.expect(kind) {
            Some(t) => {
                proof {
                    assert(old(self).stream() =~= seq![punct(kind, t.span)] + self.stream());
                }
                Some(t.span)
            },
            None => None,
        }
    }

    fn error(&mut self, e: ParseError)
        requires
            old(self).wf(),
        ensures
            old(self).progressed(*final(self)),
            final(self).tokens@ == old(self).tokens@,
            final(self).errors@ == old(self).errors@.push(e),
            final(self).decorator == old(self).decorator,
    {
        self.errors.push(e);
        proof {
            assert(self.errors@.subrange(0, old(self).errors@.len() as int) =~= old(self).errors@);
            assert(self.tokens@ =~= self.tokens@.subrange(0, self.tokens@.len() as int));
        }
    }

    /// Numbers a name use for the identifier just consumed.
    fn name(&mut self, identifier: Identifier) -> (r: Name)
        requires
            old(self).wf(),
            old(self).decorator.total() + old(self).tokens@.len() <= usize::MAX - 2,
        ensures
            r.identifier == identifier,
            r.decoration.spec_index() == old(self).decorator.counts()[0],
            final(self).tokens@ == old(self).tokens@,
            final(self).errors@ == old(self).errors@,
            final(self).decorator.wf(),
            final(self).decorator.total() == old(self).decorator.total() + 1,
            forall|k: int|
                0 <= k < 4 ==> old(self).decorator.counts()[k]
                    <= #[trigger] final(self).decorator.counts()[k],
    {
        let decoration = self.decorator.decorate::<NameDecoration>();
        proof {
            assert(NameDecoration::spec_decoration_index() == 0);
        }
        Name { decoration, identifier }
    }
}

} // verus!

verus! {

/// The levels of left-associative binary operators, loosest first.
#[derive(Clone, Copy, PartialEq, Eq, Structural)]
pub enum BinaryLevel {
    Equality,
    Comparison,
    Term,
    Factor,
}

spec fn level_rank(level: BinaryLevel) -> int {
    match level {
        BinaryLevel::Equality => 55,
        BinaryLevel::Comparison => 52,
        BinaryLevel::Term => 49,
        BinaryLevel::Factor => 46,
    }
}

/// Whether a token of `kind` is an operator of `level`.
pub open spec fn is_level_operator(level: BinaryLevel, kind: TokenKind) -> bool {
    match level {
        BinaryLevel::Equality => kind == TokenKind::BangEqual || kind == TokenKind::EqualEqual,
        BinaryLevel::Comparison => kind == TokenKind::Greater || kind == TokenKind::GreaterEqual
            || kind == TokenKind::Less || kind == TokenKind::LessEqual,
        BinaryLevel::Term => kind == TokenKind::Minus || kind == TokenKind::Plus,
        BinaryLevel::Factor => kind == TokenKind::Slash || kind == TokenKind::Star,
    }
}

/// The token kinds that are literals.
pub open spec fn is_literal_kind(kind: TokenKind) -> bool {
    kind == TokenKind::FloatLiteral || kind == TokenKind::StringLiteral || kind == TokenKind::True || kind
        == TokenKind::False || kind == TokenKind::Nil
}

/// The number of tokens of the expression that `ts` begins with, as a
/// grammar of literals, names, `this`, `super` fields and groupings, with
/// calls and field reads after them, joined by `or`, `and`, equality,
/// comparison, term and factor operators (each to the left) and unary `!`
/// and `-` reads it, where the token after it cannot continue it; 0 where
/// `ts` does not begin with such an expression; an assignment to a name or
/// a field read binds loosest, to the right.
#[verifier::opaque]
pub open spec fn expr_len(ts: Seq<Token>) -> int
    decreases ts.len(), 39int,
{
    assign_len(ts)
}

/// An assignment: a name or a field read, `=`, and an assignment; or an
/// `or` expression that no `=` follows.
pub open spec fn assign_len(ts: Seq<Token>) -> int
    decreases ts.len(), 38int,
{
    let a = or_len(ts);
    if a <= 0 || a >= ts.len() {
        0
    } else if ts[a].kind == TokenKind::Equal {
        if is_target(ts, a) {
            let v = assign_len(ts.skip(a + 1));
            if v > 0 {
                a + 1 + v
            } else {
                0
            }
        } else {
            0
        }
    } else {
        a
    }
}

/// The first `a` tokens of `ts` are a name alone, or end in a field read,
/// with no operator around them.
pub open spec fn is_target(ts: Seq<Token>, a: int) -> bool
    decreases ts.len(), 37int,
{
    &&& call_len(ts) == a
    &&& var_shape(ts) || get_shape(ts)
}

/// `ts` begins with a call-level expression that is a name alone.
pub open spec fn var_shape(ts: Seq<Token>) -> bool
    decreases ts.len(), 9int,
{
    ts.len() >= 1 && ts[0].kind == TokenKind::Identifier && call_len(ts) == 1
}

/// `ts` begins with a call-level expression that ends in a field read.
pub open spec fn get_shape(ts: Seq<Token>) -> bool
    decreases ts.len(), 9int,
{
    let c = call_len(ts);
    c > primary_len(ts) && c >= 2 && c <= ts.len() && ts[c - 2].kind == TokenKind::Dot && ts[c - 1].kind
        == TokenKind::Identifier
}

/// After reading `d` tokens of the call-level expression that begins `ts`,
/// `e` is a name alone exactly where those tokens are one name, and a
/// field read exactly where they end in one.
pub open spec fn call_shape_at(ts: Seq<Token>, d: int, e: Expr) -> bool {
    &&& (e is Variable <==> (d == 1 && ts.len() >= 1 && ts[0].kind == TokenKind::Identifier))
    &&& (e is Get <==> (d > primary_len(ts) && d >= 2 && d <= ts.len() && ts[d - 2].kind == TokenKind::Dot
        && ts[d - 1].kind == TokenKind::Identifier))
}

/// The expression parsed from `ts` is a name alone exactly where the
/// grammar reads one there, and a field read exactly where it reads one.
pub open spec fn shaped(ts: Seq<Token>, r: Option<Expr>) -> bool {
    &&& (r.unwrap() is Variable <==> var_shape(ts))
    &&& (r.unwrap() is Get <==> get_shape(ts))
}

pub open spec fn or_len(ts: Seq<Token>) -> int
    decreases ts.len(), 36int,
{
    let a = and_len(ts);
    if a <= 0 || a > ts.len() {
        0
    } else {
        let t = or_tail(ts.skip(a));
        if t >= 0 {
            a + t
        } else {
            0
        }
    }
}

/// The `or` operators and their operands that follow an operand; -1 where
/// an operand is missing.
#[verifier::opaque]
pub open spec fn or_tail(ts: Seq<Token>) -> int
    decreases ts.len(), 36int,
{
    if ts.len() >= 1 && ts[0].kind == TokenKind::Or {
        let b = and_len(ts.skip(1));
        if b <= 0 || 1 + b > ts.len() {
            -1
        } else {
            let t = or_tail(ts.skip(1 + b));
            if t >= 0 {
                1 + b + t
            } else {
                -1
            }
        }
    } else {
        0
    }
}

pub open spec fn and_len(ts: Seq<Token>) -> int
    decreases ts.len(), 35int,
{
    let a = bin_len(BinaryLevel::Equality, ts);
    if a <= 0 || a > ts.len() {
        0
    } else {
        let t = and_tail(ts.skip(a));
        if t >= 0 {
            a + t
        } else {
            0
        }
    }
}

#[verifier::opaque]
pub open spec fn and_tail(ts: Seq<Token>) -> int
    decreases ts.len(), 35int,
{
    if ts.len() >= 1 && ts[0].kind == TokenKind::And {
        let b = bin_len(BinaryLevel::Equality, ts.skip(1));
        if b <= 0 || 1 + b > ts.len() {
            -1
        } else {
            let t = and_tail(ts.skip(1 + b));
            if t >= 0 {
                1 + b + t
            } else {
                -1
            }
        }
    } else {
        0
    }
}

pub open spec fn grammar_rank(level: BinaryLevel) -> int {
    match level {
        BinaryLevel::Equality => 34,
        BinaryLevel::Comparison => 32,
        BinaryLevel::Term => 30,
        BinaryLevel::Factor => 28,
    }
}

/// An operand of an operator of `level`.
pub open spec fn operand_len(level: BinaryLevel, ts: Seq<Token>) -> int
    decreases ts.len(), grammar_rank(level) - 1,
{
    match level {
        BinaryLevel::Equality => bin_len(BinaryLevel::Comparison, ts),
        BinaryLevel::Comparison => bin_len(BinaryLevel::Term, ts),
        BinaryLevel::Term => bin_len(BinaryLevel::Factor, ts),
        BinaryLevel::Factor => unary_len(ts),
    }
}

/// Operands of `level` joined by its operators.
pub open spec fn bin_len(level: BinaryLevel, ts: Seq<Token>) -> int
    decreases ts.len(), grammar_rank(level),
{
    let a = operand_len(level, ts);
    if a <= 0 || a > ts.len() {
        0
    } else {
        let t = bin_tail(level, ts.skip(a));
        if t >= 0 {
            a + t
        } else {
            0
        }
    }
}

#[verifier::opaque]
pub open spec fn bin_tail(level: BinaryLevel, ts: Seq<Token>) -> int
    decreases ts.len(), grammar_rank(level),
{
    if ts.len() >= 1 && is_level_operator(level, ts[0].kind) {
        let b = operand_len(level, ts.skip(1));
        if b <= 0 || 1 + b > ts.len() {
            -1
        } else {
            let t = bin_tail(level, ts.skip(1 + b));
            if t >= 0 {
                1 + b + t
            } else {
                -1
            }
        }
    } else {
        0
    }
}

pub open spec fn unary_len(ts: Seq<Token>) -> int
    decreases ts.len(), 10int,
{
    if ts.len() >= 1 && (ts[0].kind == TokenKind::Bang || ts[0].kind == TokenKind::Minus) {
        let u = unary_len(ts.skip(1));
        if u > 0 {
            1 + u
        } else {
            0
        }
    } else {
        call_len(ts)
    }
}

/// A primary expression, then calls and field reads.
pub open spec fn call_len(ts: Seq<Token>) -> int
    decreases ts.len(), 8int,
{
    let p = primary_len(ts);
    if p <= 0 || p > ts.len() {
        0
    } else {
        let t = suffix_len(ts.skip(p));
        if t >= 0 {
            p + t
        } else {
            0
        }
    }
}

/// Calls (arguments in parentheses) and field reads (`.` and a name), one
/// after another; -1 where one is malformed.
#[verifier::opaque]
pub open spec fn suffix_len(ts: Seq<Token>) -> int
    decreases ts.len(), 8int,
{
    if ts.len() >= 1 && ts[0].kind == TokenKind::LeftParen {
        let a = args_len(ts.skip(1));
        if a <= 0 || 1 + a > ts.len() {
            -1
        } else {
            let t = suffix_len(ts.skip(1 + a));
            if t >= 0 {
                1 + a + t
            } else {
                -1
            }
        }
    } else if ts.len() >= 1 && ts[0].kind == TokenKind::Dot {
        if ts.len() >= 2 && ts[1].kind == TokenKind::Identifier {
            let t = suffix_len(ts.skip(2));
            if t >= 0 {
                2 + t
            } else {
                -1
            }
        } else {
            -1
        }
    } else {
        0
    }
}

/// Arguments after a `(`, up to and including the `)`: expressions, each
/// but possibly the last followed by `,`; or 0.
pub open spec fn args_len(ts: Seq<Token>) -> int
    decreases ts.len(), 40int,
{
    if ts.len() >= 1 && ts[0].kind == TokenKind::RightParen {
        1
    } else {
        let e = expr_len(ts);
        if e <= 0 || e >= ts.len() {
            0
        } else if ts[e].kind == TokenKind::Comma {
            let r = args_len(ts.skip(e + 1));
            if r > 0 {
                e + 1 + r
            } else {
                0
            }
        } else if ts[e].kind == TokenKind::RightParen {
            e + 1
        } else {
            0
        }
    }
}

/// A literal, a name, `this`, `super` with a field, or a grouping.
pub open spec fn primary_len(ts: Seq<Token>) -> int
    decreases ts.len(), 6int,
{
    if ts.len() == 0 {
        0
    } else if is_literal_kind(ts[0].kind) || ts[0].kind == TokenKind::Identifier || ts[0].kind == TokenKind::This {
        1
    } else if ts[0].kind == TokenKind::Super {
        if ts.len() >= 3 && ts[1].kind == TokenKind::Dot && ts[2].kind == TokenKind::Identifier {
            3
        } else {
            0
        }
    } else if ts[0].kind == TokenKind::LeftParen {
        grouping_len(ts)
    } else {
        0
    }
}

/// An expression in parentheses.
pub open spec fn grouping_len(ts: Seq<Token>) -> int
    decreases ts.len(), 5int,
{
    if ts.len() >= 1 && ts[0].kind == TokenKind::LeftParen {
        let e = expr_len(ts.skip(1));
        if e > 0 && 1 + e < ts.len() && ts[1 + e].kind == TokenKind::RightParen {
            e + 2
        } else {
            0
        }
    } else {
        0
    }
}


/// `rem` is what is left of `ts` after its first tokens were read, and
/// `tail` tokens more complete a reading of `total` tokens.
pub open spec fn reading_at(ts: Seq<Token>, rem: Seq<Token>, tail: int, total: int) -> bool {
    &&& rem.len() <= ts.len()
    &&& rem == ts.skip(ts.len() - rem.len())
    &&& tail >= 0
    &&& ts.len() - rem.len() + tail == total
}

/// Every level of the grammar reads at least the call-level expression
/// that begins `ts`.
proof fn lemma_lens_cover_call(ts: Seq<Token>)
    ensures
        unary_len(ts) > 0 ==> unary_len(ts) >= call_len(ts),
        bin_len(BinaryLevel::Factor, ts) > 0 ==> bin_len(BinaryLevel::Factor, ts) >= unary_len(ts) > 0,
        bin_len(BinaryLevel::Term, ts) > 0 ==> bin_len(BinaryLevel::Term, ts) >= bin_len(BinaryLevel::Factor, ts)
            > 0,
        bin_len(BinaryLevel::Comparison, ts) > 0 ==> bin_len(BinaryLevel::Comparison, ts) >= bin_len(
            BinaryLevel::Term,
            ts,
        ) > 0,
        bin_len(BinaryLevel::Equality, ts) > 0 ==> bin_len(BinaryLevel::Equality, ts) >= bin_len(
            BinaryLevel::Comparison,
            ts,
        ) > 0,
        and_len(ts) > 0 ==> and_len(ts) >= bin_len(BinaryLevel::Equality, ts) > 0,
        or_len(ts) > 0 ==> or_len(ts) >= and_len(ts) > 0,
{
    reveal(expr_len);
    reveal(suffix_len);
    reveal(bin_tail);
    reveal(and_tail);
    reveal(or_tail);
    if ts.len() >= 1 && (ts[0].kind == TokenKind::Bang || ts[0].kind == TokenKind::Minus) {
        assert(primary_len(ts) == 0);
        assert(call_len(ts) == 0);
    }
}

/// No expression begins at the end of the file, at a `;` or at a `)`.
proof fn lemma_no_expr_at(ts: Seq<Token>)
    requires
        ts.len() >= 1,
        ts[0].kind == TokenKind::Eof || ts[0].kind == TokenKind::Semicolon || ts[0].kind == TokenKind::RightParen,
    ensures
        expr_len(ts) == 0,
{
    reveal(expr_len);
    reveal(suffix_len);
    assert(primary_len(ts) == 0);
    assert(call_len(ts) == 0);
    assert(unary_len(ts) == 0);
    assert(operand_len(BinaryLevel::Factor, ts) == 0);
    assert(bin_len(BinaryLevel::Factor, ts) == 0);
    assert(bin_len(BinaryLevel::Term, ts) == 0);
    assert(bin_len(BinaryLevel::Comparison, ts) == 0);
    assert(bin_len(BinaryLevel::Equality, ts) == 0);
    assert(and_len(ts) == 0);
    assert(or_len(ts) == 0);
}

impl Parser {
    /// What remains after a step is what remained before, without the
    /// tokens the step read.
    proof fn lemma_rest(a: Parser, b: Parser)
        requires
            a.progressed(b),
        ensures
            b.remaining() == a.remaining().skip(a.remaining().len() - b.remaining().len()),
            forall|i: int|
                0 <= i < b.remaining().len() ==> #[trigger] b.remaining()[i] == a.remaining()[i + (
                a.remaining().len() - b.remaining().len())],
    {
        assert(b.remaining() =~= a.remaining().skip(a.remaining().len() - b.remaining().len()));
    }
}

/// Reading `a` tokens and then `b` more reads `a + b`.
proof fn lemma_skip_skip(ts: Seq<Token>, a: int, b: int)
    requires
        0 <= a,
        0 <= b,
        a + b <= ts.len(),
    ensures
        ts.skip(a).skip(b) == ts.skip(a + b),
{
    assert(ts.skip(a).skip(b) =~= ts.skip(a + b));
}

/// A token that is a whole expression by itself.
pub open spec fn is_atom(kind: TokenKind) -> bool {
    kind == TokenKind::FloatLiteral || kind == TokenKind::StringLiteral || kind == TokenKind::True || kind
        == TokenKind::False || kind == TokenKind::Nil || kind == TokenKind::Identifier || kind == TokenKind::This
}

/// A token that cannot continue an expression: no operator, `=`, `(` or
/// `.`.
pub open spec fn ends_expression(kind: TokenKind) -> bool {
    !(kind == TokenKind::Or || kind == TokenKind::And || kind == TokenKind::BangEqual || kind
        == TokenKind::EqualEqual || kind == TokenKind::Greater || kind == TokenKind::GreaterEqual || kind
        == TokenKind::Less || kind == TokenKind::LessEqual || kind == TokenKind::Minus || kind == TokenKind::Plus
        || kind == TokenKind::Slash || kind == TokenKind::Star || kind == TokenKind::Equal || kind
        == TokenKind::LeftParen || kind == TokenKind::Dot)
}

/// The next token is an atom, and the one after it cannot continue an
/// expression.
pub open spec fn atom_next(p: Parser) -> bool {
    &&& p.remaining().len() >= 2
    &&& is_atom(p.remaining()[0].kind)
    &&& ends_expression(p.remaining()[1].kind)
}

/// Where an atom comes next that nothing can continue, the expression
/// parsed is that token alone: it is consumed, no error is met, and a name
/// gets the next number in order.
pub open spec fn atom_parsed(before: Parser, r: Option<Expr>, after: Parser) -> bool {
    atom_next(before) ==> {
        &&& r is Some
        &&& after.remaining() == before.remaining().drop_first()
        &&& after.parse_errors() == before.parse_errors()
        &&& (r.unwrap() matches Expr::Variable(v) ==> v.name.decoration.spec_index() == before.decoration_counts()[0])
    }
}

/// The number of tokens of the simple statement that `ts` begins with, or
/// 0: `print` and an expression, an expression alone, or `return` and
/// possibly an expression, ended by `;`; `if` with a parenthesized
/// expression and a simple statement, possibly followed by `else` and
/// another; `while` with a condition in parentheses and a simple statement;
/// `for`, `(`, its clauses up to its `)` and a simple statement; or
/// simple declarations in braces.
#[verifier::opaque]
pub open spec fn simple_stmt_len(ts: Seq<Token>) -> int
    decreases ts.len(), 1int,
{
    if ts.len() >= 1 && ts[0].kind == TokenKind::Print {
        let e = expr_len(ts.skip(1));
        if e > 0 && 1 + e < ts.len() && ts[1 + e].kind == TokenKind::Semicolon {
            e + 2
        } else {
            0
        }
    } else if ts.len() >= 2 && ts[0].kind == TokenKind::Return && ts[1].kind == TokenKind::Semicolon {
        2
    } else if ts.len() >= 1 && ts[0].kind == TokenKind::Return {
        let e = expr_len(ts.skip(1));
        if e > 0 && 1 + e < ts.len() && ts[1 + e].kind == TokenKind::Semicolon {
            e + 2
        } else {
            0
        }
    } else if ts.len() >= 1 && ts[0].kind == TokenKind::If {
        let g = grouping_len(ts.skip(1));
        let k = if g > 0 && 1 + g <= ts.len() {
            simple_stmt_len(ts.skip(1 + g))
        } else {
            0
        };
        if k <= 0 || 1 + g + k > ts.len() {
            0
        } else if 1 + g + k < ts.len() && ts[1 + g + k].kind == TokenKind::Else {
            let k2 = simple_stmt_len(ts.skip(2 + g + k));
            if k2 > 0 {
                2 + g + k + k2
            } else {
                0
            }
        } else {
            1 + g + k
        }
    } else if ts.len() >= 2 && ts[0].kind == TokenKind::While && ts[1].kind == TokenKind::LeftParen {
        let e = expr_len(ts.skip(2));
        if e > 0 && 2 + e < ts.len() && ts[2 + e].kind == TokenKind::RightParen {
            let k = simple_stmt_len(ts.skip(3 + e));
            if k > 0 {
                3 + e + k
            } else {
                0
            }
        } else {
            0
        }
    } else if ts.len() >= 2 && ts[0].kind == TokenKind::For && ts[1].kind == TokenKind::LeftParen {
        let h = for_clauses_len(ts.skip(2));
        let k = if h > 0 && 2 + h <= ts.len() {
            simple_stmt_len(ts.skip(2 + h))
        } else {
            0
        };
        if k > 0 {
            2 + h + k
        } else {
            0
        }
    } else if ts.len() >= 1 && ts[0].kind == TokenKind::LeftBrace {
        let k = simple_seq_len(ts.skip(1));
        if k >= 0 && 1 + k < ts.len() && ts[1 + k].kind == TokenKind::RightBrace {
            k + 2
        } else {
            0
        }
    } else if ts.len() >= 1 && !starts_statement(ts[0].kind) {
        let e = expr_len(ts);
        if e > 0 && e < ts.len() && ts[e].kind == TokenKind::Semicolon {
            e + 1
        } else {
            0
        }
    } else {
        0
    }
}

/// The number of tokens of a `for` loop's clauses after its `(`: an
/// initializer, a condition and an increment, up to and with the `)`; or 0.
#[verifier::opaque]
pub open spec fn for_clauses_len(ts: Seq<Token>) -> int
    decreases ts.len(), 5int,
{
    let i = for_init_len(ts);
    let c = if i > 0 && i <= ts.len() {
        for_cond_len(ts.skip(i))
    } else {
        0
    };
    let n = if i > 0 && c > 0 && i + c <= ts.len() {
        for_incr_len(ts.skip(i + c))
    } else {
        0
    };
    if i > 0 && c > 0 && n > 0 {
        i + c + n
    } else {
        0
    }
}

/// A `for` loop that the grammar reads is `for`, `(`, clauses and a body.
proof fn lemma_for_len(ts: Seq<Token>)
    requires
        ts.len() >= 1,
        ts[0].kind == TokenKind::For,
    ensures
        simple_stmt_len(ts) > 0 ==> {
            let h = for_clauses_len(ts.skip(2));
            &&& ts.len() >= 2
            &&& ts[1].kind == TokenKind::LeftParen
            &&& h > 0
            &&& 2 + h <= ts.len()
            &&& simple_stmt_len(ts.skip(2 + h)) > 0
            &&& simple_stmt_len(ts) == 2 + h + simple_stmt_len(ts.skip(2 + h))
        },
{
    reveal(simple_stmt_len);
    reveal(for_clauses_len);
}

/// A class declaration that the grammar reads is `class`, a name,
/// possibly `<` and a name, `{`, simple methods and `}`.
proof fn lemma_class_len(ts: Seq<Token>)
    requires
        ts.len() >= 1,
        ts[0].kind == TokenKind::Class,
    ensures
        simple_decl_len(ts) > 0 ==> {
            let b: int = if ts[2].kind != TokenKind::Less {
                2
            } else {
                4
            };
            let m = simple_methods_len(ts.skip(b + 1));
            &&& ts.len() >= 3
            &&& ts[1].kind == TokenKind::Identifier
            &&& ts[2].kind == TokenKind::Less ==> ts.len() >= 4 && ts[3].kind == TokenKind::Identifier
            &&& b < ts.len()
            &&& ts[b].kind == TokenKind::LeftBrace
            &&& m >= 0
            &&& b + 1 + m < ts.len()
            &&& ts[b + 1 + m].kind == TokenKind::RightBrace
            &&& simple_decl_len(ts) == b + 2 + m
        },
{
    reveal(simple_decl_len);
    reveal(simple_stmt_len);
}

/// The clauses of a `for` loop that the grammar reads, one after another.
proof fn lemma_for_clauses_len(ts: Seq<Token>)
    ensures
        for_clauses_len(ts) > 0 ==> {
            let i = for_init_len(ts);
            let c = for_cond_len(ts.skip(i));
            let n = for_incr_len(ts.skip(i + c));
            &&& i > 0 && c > 0 && n > 0
            &&& i + c <= ts.len()
            &&& for_clauses_len(ts) == i + c + n
        },
{
    reveal(for_clauses_len);
}

/// The pieces of a `for` loop's clauses, as parsed: the initializer, the
/// condition, the expression that stands for it, the increment and the `)`.
struct ForClauses {
    initializer: Option<Stmt>,
    init_semi: Ghost<Span>,
    cond: Ghost<Option<Expr>>,
    cond_semi: Ghost<Span>,
    expr: Expr,
    increment: Option<Expr>,
    rparen: Span,
}

/// The tokens that the clauses of a `for` loop were parsed from.
spec fn clauses_tokens(c: ForClauses) -> Seq<TokenView> {
    for_init_tokens(c.initializer, c.init_semi@) + for_cond_tokens(c.cond@, c.cond_semi@) + optional_expr_tokens(
        c.increment,
    ) + seq![punct(TokenKind::RightParen, c.rparen)]
}

/// The number of tokens of a `for` loop's initializer, its `;` included:
/// a lone `;`, a simple variable declaration, or an expression statement;
/// or 0.
pub open spec fn for_init_len(ts: Seq<Token>) -> int
    decreases ts.len(), 4int,
{
    if ts.len() >= 1 && ts[0].kind == TokenKind::Semicolon {
        1
    } else if ts.len() >= 1 && ts[0].kind == TokenKind::Var {
        simple_decl_len(ts)
    } else if ts.len() >= 1 && !starts_statement(ts[0].kind) {
        simple_stmt_len(ts)
    } else {
        0
    }
}

/// The number of tokens of a `for` loop's condition and the `;` after it;
/// 0 where there is none, as an empty condition leaves its `;` to be read
/// as the increment, which no expression begins with.
pub open spec fn for_cond_len(ts: Seq<Token>) -> int {
    let e = expr_len(ts);
    if e > 0 && e < ts.len() && ts[e].kind == TokenKind::Semicolon {
        e + 1
    } else {
        0
    }
}

/// The number of tokens of a `for` loop's increment and the `)` after it;
/// or 0.
pub open spec fn for_incr_len(ts: Seq<Token>) -> int {
    if ts.len() >= 1 && ts[0].kind == TokenKind::RightParen {
        1
    } else {
        let e = expr_len(ts);
        if e > 0 && e < ts.len() && ts[e].kind == TokenKind::RightParen {
            e + 1
        } else {
            0
        }
    }
}

/// The number of tokens of a parameter list after its `(`, up to and
/// including the `)`: names, each but the last followed by `,`; or 0.
pub open spec fn params_len(ts: Seq<Token>) -> int
    decreases ts.len(),
{
    if ts.len() >= 1 && ts[0].kind == TokenKind::RightParen {
        1
    } else if ts.len() >= 2 && ts[0].kind == TokenKind::Identifier && ts[1].kind == TokenKind::RightParen {
        2
    } else if ts.len() >= 2 && ts[0].kind == TokenKind::Identifier && ts[1].kind == TokenKind::Comma {
        let r = params_len(ts.skip(2));
        if r > 0 {
            r + 2
        } else {
            0
        }
    } else {
        0
    }
}

/// The number of tokens of a simple function after its name: parameters
/// in parentheses, then simple declarations in braces; or 0.
pub open spec fn simple_function_len(ts: Seq<Token>) -> int
    decreases ts.len(), 0int,
{
    if ts.len() >= 1 && ts[0].kind == TokenKind::LeftParen {
        let q = params_len(ts.skip(1));
        if q > 0 && 1 + q < ts.len() && ts[1 + q].kind == TokenKind::LeftBrace {
            let k = simple_stmt_len(ts.skip(1 + q));
            if k > 0 {
                1 + q + k
            } else {
                0
            }
        } else {
            0
        }
    } else {
        0
    }
}

/// The same for a simple declaration: `var` and a name, or `var`, a name,
/// `=` and an expression, ended by `;`; `fun`, a name and a simple
/// function; `class`, a name, possibly `<` and a name, then simple methods
/// in braces; or
/// a simple statement.
#[verifier::opaque]
pub open spec fn simple_decl_len(ts: Seq<Token>) -> int
    decreases ts.len(), 2int,
{
    if ts.len() >= 3 && ts[0].kind == TokenKind::Fun && ts[1].kind == TokenKind::Identifier && simple_function_len(
        ts.skip(2),
    ) > 0 {
        2 + simple_function_len(ts.skip(2))
    } else if ts.len() >= 3 && ts[0].kind == TokenKind::Var && ts[1].kind == TokenKind::Identifier && ts[2].kind
        == TokenKind::Semicolon {
        3
    } else if ts.len() >= 3 && ts[0].kind == TokenKind::Var && ts[1].kind == TokenKind::Identifier && ts[2].kind
        == TokenKind::Equal {
        let e = expr_len(ts.skip(3));
        if e > 0 && 3 + e < ts.len() && ts[3 + e].kind == TokenKind::Semicolon {
            e + 4
        } else {
            0
        }
    } else if ts.len() >= 3 && ts[0].kind == TokenKind::Class && ts[1].kind == TokenKind::Identifier {
        let b: int = if ts[2].kind != TokenKind::Less {
            2
        } else if ts.len() >= 4 && ts[3].kind == TokenKind::Identifier {
            4
        } else {
            0
        };
        let m = if b > 0 && b < ts.len() && ts[b].kind == TokenKind::LeftBrace {
            simple_methods_len(ts.skip(b + 1))
        } else {
            -1
        };
        if m >= 0 && b + 1 + m < ts.len() && ts[b + 1 + m].kind == TokenKind::RightBrace {
            b + 2 + m
        } else {
            0
        }
    } else {
        simple_stmt_len(ts)
    }
}

/// The number of tokens of the simple methods that `ts` begins with, up to
/// a `}`: each a name and a simple function; -1 where something else comes
/// first.
pub open spec fn simple_methods_len(ts: Seq<Token>) -> int
    decreases ts.len(), 0int,
{
    if ts.len() >= 1 && ts[0].kind == TokenKind::RightBrace {
        0
    } else if ts.len() >= 1 && ts[0].kind == TokenKind::Identifier {
        let f = simple_function_len(ts.skip(1));
        if f > 0 && 1 + f <= ts.len() {
            let r = simple_methods_len(ts.skip(1 + f));
            if r >= 0 {
                1 + f + r
            } else {
                -1
            }
        } else {
            -1
        }
    } else {
        -1
    }
}

/// The number of tokens of the simple declarations that `ts` begins with,
/// up to a `}`; -1 where something else comes first.
pub open spec fn simple_seq_len(ts: Seq<Token>) -> int
    decreases ts.len(), 3int,
{
    if ts.len() >= 1 && ts[0].kind == TokenKind::RightBrace {
        0
    } else {
        let k = simple_decl_len(ts);
        if k > 0 && k <= ts.len() {
            let r = simple_seq_len(ts.skip(k));
            if r >= 0 {
                k + r
            } else {
                -1
            }
        } else {
            -1
        }
    }
}

/// `ts` is simple declarations, then the end of the file.
pub open spec fn simple_program(ts: Seq<Token>) -> bool
    decreases ts.len(),
{
    if ts.len() >= 1 && ts[0].kind == TokenKind::Eof {
        true
    } else if 0 < simple_decl_len(ts) <= ts.len() {
        simple_program(ts.skip(simple_decl_len(ts)))
    } else {
        false
    }
}

/// A line typed at the prompt begins with a simple declaration, or, where
/// its first token begins no statement, with an expression.
pub open spec fn simple_line(ts: Seq<Token>) -> bool {
    if starts_statement(ts[0].kind) {
        simple_decl_len(ts) > 0
    } else {
        expr_len(ts) > 0
    }
}

/// The number of simple declarations before the end of the file, where `ts`
/// is such declarations, then the end of the file.
pub open spec fn simple_count(ts: Seq<Token>) -> nat
    decreases ts.len(),
{
    if ts.len() >= 1 && ts[0].kind == TokenKind::Eof {
        0
    } else if 0 < simple_decl_len(ts) <= ts.len() {
        1 + simple_count(ts.skip(simple_decl_len(ts)))
    } else {
        0
    }
}

/// Where `k` is positive, the next `k` tokens are parsed, with no error.
pub open spec fn simple_parsed<T>(before: Parser, r: Option<T>, after: Parser, k: int) -> bool {
    k > 0 ==> {
        &&& r is Some
        &&& k <= before.remaining().len()
        &&& after.remaining() == before.remaining().skip(k)
        &&& after.parse_errors() == before.parse_errors()
    }
}

/// The stream before a step is what `e` was parsed from, then the stream
/// after it.
pub open spec fn parsed_from(before: Parser, e: Expr, after: Parser) -> bool {
    &&& before.stream() == expr_tokens(e) + after.stream()
    &&& before.consumed(after)
}

/// The literal a literal token stands for.
fn literal_of(t: Token) -> (r: Literal)
    requires
        t.kind == TokenKind::FloatLiteral || t.kind == TokenKind::StringLiteral || t.kind
            == TokenKind::True || t.kind == TokenKind::False || t.kind == TokenKind::Nil,
    ensures
        literal_token(r) == recorded(t),
{
    match t.kind {
        TokenKind::FloatLiteral => Literal::Float { span: t.span, value: t.value },
        TokenKind::StringLiteral => Literal::String { span: t.span, value: t.value },
        TokenKind::True => Literal::True(t.span),
        TokenKind::False => Literal::False(t.span),
        _ => Literal::Nil(t.span),
    }
}

/// The binary operator a token of an operator kind stands for.
fn binary_operator_of(t: Token) -> (r: BinaryOperator)
    requires
        is_level_operator(BinaryLevel::Equality, t.kind) || is_level_operator(
            BinaryLevel::Comparison,
            t.kind,
        ) || is_level_operator(BinaryLevel::Term, t.kind) || is_level_operator(
            BinaryLevel::Factor,
            t.kind,
        ),
    ensures
        binary_token(r) == recorded(t),
        t.kind == TokenKind::BangEqual <==> r is NotEqual,
        t.kind == TokenKind::EqualEqual <==> r is Equal,
        t.kind == TokenKind::Greater <==> r is Greater,
        t.kind == TokenKind::GreaterEqual <==> r is GreaterEqual,
        t.kind == TokenKind::Less <==> r is Less,
        t.kind == TokenKind::LessEqual <==> r is LessEqual,
        t.kind == TokenKind::Minus <==> r is Subtract,
        t.kind == TokenKind::Plus <==> r is Add,
        t.kind == TokenKind::Slash <==> r is Divide,
        t.kind == TokenKind::Star <==> r is Multiply,
{
    match t.kind {
        TokenKind::BangEqual => BinaryOperator::NotEqual(t.span),
        TokenKind::EqualEqual => BinaryOperator::Equal(t.span),
        TokenKind::Greater => BinaryOperator::Greater(t.span),
        TokenKind::GreaterEqual => BinaryOperator::GreaterEqual(t.span),
        TokenKind::Less => BinaryOperator::Less(t.span),
        TokenKind::LessEqual => BinaryOperator::LessEqual(t.span),
        TokenKind::Minus => BinaryOperator::Subtract(t.span),
        TokenKind::Plus => BinaryOperator::Add(t.span),
        TokenKind::Slash => BinaryOperator::Divide(t.span),
        _ => BinaryOperator::Multiply(t.span),
    }
}

proof fn lemma_prefix_same_values(p: Punctuated<Expr, Span>, q: Punctuated<Expr, Span>, i: int)
    requires
        p.values@ == q.values@,
    ensures
        arguments_prefix_tokens(p, i) == arguments_prefix_tokens(q, i),
    decreases p.values@.len() - i,
{
    if 0 <= i < p.values@.len() {
        lemma_prefix_same_values(p, q, i + 1);
    }
}

proof fn lemma_prefix_push(p: Punctuated<Expr, Span>, q: Punctuated<Expr, Span>, x: (Expr, Span), i: int)
    requires
        q.values@ == p.values@.push(x),
        0 <= i <= p.values@.len(),
    ensures
        arguments_prefix_tokens(q, i) == arguments_prefix_tokens(p, i) + expr_tokens(x.0) + seq![
            punct(TokenKind::Comma, x.1),
        ],
    decreases p.values@.len() - i,
{
    if i < p.values@.len() {
        lemma_prefix_push(p, q, x, i + 1);
        assert(q.values@[i] == p.values@[i]);
        assert(arguments_prefix_tokens(q, i) =~= arguments_prefix_tokens(p, i) + expr_tokens(x.0)
            + seq![punct(TokenKind::Comma, x.1)]);
    } else {
        assert(arguments_prefix_tokens(p, i) =~= seq![]);
        assert(arguments_prefix_tokens(q, i + 1) =~= seq![]);
        assert(arguments_prefix_tokens(q, i) =~= expr_tokens(x.0) + seq![
            punct(TokenKind::Comma, x.1),
        ]);
    }
}

proof fn lemma_params_same_values(p: Punctuated<Identifier, Span>, q: Punctuated<Identifier, Span>, i: int)
    requires
        p.values@ == q.values@,
    ensures
        params_prefix_tokens(p, i) == params_prefix_tokens(q, i),
    decreases p.values@.len() - i,
{
    if 0 <= i < p.values@.len() {
        lemma_params_same_values(p, q, i + 1);
    }
}

proof fn lemma_params_push(p: Punctuated<Identifier, Span>, q: Punctuated<Identifier, Span>, x: (Identifier, Span), i: int)
    requires
        q.values@ == p.values@.push(x),
        0 <= i <= p.values@.len(),
    ensures
        params_prefix_tokens(q, i) == params_prefix_tokens(p, i) + seq![
            ident_token(x.0),
            punct(TokenKind::Comma, x.1),
        ],
    decreases p.values@.len() - i,
{
    if i < p.values@.len() {
        lemma_params_push(p, q, x, i + 1);
        assert(q.values@[i] == p.values@[i]);
        assert(params_prefix_tokens(q, i) =~= params_prefix_tokens(p, i) + seq![
            ident_token(x.0),
            punct(TokenKind::Comma, x.1),
        ]);
    } else {
        assert(params_prefix_tokens(p, i) =~= seq![]);
        assert(params_prefix_tokens(q, i + 1) =~= seq![]);
        assert(params_prefix_tokens(q, i) =~= seq![ident_token(x.0), punct(TokenKind::Comma, x.1)]);
    }
}

proof fn lemma_stmts_push(a: Vec<Stmt>, b: Vec<Stmt>, x: Stmt, i: int)
    requires
        b@ == a@.push(x),
        0 <= i <= a@.len(),
    ensures
        stmts_tokens(b, i) == stmts_tokens(a, i) + stmt_tokens(x),
    decreases a@.len() - i,
{
    if i < a@.len() {
        lemma_stmts_push(a, b, x, i + 1);
        assert(b@[i] == a@[i]);
        assert(stmts_tokens(b, i) =~= stmts_tokens(a, i) + stmt_tokens(x));
    } else {
        assert(stmts_tokens(a, i) =~= seq![]);
        assert(stmts_tokens(b, i + 1) =~= seq![]);
        assert(stmts_tokens(b, i) =~= stmt_tokens(x));
    }
}

proof fn lemma_methods_push(a: Vec<Method>, b: Vec<Method>, x: Method, i: int)
    requires
        b@ == a@.push(x),
        0 <= i <= a@.len(),
    ensures
        methods_tokens(b, i) == methods_tokens(a, i) + seq![ident_token(x.identifier)] + function_tokens(x.function),
    decreases a@.len() - i,
{
    if i < a@.len() {
        lemma_methods_push(a, b, x, i + 1);
        assert(b@[i] == a@[i]);
        assert(methods_tokens(b, i) =~= methods_tokens(a, i) + seq![ident_token(x.identifier)] + function_tokens(
            x.function,
        ));
    } else {
        assert(methods_tokens(a, i) =~= seq![]);
        assert(methods_tokens(b, i + 1) =~= seq![]);
        assert(methods_tokens(b, i) =~= seq![ident_token(x.identifier)] + function_tokens(x.function));
    }
}

impl Parser {
    /// Consumes tokens up to and including the next one of `kind`, stopping
    /// before end-of-file.
    fn synchronize(&mut self, kind: TokenKind)
        requires
            old(self).wf(),
        ensures
            old(self).progressed(*final(self)),
            old(self).tokens@[0].kind != TokenKind::Eof ==> old(self).consumed(*final(self)),
            final(self).errors@ == old(self).errors@,
            old(self).tokens@[0].kind == kind && kind != TokenKind::Eof ==> final(self).tokens@ == old(
                self,
            ).tokens@.drop_first(),
    {
        proof {
            self.lemma_progressed_refl();
        }
        loop
            invariant_except_break
                old(self).tokens@[0].kind == kind ==> self.tokens@ == old(self).tokens@,
            invariant
                old(self).progressed(*self),
                old(self).tokens@[0].kind != TokenKind::Eof ==> old(self).consumed(*self)
                    || self.tokens@ == old(self).tokens@,
                self.errors@ == old(self).errors@,
            ensures
                old(self).progressed(*self),
                old(self).tokens@[0].kind != TokenKind::Eof ==> old(self).consumed(*self),
                self.errors@ == old(self).errors@,
                old(self).tokens@[0].kind == kind && kind != TokenKind::Eof ==> self.tokens@ == old(
                    self,
                ).tokens@.drop_first(),
            decreases self.tokens@.len(),
        {
            if self.peek_kind() == TokenKind::Eof {
                break;
            }
            let ghost before = *self;
            let t = self.advance();
            proof {
                Parser::lemma_progressed_trans(*old(self), before, *self);
            }
            if t.kind == kind {
                break;
            }
        }
    }

    fn expression(&mut self) -> (r: Option<Expr>)
        requires
            old(self).wf(),
        ensures
            old(self).progressed(*final(self)),
            r matches Some(e) ==> parsed_from(*old(self), e, *final(self)),
            r is None ==> old(self).failed(*final(self)),
            atom_parsed(*old(self), r, *final(self)),
            simple_parsed(*old(self), r, *final(self), expr_len(old(self).remaining())),
        decreases old(self).tokens@.len(), 60int,
    {
        proof {
            reveal(expr_len);
        }
        self.assignment()
    }
    #[verifier::spinoff_prover]
    #[verifier::rlimit(80)]
    fn assignment(&mut self) -> (r: Option<Expr>)
        requires
            old(self).wf(),
        ensures
            old(self).progressed(*final(self)),
            r matches Some(e) ==> parsed_from(*old(self), e, *final(self)),
            r is None ==> old(self).failed(*final(self)),
            atom_parsed(*old(self), r, *final(self)),
            simple_parsed(*old(self), r, *final(self), assign_len(old(self).remaining())),
        decreases old(self).tokens@.len(), 59int,
    {
        let ghost s0 = *self;
        let Some(expr) = self.logic_or() else {
            return None;
        };
        let ghost s1 = *self;
        proof {
            if assign_len(s0.remaining()) > 0 {
                let a = or_len(s0.remaining());
                assert(s1.remaining() == s0.remaining().skip(a));
                assert(s1.remaining()[0] == s0.remaining()[a]);
            }
        }
        if let Some(equal) = self.expect_span(TokenKind::Equal) {
            let ghost s2 = *self;
            proof {
                Parser::lemma_progressed_trans(s0, s1, s2);
                if assign_len(s0.remaining()) > 0 {
                    let a = or_len(s0.remaining());
                    assert(s2.remaining() =~= s1.remaining().skip(1));
                    lemma_skip_skip(s0.remaining(), a, 1);
                }
            }
            let Some(value) = self.assignment() else {
                proof {
                    Parser::lemma_progressed_trans(s0, s2, *self);
                }
                return None;
            };
            proof {
                Parser::lemma_progressed_trans(s0, s2, *self);
                if assign_len(s0.remaining()) > 0 {
                    let a = or_len(s0.remaining());
                    let v = assign_len(s2.remaining());
                    assert(v > 0);
                    assert(self.remaining() == s2.remaining().skip(v));
                    lemma_skip_skip(s0.remaining(), a + 1, v);
                    assert(self.remaining() == s0.remaining().skip(a + 1 + v));
                    assert(self.parse_errors() == s0.parse_errors());
                    assert(is_target(s0.remaining(), a));
                    assert(shaped(s0.remaining(), Some(expr)));
                }
            }
            match expr {
                Expr::Get(GetExpr { target, dot, field }) => {
                    let r = Expr::SetField(
                        SetExpr { target, dot, field, equal, expr: Box::new(value) },
                    );
                    proof {
                        assert(s0.stream() =~= expr_tokens(r) + self.stream());
                    }
                    Some(r)
                },
                Expr::Variable(VariableExpr { name }) => {
                    let r = Expr::Assign(AssignExpr { name, equal, expr: Box::new(value) });
                    proof {
                        assert(s0.stream() =~= expr_tokens(r) + self.stream());
                    }
                    Some(r)
                },
                _ => {
                    let ghost s3 = *self;
                    let span = expr.span();
                    self.error(ParseError::InvalidAssignmentTarget(span));
                    proof {
                        Parser::lemma_progressed_trans(s0, s3, *self);
                    }
                    None
                },
            }
        } else {
            Some(expr)
        }
    }
    #[verifier::spinoff_prover]
    #[verifier::rlimit(80)]
    fn logic_or(&mut self) -> (r: Option<Expr>)
        requires
            old(self).wf(),
        ensures
            old(self).progressed(*final(self)),
            r matches Some(e) ==> parsed_from(*old(self), e, *final(self)),
            r is None ==> old(self).failed(*final(self)),
            atom_parsed(*old(self), r, *final(self)),
            simple_parsed(*old(self), r, *final(self), or_len(old(self).remaining())),
            or_len(old(self).remaining()) > 0 && or_len(old(self).remaining()) == call_len(old(self).remaining()) ==> shaped(old(self).remaining(), r),
        decreases old(self).tokens@.len(), 58int,
    {
        proof {
            reveal(or_tail);
        }
        let ghost s0 = *self;
        proof {
            lemma_lens_cover_call(s0.remaining());
        }
        let Some(mut expr) = self.logic_and() else {
            return None;
        };
        proof {
            if or_len(s0.remaining()) > 0 {
                let a = and_len(s0.remaining());
                assert(self.remaining() == s0.remaining().skip(a));
                assert(self.remaining().len() == s0.remaining().len() - a);
                reveal_with_fuel(or_len, 2);
                assert(or_len(s0.remaining()) == a + or_tail(s0.remaining().skip(a)));
            }
        }
        loop
            invariant
                s0 == *old(self),
                s0.progressed(*self),
                parsed_from(s0, expr, *self),
                atom_next(s0) ==> self.remaining() == s0.remaining().drop_first() && self.errors@ == s0.errors@
                    && (expr matches Expr::Variable(v) ==> v.name.decoration.spec_index() == s0.decoration_counts()[0]),
                or_len(s0.remaining()) > 0 ==> self.errors@ == s0.errors@ && reading_at(s0.remaining(), self.remaining(), or_tail(self.remaining()), or_len(s0.remaining())),
                or_len(s0.remaining()) > 0 ==> s0.remaining().len() - self.remaining().len() >= and_len(s0.remaining()),
                or_len(s0.remaining()) > 0 && or_len(s0.remaining()) == call_len(s0.remaining()) && s0.remaining().len() - self.remaining().len() == and_len(s0.remaining())
                    ==> shaped(s0.remaining(), Some(expr)),
            ensures
                or_len(s0.remaining()) > 0 ==> or_tail(self.remaining()) == 0,
            decreases self.tokens@.len(),
        {
            reveal(or_tail);
            let ghost s1 = *self;
            let Some(or) = self.expect_span(TokenKind::Or) else {
                break;
            };
            let ghost s2 = *self;
            proof {
                Parser::lemma_progressed_trans(s0, s1, s2);
            }
            let Some(rhs) = self.logic_and() else {
                proof {
                    Parser::lemma_progressed_trans(s0, s2, *self);
                }
                return None;
            };
            proof {
                Parser::lemma_progressed_trans(s0, s2, *self);
                if or_len(s0.remaining()) > 0 {
                    let ts0 = s0.remaining();
                    let d = ts0.len() - s1.remaining().len();
                    let b = and_len(s2.remaining());
                    lemma_skip_skip(ts0, d, 1);
                    assert(s2.remaining() =~= ts0.skip(d + 1));
                    lemma_skip_skip(ts0, d + 1, b);
                    assert(self.remaining() =~= ts0.skip(d + 1 + b));
                    lemma_skip_skip(ts0, d, 1 + b);
                    assert(s1.remaining().skip(1) =~= s2.remaining());
                    assert(or_tail(s1.remaining()) == 1 + b + or_tail(self.remaining()));
                }
            }
            let ghost old_expr = expr;
            expr = Expr::Binary(
                BinaryExpr { left: Box::new(expr), operator: BinaryOperator::Or(or), right: Box::new(rhs) },
            );
            proof {
                assert(s0.stream() =~= expr_tokens(expr) + self.stream());
            }
        }
        Some(expr)
    }
    #[verifier::spinoff_prover]
    #[verifier::rlimit(100)]
    fn logic_and(&mut self) -> (r: Option<Expr>)
        requires
            old(self).wf(),
        ensures
            old(self).progressed(*final(self)),
            r matches Some(e) ==> parsed_from(*old(self), e, *final(self)),
            r is None ==> old(self).failed(*final(self)),
            atom_parsed(*old(self), r, *final(self)),
            simple_parsed(*old(self), r, *final(self), and_len(old(self).remaining())),
            and_len(old(self).remaining()) > 0 && and_len(old(self).remaining()) == call_len(old(self).remaining()) ==> shaped(old(self).remaining(), r),
        decreases old(self).tokens@.len(), 57int,
    {
        proof {
            reveal(and_tail);
        }
        let ghost s0 = *self;
        proof {
            lemma_lens_cover_call(s0.remaining());
        }
        let Some(mut expr) = self.equality() else {
            return None;
        };
        proof {
            if and_len(s0.remaining()) > 0 {
                let a = bin_len(BinaryLevel::Equality, s0.remaining());
                assert(self.remaining() == s0.remaining().skip(a));
                assert(self.remaining().len() == s0.remaining().len() - a);
                reveal_with_fuel(and_len, 2);
                assert(and_len(s0.remaining()) == a + and_tail(s0.remaining().skip(a)));
            }
        }
        loop
            invariant
                s0 == *old(self),
                s0.progressed(*self),
                parsed_from(s0, expr, *self),
                atom_next(s0) ==> self.remaining() == s0.remaining().drop_first() && self.errors@ == s0.errors@
                    && (expr matches Expr::Variable(v) ==> v.name.decoration.spec_index() == s0.decoration_counts()[0]),
                and_len(s0.remaining()) > 0 ==> self.errors@ == s0.errors@ && reading_at(s0.remaining(), self.remaining(), and_tail(self.remaining()), and_len(s0.remaining())),
                and_len(s0.remaining()) > 0 ==> s0.remaining().len() - self.remaining().len() >= bin_len(BinaryLevel::Equality, s0.remaining()),
                and_len(s0.remaining()) > 0 && and_len(s0.remaining()) == call_len(s0.remaining()) && s0.remaining().len() - self.remaining().len() == bin_len(BinaryLevel::Equality, s0.remaining())
                    ==> shaped(s0.remaining(), Some(expr)),
            ensures
                and_len(s0.remaining()) > 0 ==> and_tail(self.remaining()) == 0,
            decreases self.tokens@.len(),
        {
            reveal(and_tail);
            let ghost s1 = *self;
            let Some(and) = self.expect_span(TokenKind::And) else {
                break;
            };
            let ghost s2 = *self;
            proof {
                Parser::lemma_progressed_trans(s0, s1, s2);
            }
            let Some(rhs) = self.equality() else {
                proof {
                    Parser::lemma_progressed_trans(s0, s2, *self);
                }
                return None;
            };
            proof {
                Parser::lemma_progressed_trans(s0, s2, *self);
                if and_len(s0.remaining()) > 0 {
                    let ts0 = s0.remaining();
                    let d = ts0.len() - s1.remaining().len();
                    let b = bin_len(BinaryLevel::Equality, s2.remaining());
                    lemma_skip_skip(ts0, d, 1);
                    assert(s2.remaining() =~= ts0.skip(d + 1));
                    lemma_skip_skip(ts0, d + 1, b);
                    assert(self.remaining() =~= ts0.skip(d + 1 + b));
                    lemma_skip_skip(ts0, d, 1 + b);
                    assert(s1.remaining().skip(1) =~= s2.remaining());
                    assert(and_tail(s1.remaining()) == 1 + b + and_tail(self.remaining()));
                }
            }
            expr = Expr::Binary(
                BinaryExpr { left: Box::new(expr), operator: BinaryOperator::And(and), right: Box::new(rhs) },
            );
            proof {
                assert(s0.stream() =~= expr_tokens(expr) + self.stream());
            }
        }
        Some(expr)
    }

    fn equality(&mut self) -> (r: Option<Expr>)
        requires
            old(self).wf(),
        ensures
            old(self).progressed(*final(self)),
            r matches Some(e) ==> parsed_from(*old(self), e, *final(self)),
            r is None ==> old(self).failed(*final(self)),
            atom_parsed(*old(self), r, *final(self)),
            simple_parsed(*old(self), r, *final(self), bin_len(BinaryLevel::Equality, old(self).remaining())),
            bin_len(BinaryLevel::Equality, old(self).remaining()) > 0 && bin_len(BinaryLevel::Equality, old(self).remaining()) == call_len(old(self).remaining()) ==> shaped(old(self).remaining(), r),
        decreases old(self).tokens@.len(), 56int,
    {
        self.parse_left_binary(BinaryLevel::Equality)
    }

    fn comparison(&mut self) -> (r: Option<Expr>)
        requires
            old(self).wf(),
        ensures
            old(self).progressed(*final(self)),
            r matches Some(e) ==> parsed_from(*old(self), e, *final(self)),
            r is None ==> old(self).failed(*final(self)),
            atom_parsed(*old(self), r, *final(self)),
            simple_parsed(*old(self), r, *final(self), bin_len(BinaryLevel::Comparison, old(self).remaining())),
            bin_len(BinaryLevel::Comparison, old(self).remaining()) > 0 && bin_len(BinaryLevel::Comparison, old(self).remaining()) == call_len(old(self).remaining()) ==> shaped(old(self).remaining(), r),
        decreases old(self).tokens@.len(), 53int,
    {
        self.parse_left_binary(BinaryLevel::Comparison)
    }

    fn term(&mut self) -> (r: Option<Expr>)
        requires
            old(self).wf(),
        ensures
            old(self).progressed(*final(self)),
            r matches Some(e) ==> parsed_from(*old(self), e, *final(self)),
            r is None ==> old(self).failed(*final(self)),
            atom_parsed(*old(self), r, *final(self)),
            simple_parsed(*old(self), r, *final(self), bin_len(BinaryLevel::Term, old(self).remaining())),
            bin_len(BinaryLevel::Term, old(self).remaining()) > 0 && bin_len(BinaryLevel::Term, old(self).remaining()) == call_len(old(self).remaining()) ==> shaped(old(self).remaining(), r),
        decreases old(self).tokens@.len(), 50int,
    {
        self.parse_left_binary(BinaryLevel::Term)
    }

    fn factor(&mut self) -> (r: Option<Expr>)
        requires
            old(self).wf(),
        ensures
            old(self).progressed(*final(self)),
            r matches Some(e) ==> parsed_from(*old(self), e, *final(self)),
            r is None ==> old(self).failed(*final(self)),
            atom_parsed(*old(self), r, *final(self)),
            simple_parsed(*old(self), r, *final(self), bin_len(BinaryLevel::Factor, old(self).remaining())),
            bin_len(BinaryLevel::Factor, old(self).remaining()) > 0 && bin_len(BinaryLevel::Factor, old(self).remaining()) == call_len(old(self).remaining()) ==> shaped(old(self).remaining(), r),
        decreases old(self).tokens@.len(), 47int,
    {
        self.parse_left_binary(BinaryLevel::Factor)
    }

    /// Consumes an operator of `level` if one is next.
    fn level_operator(&mut self, level: BinaryLevel) -> (r: Option<BinaryOperator>)
        requires
            old(self).wf(),
        ensures
            old(self).progressed(*final(self)),
            match r {
                Some(op) => {
                    &&& old(self).consumed(*final(self))
                    &&& old(self).stream() == seq![binary_token(op)] + final(self).stream()
                    &&& is_level_operator(level, old(self).tokens@[0].kind)
                    &&& final(self).tokens@ == old(self).tokens@.drop_first()
                    &&& final(self).errors@ == old(self).errors@
                },
                None => *final(self) == *old(self) && !is_level_operator(level, old(self).tokens@[0].kind),
            },
    {
        let kind = self.peek_kind();
        let matches = match level {
            BinaryLevel::Equality => kind == TokenKind::BangEqual || kind == TokenKind::EqualEqual,
            BinaryLevel::Comparison => kind == TokenKind::Greater || kind == TokenKind::GreaterEqual
                || kind == TokenKind::Less || kind == TokenKind::LessEqual,
            BinaryLevel::Term => kind == TokenKind::Minus || kind == TokenKind::Plus,
            BinaryLevel::Factor => kind == TokenKind::Slash || kind == TokenKind::Star,
        };
        if matches {
            let t = self.advance();
            let op = binary_operator_of(t);
            proof {
                assert(old(self).stream() =~= seq![binary_token(op)] + self.stream());
            }
            Some(op)
        } else {
            proof {
                self.lemma_progressed_refl();
            }
            None
        }
    }

    /// Parses an operand of an operator of `level`.
    fn operand(&mut self, level: BinaryLevel) -> (r: Option<Expr>)
        requires
            old(self).wf(),
        ensures
            old(self).progressed(*final(self)),
            r matches Some(e) ==> parsed_from(*old(self), e, *final(self)),
            r is None ==> old(self).failed(*final(self)),
            atom_parsed(*old(self), r, *final(self)),
            simple_parsed(*old(self), r, *final(self), operand_len(level, old(self).remaining())),
            operand_len(level, old(self).remaining()) > 0 && operand_len(level, old(self).remaining()) == call_len(old(self).remaining()) ==> shaped(old(self).remaining(), r),
        decreases old(self).tokens@.len(), level_rank(level) - 1,
    {
        match level {
            BinaryLevel::Equality => self.comparison(),
            BinaryLevel::Comparison => self.term(),
            BinaryLevel::Term => self.factor(),
            BinaryLevel::Factor => self.unary(),
        }
    }

    /// Parses operands of `level` joined by its operators, grouping to the
    /// left.
    #[verifier::spinoff_prover]
    #[verifier::rlimit(80)]
    fn parse_left_binary(&mut self, level: BinaryLevel) -> (r: Option<Expr>)
        requires
            old(self).wf(),
        ensures
            old(self).progressed(*final(self)),
            r matches Some(e) ==> parsed_from(*old(self), e, *final(self)),
            r is None ==> old(self).failed(*final(self)),
            atom_parsed(*old(self), r, *final(self)),
            simple_parsed(*old(self), r, *final(self), bin_len(level, old(self).remaining())),
            bin_len(level, old(self).remaining()) > 0 && bin_len(level, old(self).remaining()) == call_len(old(self).remaining()) ==> shaped(old(self).remaining(), r),
        decreases old(self).tokens@.len(), level_rank(level),
    {
        proof {
            reveal(bin_tail);
        }
        let ghost s0 = *self;
        proof {
            lemma_lens_cover_call(s0.remaining());
        }
        let Some(mut expr) = self.operand(level) else {
            return None;
        };
        proof {
            if bin_len(level, s0.remaining()) > 0 {
                let a = operand_len(level, s0.remaining());
                assert(self.remaining() == s0.remaining().skip(a));
                assert(self.remaining().len() == s0.remaining().len() - a);
                reveal_with_fuel(bin_len, 2);
                assert(bin_len(level, s0.remaining()) == a + bin_tail(level, s0.remaining().skip(a)));
            }
        }
        loop
            invariant
                s0 == *old(self),
                s0.progressed(*self),
                parsed_from(s0, expr, *self),
                atom_next(s0) ==> self.remaining() == s0.remaining().drop_first() && self.errors@ == s0.errors@
                    && (expr matches Expr::Variable(v) ==> v.name.decoration.spec_index() == s0.decoration_counts()[0]),
                bin_len(level, s0.remaining()) > 0 ==> self.errors@ == s0.errors@ && reading_at(s0.remaining(), self.remaining(), bin_tail(level, self.remaining()), bin_len(level, s0.remaining())),
                bin_len(level, s0.remaining()) > 0 ==> s0.remaining().len() - self.remaining().len() >= operand_len(level, s0.remaining()),
                bin_len(level, s0.remaining()) > 0 && bin_len(level, s0.remaining()) == call_len(s0.remaining()) && s0.remaining().len() - self.remaining().len() == operand_len(level, s0.remaining())
                    ==> shaped(s0.remaining(), Some(expr)),
            ensures
                bin_len(level, s0.remaining()) > 0 ==> bin_tail(level, self.remaining()) == 0,
            decreases self.tokens@.len(),
        {
            reveal(bin_tail);
            let ghost s1 = *self;
            let Some(operator) = self.level_operator(level) else {
                break;
            };
            let ghost s2 = *self;
            proof {
                Parser::lemma_progressed_trans(s0, s1, s2);
            }
            let Some(right) = self.operand(level) else {
                proof {
                    Parser::lemma_progressed_trans(s0, s2, *self);
                }
                return None;
            };
            proof {
                Parser::lemma_progressed_trans(s0, s2, *self);
                if bin_len(level, s0.remaining()) > 0 {
                    let ts0 = s0.remaining();
                    let d = ts0.len() - s1.remaining().len();
                    let b = operand_len(level, s2.remaining());
                    lemma_skip_skip(ts0, d, 1);
                    assert(s2.remaining() =~= ts0.skip(d + 1));
                    lemma_skip_skip(ts0, d + 1, b);
                    assert(self.remaining() =~= ts0.skip(d + 1 + b));
                    lemma_skip_skip(ts0, d, 1 + b);
                    assert(s1.remaining().skip(1) =~= s2.remaining());
                    assert(bin_tail(level, s1.remaining()) == 1 + b + bin_tail(level, self.remaining()));
                }
            }
            expr = Expr::Binary(BinaryExpr { left: Box::new(expr), operator, right: Box::new(right) });
            proof {
                assert(s0.stream() =~= expr_tokens(expr) + self.stream());
            }
        }
        Some(expr)
    }
    #[verifier::spinoff_prover]
    #[verifier::rlimit(80)]
    fn unary(&mut self) -> (r: Option<Expr>)
        requires
            old(self).wf(),
        ensures
            old(self).progressed(*final(self)),
            r matches Some(e) ==> parsed_from(*old(self), e, *final(self)),
            r is None ==> old(self).failed(*final(self)),
            atom_parsed(*old(self), r, *final(self)),
            simple_parsed(*old(self), r, *final(self), unary_len(old(self).remaining())),
            unary_len(old(self).remaining()) > 0 && unary_len(old(self).remaining()) == call_len(old(self).remaining()) ==> shaped(old(self).remaining(), r),
        decreases old(self).tokens@.len(), 44int,
    {
        let ghost s0 = *self;
        let kind = self.peek_kind();
        if kind == TokenKind::Bang || kind == TokenKind::Minus {
            let t = self.advance();
            let operator = if t.kind == TokenKind::Bang {
                UnaryOperator::Not(t.span)
            } else {
                UnaryOperator::Negate(t.span)
            };
            let ghost s1 = *self;
            let Some(inner) = self.unary() else {
                proof {
                    Parser::lemma_progressed_trans(s0, s1, *self);
                }
                return None;
            };
            proof {
                Parser::lemma_progressed_trans(s0, s1, *self);
            }
            let r = Expr::Unary(UnaryExpr { operator, inner: Box::new(inner) });
            proof {
                assert(s0.stream() =~= seq![unary_token(operator)] + s1.stream());
                assert(expr_tokens(r) =~= seq![unary_token(operator)] + expr_tokens(inner));
                assert(s0.stream() =~= expr_tokens(r) + self.stream());
            }
            Some(r)
        } else {
            self.call()
        }
    }

    #[verifier::spinoff_prover]
    #[verifier::rlimit(80)]
    fn call(&mut self) -> (r: Option<Expr>)
        requires
            old(self).wf(),
        ensures
            old(self).progressed(*final(self)),
            r matches Some(e) ==> parsed_from(*old(self), e, *final(self)),
            r is None ==> old(self).failed(*final(self)),
            atom_parsed(*old(self), r, *final(self)),
            simple_parsed(*old(self), r, *final(self), call_len(old(self).remaining())),
            call_len(old(self).remaining()) > 0 ==> shaped(old(self).remaining(), r),
        decreases old(self).tokens@.len(), 43int,
    {
        proof {
            reveal(suffix_len);
            reveal(expr_len);
        }
        let ghost s0 = *self;
        let ghost hyp = call_len(s0.remaining()) > 0;
        let Some(mut expr) = self.primary() else {
            return None;
        };
        proof {
            if hyp {
                let p = primary_len(s0.remaining());
                assert(self.remaining() == s0.remaining().skip(p));
                assert(self.remaining().len() == s0.remaining().len() - p);
            }
        }
        loop
            invariant
                s0 == *old(self),
                s0.progressed(*self),
                parsed_from(s0, expr, *self),
                atom_next(s0) ==> self.remaining() == s0.remaining().drop_first() && self.errors@ == s0.errors@
                    && (expr matches Expr::Variable(v) ==> v.name.decoration.spec_index() == s0.decoration_counts()[0]),
                hyp == (call_len(s0.remaining()) > 0),
                hyp ==> self.errors@ == s0.errors@ && reading_at(
                    s0.remaining(),
                    self.remaining(),
                    suffix_len(self.remaining()),
                    call_len(s0.remaining()),
                ),
                hyp ==> call_shape_at(s0.remaining(), s0.remaining().len() - self.remaining().len(), expr),
                hyp ==> s0.remaining().len() - self.remaining().len() >= primary_len(s0.remaining()),
            ensures
                hyp ==> suffix_len(self.remaining()) == 0,
            decreases self.tokens@.len(),
        {
            proof {
                reveal(suffix_len);
                reveal(expr_len);
            }
            let ghost s1 = *self;
            proof {
                if atom_next(s0) {
                    assert(self.remaining()[0] == s0.remaining()[1]);
                }

            }
            let kind = self.peek_kind();
            if kind == TokenKind::LeftParen {
                assert(!atom_next(s0));
                let lparen = self.advance().span;
                let ghost s2 = *self;
                let ghost big_a = args_len(s2.remaining());
                proof {
                    Parser::lemma_progressed_trans(s0, s1, s2);
                    assert(s2.remaining() =~= s1.remaining().skip(1));
                    assert(s2.remaining().skip(0) =~= s2.remaining());
                    assert(s1.stream() =~= seq![punct(TokenKind::LeftParen, lparen)] + s2.stream());
                }
                let mut arguments: Punctuated<Expr, Span> = Punctuated::new();
                proof {
                    assert(arguments_prefix_tokens(arguments, 0) =~= seq![]);
                    assert(s2.stream() =~= arguments_tokens(arguments) + self.stream());
                    self.lemma_progressed_refl();
                }
                loop
                    invariant_except_break
                        s0 == *old(self),
                        !atom_next(s0),
                        hyp == (call_len(s0.remaining()) > 0),
                        big_a == args_len(s2.remaining()),
                        hyp ==> suffix_len(s1.remaining()) >= 0 && big_a > 0,
                        hyp ==> self.errors@ == s0.errors@ && args_len(self.remaining()) > 0 && reading_at(
                            s2.remaining(),
                            self.remaining(),
                            args_len(self.remaining()),
                            big_a,
                        ),
                        s0.progressed(s2),
                        s2.tokens@.len() < s0.tokens@.len(),
                        s2.progressed(*self),
                        s2.stream() == arguments_tokens(arguments) + self.stream(),
                        arguments.last is None,
                    ensures
                        hyp ==> self.errors@ == s0.errors@ && self.remaining().len() >= 1 && self.remaining()[0].kind
                            == TokenKind::RightParen && reading_at(s2.remaining(), self.remaining(), 1, big_a),
                        s0.progressed(s2),
                        s2.tokens@.len() < s0.tokens@.len(),
                        s2.progressed(*self),
                        s2.stream() == arguments_tokens(arguments) + self.stream(),
                    decreases self.tokens@.len(),
                {
                    proof {
                        reveal(expr_len);
                    }
                    if self.peek_kind() == TokenKind::RightParen {
                        break;
                    }
                    let ghost s3 = *self;
                    let Some(argument) = self.expression() else {
                        proof {
                            Parser::lemma_progressed_trans(s2, s3, *self);
                            Parser::lemma_progressed_trans(s0, s2, *self);
                        }
                        return None;
                    };
                    proof {
                        Parser::lemma_progressed_trans(s2, s3, *self);
                        if hyp {
                            let e = expr_len(s3.remaining());
                            let d = s2.remaining().len() - s3.remaining().len();
                            lemma_skip_skip(s2.remaining(), d, e);
                            assert(self.remaining()[0] == s3.remaining()[e]);
                        }
                    }
                    let ghost before = arguments;
                    arguments.push(argument);
                    proof {
                        lemma_prefix_same_values(before, arguments, 0);
                        assert(arguments_prefix_tokens(before, 0) =~= arguments_tokens(before));
                        assert(s2.stream() =~= arguments_tokens(arguments) + self.stream());
                    }
                    let ghost s4 = *self;
                    if let Some(comma) = self.expect_span(TokenKind::Comma) {
                        let ghost pushed = arguments;
                        arguments.push_punct(comma);
                        proof {
                            Parser::lemma_progressed_trans(s2, s4, *self);
                            lemma_prefix_push(pushed, arguments, (argument_of(pushed), comma), 0);
                            lemma_prefix_same_values(before, pushed, 0);
                            assert(s2.stream() =~= arguments_tokens(arguments) + self.stream());
                            if hyp {
                                let e = expr_len(s3.remaining());
                                let d = s2.remaining().len() - s3.remaining().len();
                                lemma_skip_skip(s2.remaining(), d, e + 1);
                                assert(self.remaining() =~= s4.remaining().skip(1));
                                lemma_skip_skip(s3.remaining(), e, 1);
                            }
                        }
                    } else {
                        break;
                    }
                }
                let ghost s5 = *self;
                let Some(rparen) = self.expect_span(TokenKind::RightParen) else {
                    let end = self.peek_span();
                    self.error(ParseError::UnterminatedGroup { start: lparen, end });
                    let ghost s6 = *self;
                    self.synchronize(TokenKind::RightParen);
                    proof {
                        Parser::lemma_progressed_trans(s2, s5, s6);
                        Parser::lemma_progressed_trans(s2, s6, *self);
                        Parser::lemma_progressed_trans(s0, s2, *self);
                    }
                    return None;
                };
                proof {
                    Parser::lemma_progressed_trans(s2, s5, *self);
                    Parser::lemma_progressed_trans(s0, s2, *self);
                    if hyp {
                        let d = s0.remaining().len() - s1.remaining().len();
                        assert(s5.remaining()[0] == s0.remaining()[d + big_a]);
                        lemma_skip_skip(s2.remaining(), big_a - 1, 1);
                        assert(self.remaining() =~= s5.remaining().skip(1));
                        assert(self.remaining() == s2.remaining().skip(big_a));
                        lemma_skip_skip(s1.remaining(), 1, big_a);
                        lemma_skip_skip(s0.remaining(), d, 1 + big_a);
                    }
                }
                let ghost old_expr = expr;
                let ghost args = arguments;
                expr = Expr::Call(CallExpr { target: Box::new(expr), lparen, arguments, rparen });
                proof {
                    assert(s5.stream() =~= seq![punct(TokenKind::RightParen, rparen)] + self.stream());
                    assert(expr_tokens(expr) =~= expr_tokens(old_expr) + seq![
                        punct(TokenKind::LeftParen, lparen),
                    ] + arguments_tokens(args) + seq![punct(TokenKind::RightParen, rparen)]);
                    assert(s0.stream() =~= expr_tokens(expr) + self.stream());
                    if hyp {
                        let d = s0.remaining().len() - self.remaining().len();
                        assert(s0.remaining()[d - 1] == s5.remaining()[0]);
                        assert(call_shape_at(s0.remaining(), d, expr));
                    }
                }
            } else if kind == TokenKind::Dot {
                let dot = self.advance().span;
                let ghost s2 = *self;
                proof {
                    Parser::lemma_progressed_trans(s0, s1, s2);
                }
                let Some(field) = self.expect_identifier() else {
                    let span = self.peek_span();
                    self.error(ParseError::ExpectedIdent(span));
                    proof {
                        Parser::lemma_progressed_trans(s0, s2, *self);
                    }
                    return None;
                };
                proof {
                    Parser::lemma_progressed_trans(s0, s2, *self);
                    if hyp {
                        let d = s0.remaining().len() - s1.remaining().len();
                        assert(s1.remaining()[0] == s0.remaining()[d]);
                        assert(s1.remaining()[1] == s0.remaining()[d + 1]);
                        assert(self.remaining() =~= s1.remaining().skip(2));
                        lemma_skip_skip(s0.remaining(), d, 2);
                    }
                }
                let ghost old_expr = expr;
                expr = Expr::Get(GetExpr { target: Box::new(expr), dot, field });
                proof {
                    assert(s1.stream() =~= seq![punct(TokenKind::Dot, dot)] + s2.stream());
                    assert(s2.stream() =~= seq![ident_token(field)] + self.stream());
                    assert(expr_tokens(expr) =~= expr_tokens(old_expr) + seq![
                        punct(TokenKind::Dot, dot),
                        ident_token(field),
                    ]);
                    assert(s0.stream() =~= expr_tokens(expr) + self.stream());
                    if hyp {
                        let d = s0.remaining().len() - self.remaining().len();
                        assert(call_shape_at(s0.remaining(), d, expr));
                    }
                }
            } else {
                break;
            }
        }
        Some(expr)
    }
    #[verifier::spinoff_prover]
    #[verifier::rlimit(80)]
    fn primary(&mut self) -> (r: Option<Expr>)
        requires
            old(self).wf(),
        ensures
            old(self).progressed(*final(self)),
            r matches Some(e) ==> parsed_from(*old(self), e, *final(self)),
            r is None ==> old(self).failed(*final(self)),
            atom_parsed(*old(self), r, *final(self)),
            simple_parsed(*old(self), r, *final(self), primary_len(old(self).remaining())),
            primary_len(old(self).remaining()) > 0 ==> ((r.unwrap() is Variable) <==> old(self).remaining()[0].kind
                == TokenKind::Identifier) && !(r.unwrap() is Get),
        decreases old(self).tokens@.len(), 42int,
    {
        let ghost s0 = *self;
        proof {
            assert(s0.remaining().drop_first() =~= s0.remaining().skip(1));
        }
        let kind = self.peek_kind();
        if kind == TokenKind::FloatLiteral || kind == TokenKind::StringLiteral || kind
            == TokenKind::True || kind == TokenKind::False || kind == TokenKind::Nil {
            let t = self.advance();
            let r = Expr::Literal(LiteralExpr { literal: literal_of(t) });
            proof {
                assert(s0.stream() =~= expr_tokens(r) + self.stream());
            }
            Some(r)
        } else if kind == TokenKind::LeftParen {
            match self.grouped() {
                Some(g) => {
                    let r = Expr::Grouping(g);
                    Some(r)
                },
                None => None,
            }
        } else if kind == TokenKind::Identifier {
            let t = self.advance();
            let identifier = Identifier { span: t.span, value: t.value };
            let name = self.name(identifier);
            let r = Expr::Variable(VariableExpr { name });
            proof {
                assert(s0.stream() =~= expr_tokens(r) + self.stream());
                assert(self.tokens@ =~= s0.tokens@.subrange(
                    s0.tokens@.len() - self.tokens@.len(),
                    s0.tokens@.len() as int,
                ));
                assert(self.errors@ =~= self.errors@.subrange(0, s0.errors@.len() as int));
            }
            Some(r)
        } else if kind == TokenKind::This {
            let this = self.advance().span;
            let decoration = self.decorator.decorate::<NameDecoration>();
            let r = Expr::This(ThisExpr { decoration, this });
            proof {
                assert(s0.stream() =~= expr_tokens(r) + self.stream());
                assert(self.tokens@ =~= s0.tokens@.subrange(
                    s0.tokens@.len() - self.tokens@.len(),
                    s0.tokens@.len() as int,
                ));
                assert(self.errors@ =~= self.errors@.subrange(0, s0.errors@.len() as int));
            }
            Some(r)
        } else if kind == TokenKind::Super {
            let super_ = self.advance().span;
            let ghost s1 = *self;
            assert(s0.stream() =~= seq![punct(TokenKind::Super, super_)] + s1.stream());
            let Some(dot) = self.expect_span(TokenKind::Dot) else {
                let span = self.peek_span();
                self.error(ParseError::ExpectedDot(span));
                proof {
                    Parser::lemma_progressed_trans(s0, s1, *self);
                }
                return None;
            };
            let ghost s2 = *self;
            let Some(field) = self.expect_identifier() else {
                let span = self.peek_span();
                self.error(ParseError::ExpectedIdent(span));
                proof {
                    Parser::lemma_progressed_trans(s0, s1, s2);
                    Parser::lemma_progressed_trans(s0, s2, *self);
                }
                return None;
            };
            let ghost s3 = *self;
            let decoration = self.decorator.decorate::<NameDecoration>();
            let r = Expr::Super(SuperExpr { decoration, super_, dot, field });
            proof {
                assert(self.remaining() =~= s0.remaining().skip(3));
                assert(s1.stream() =~= seq![punct(TokenKind::Dot, dot)] + s2.stream());
                assert(s2.stream() =~= seq![ident_token(field)] + s3.stream());
                assert(s0.stream() =~= expr_tokens(r) + self.stream());
                assert(self.tokens@ =~= s0.tokens@.subrange(
                    s0.tokens@.len() - self.tokens@.len(),
                    s0.tokens@.len() as int,
                ));
                assert(self.errors@ =~= self.errors@.subrange(0, s0.errors@.len() as int));
            }
            Some(r)
        } else {
            let span = self.peek_span();
            self.error(ParseError::ExpectedExpression(span));
            None
        }
    }
    #[verifier::spinoff_prover]
    #[verifier::rlimit(80)]
    fn grouped(&mut self) -> (r: Option<GroupingExpr>)
        requires
            old(self).wf(),
        ensures
            old(self).progressed(*final(self)),
            r matches Some(g) ==> old(self).stream() == grouping_tokens(g) + final(self).stream()
                && old(self).consumed(*final(self)),
            r is None ==> old(self).failed(*final(self)),
            simple_parsed(*old(self), r, *final(self), grouping_len(old(self).remaining())),
        decreases old(self).tokens@.len(), 41int,
    {
        let ghost s0 = *self;
        let Some(lparen) = self.expect_span(TokenKind::LeftParen) else {
            let span = self.peek_span();
            self.error(ParseError::ExpectedLeftParen(span));
            return None;
        };
        let ghost s1 = *self;
        proof {
            if grouping_len(s0.remaining()) > 0 {
                assert(s1.remaining() =~= s0.remaining().skip(1));
            }
        }
        let Some(inner) = self.expression() else {
            let ghost s2 = *self;
            self.synchronize(TokenKind::RightParen);
            proof {
                Parser::lemma_progressed_trans(s0, s1, s2);
                Parser::lemma_progressed_trans(s0, s2, *self);
            }
            return None;
        };
        let ghost s2 = *self;
        proof {
            Parser::lemma_progressed_trans(s0, s1, s2);
            if grouping_len(s0.remaining()) > 0 {
                let e = expr_len(s1.remaining());
                assert(s1.remaining() =~= s0.remaining().skip(1));
                assert(s2.remaining() =~= s0.remaining().skip(1 + e));
                assert(s2.remaining()[0] == s0.remaining()[1 + e]);
                assert(s2.remaining().drop_first() =~= s0.remaining().skip(2 + e));
            }
        }
        if self.peek_kind() == TokenKind::RightParen {
            let rparen = self.advance().span;
            proof {
                Parser::lemma_progressed_trans(s0, s2, *self);
            }
            let r = GroupingExpr { lparen, inner: Box::new(inner), rparen };
            proof {
                assert(s0.stream() =~= grouping_tokens(r) + self.stream());
            }
            Some(r)
        } else {
            let end = self.peek_span();
            self.error(ParseError::UnterminatedGroup { start: lparen, end });
            let ghost s3 = *self;
            self.synchronize(TokenKind::RightParen);
            proof {
                Parser::lemma_progressed_trans(s0, s2, s3);
                Parser::lemma_progressed_trans(s0, s3, *self);
            }
            None
        }
    }
}

/// The trailing argument of a punctuated sequence that has one.
spec fn argument_of(p: Punctuated<Expr, Span>) -> Expr {
    *p.last.unwrap()
}

} // verus!

verus! {

impl Parser {
    /// Numbering one more node after consuming at least one more token than
    /// nodes numbered keeps the parser's accounting.
    proof fn lemma_decorated(a: Parser, b: Parser, c: Parser)
        requires
            a.wf(),
            a.progressed(b),
            b.tokens@ == c.tokens@,
            b.errors@ == c.errors@,
            c.decorator.wf(),
            c.decorator.total() == b.decorator.total() + 1,
            forall|k: int| 0 <= k < 4 ==> b.decorator.counts()[k] <= #[trigger] c.decorator.counts()[k],
            b.decorator.total() + b.tokens@.len() + 1 <= a.decorator.total() + a.tokens@.len(),
        ensures
            a.progressed(c),
    {
        assert forall|k: int| 0 <= k < 4 implies a.decorator.counts()[k]
            <= #[trigger] c.decorator.counts()[k] by {
            assert(a.decorator.counts()[k] <= b.decorator.counts()[k]);
        }
    }

    /// Numbers a node of kind `T` after a step that consumed more tokens
    /// than it numbered nodes.
    fn decorate<T: DecorationKind>(&mut self, Ghost(start): Ghost<Parser>) -> (r: crate::decoration::Decoration<T>)
        requires
            start.wf(),
            start.progressed(*old(self)),
            old(self).decorator.total() + old(self).tokens@.len() + 1 <= start.decorator.total()
                + start.tokens@.len(),
        ensures
            start.progressed(*final(self)),
            final(self).tokens@ == old(self).tokens@,
            final(self).errors@ == old(self).errors@,
            final(self).decorator.total() == old(self).decorator.total() + 1,
            r.spec_index() == old(self).decorator.counts()[T::spec_decoration_index() as int],
    {
        let r = self.decorator.decorate::<T>();
        proof {
            assert(self.decorator.counts() =~= old(self).decorator.counts().update(
                T::spec_decoration_index() as int,
                (old(self).decorator.counts()[T::spec_decoration_index() as int] + 1) as usize,
            ));
            Parser::lemma_decorated(start, *old(self), *self);
        }
        r
    }

    fn declaration(&mut self) -> (r: Option<Stmt>)
        requires
            old(self).wf(),
        ensures
            old(self).progressed(*final(self)),
            r is Some ==> old(self).consumed(*final(self)),
            r matches Some(s) ==> (old(self).without_for() ==> old(self).stream() == stmt_tokens(s)
                + final(self).stream()),
            r is None ==> failure_explained(*old(self), *final(self)),
            simple_parsed(*old(self), r, *final(self), simple_decl_len(old(self).remaining())),
            old(self).remaining()[0].kind == TokenKind::Class && class_lacks_brace(old(self).remaining()) ==> r is None
                && final(self).parse_errors() == old(self).parse_errors().push(
                ParseError::ExpectedLeftBrace(old(self).remaining()[2].span),
            ) && final(self).remaining() == old(self).remaining().skip(2),
        decreases old(self).tokens@.len(), 80int,
    {
        proof {
            reveal(simple_stmt_len);
            reveal(simple_decl_len);
        }
        let kind = self.peek_kind();
        if kind == TokenKind::Var {
            match self.var_decl_stmt() {
                Some(s) => Some(Stmt::VarDecl(s)),
                None => None,
            }
        } else if kind == TokenKind::Fun {
            match self.fun_decl_stmt() {
                Some(s) => Some(Stmt::FunDecl(s)),
                None => None,
            }
        } else if kind == TokenKind::Class {
            match self.class_decl_stmt() {
                Some(s) => Some(Stmt::ClassDecl(s)),
                None => None,
            }
        } else {
            self.statement()
        }
    }

    #[verifier::spinoff_prover]
    fn var_decl_stmt(&mut self) -> (r: Option<VarDeclStmt>)
        requires
            old(self).wf(),
            old(self).remaining()[0].kind == TokenKind::Var,
        ensures
            old(self).progressed(*final(self)),
            r is Some ==> old(self).consumed(*final(self)),
            r matches Some(s) ==> (old(self).without_for() ==> old(self).stream() == stmt_tokens(Stmt::VarDecl(s))
                + final(self).stream()),
            r is None ==> failure_explained(*old(self), *final(self)),
            simple_parsed(*old(self), r, *final(self), simple_decl_len(old(self).remaining())),
        decreases old(self).tokens@.len(), 70int,
    {
        proof {
            reveal(simple_stmt_len);
            reveal(simple_decl_len);
        }
        let ghost s0 = *self;
        let Some(var) = self.expect_span(TokenKind::Var) else {
            return None;
        };
        let ghost s1 = *self;
        let Some(identifier) = self.expect_identifier() else {
            let span = self.peek_span();
            self.error(ParseError::ExpectedIdent(span));
            proof {
                Parser::lemma_progressed_trans(s0, s1, *self);
            }
            return None;
        };
        let ghost s2 = *self;
        proof {
            Parser::lemma_progressed_trans(s0, s1, s2);
        }
        let assignment = if let Some(equal) = self.expect_span(TokenKind::Equal) {
            let ghost s3 = *self;
            proof {
                Parser::lemma_progressed_trans(s0, s2, s3);
            }
            let Some(expr) = self.expression() else {
                proof {
                    Parser::lemma_progressed_trans(s0, s3, *self);
                }
                return None;
            };
            proof {
                Parser::lemma_progressed_trans(s0, s3, *self);
            }
            Some(Assignment { equal, expr })
        } else {
            None
        };
        let ghost s4 = *self;
        let Some(semi) = self.expect_span(TokenKind::Semicolon) else {
            let stmt = match &assignment {
                Some(a) => Span::across(&var, &a.expr),
                None => Span::across(&var, &identifier),
            };
            let next = self.peek_span();
            self.error(ParseError::UnterminatedStatement { stmt, next });
            proof {
                Parser::lemma_progressed_trans(s0, s4, *self);
            }
            return None;
        };
        proof {
            Parser::lemma_progressed_trans(s0, s4, *self);
        }
        let r = VarDeclStmt { var, identifier, assignment, semi };
        proof {
            assert(s0.stream() =~= stmt_tokens(Stmt::VarDecl(r)) + self.stream());
        }
        Some(r)
    }
    #[verifier::spinoff_prover]
    #[verifier::rlimit(60)]
    fn fun_decl_stmt(&mut self) -> (r: Option<FunDeclStmt>)
        requires
            old(self).wf(),
            old(self).remaining()[0].kind == TokenKind::Fun,
        ensures
            old(self).progressed(*final(self)),
            r is Some ==> old(self).consumed(*final(self)),
            r matches Some(s) ==> (old(self).without_for() ==> old(self).stream() == stmt_tokens(Stmt::FunDecl(s))
                + final(self).stream()),
            r is None ==> failure_explained(*old(self), *final(self)),
            simple_parsed(*old(self), r, *final(self), simple_decl_len(old(self).remaining())),
        decreases old(self).tokens@.len(), 70int,
    {
        proof {
            reveal(simple_stmt_len);
            reveal(simple_decl_len);
        }
        let ghost s0 = *self;
        let Some(fun) = self.expect_span(TokenKind::Fun) else {
            return None;
        };
        let ghost s1 = *self;
        let Some(identifier) = self.expect_identifier() else {
            let span = self.peek_span();
            self.error(ParseError::ExpectedIdent(span));
            proof {
                Parser::lemma_progressed_trans(s0, s1, *self);
            }
            return None;
        };
        let ghost s2 = *self;
        proof {
            Parser::lemma_progressed_trans(s0, s1, s2);
        }
        let function = self.function();
        proof {
            Parser::lemma_progressed_trans(s0, s2, *self);
        }
        match function {
            Some(function) => {
                let r = FunDeclStmt { fun, identifier, function };
                proof {
                    if s0.without_for() {
                        Parser::lemma_without_for(s0, s2);
                        assert(s0.stream() =~= stmt_tokens(Stmt::FunDecl(r)) + self.stream());
                    }
                }
                Some(r)
            },
            None => None,
        }
    }

    #[verifier::spinoff_prover]
    #[verifier::rlimit(100)]
    fn class_decl_stmt(&mut self) -> (r: Option<ClassDeclStmt>)
        requires
            old(self).wf(),
            old(self).remaining()[0].kind == TokenKind::Class,
        ensures
            old(self).progressed(*final(self)),
            r is Some ==> old(self).consumed(*final(self)),
            r matches Some(s) ==> (old(self).without_for() ==> old(self).stream() == stmt_tokens(Stmt::ClassDecl(s))
                + final(self).stream()),
            r is None ==> failure_explained(*old(self), *final(self)),
            class_lacks_brace(old(self).remaining()) ==> r is None && final(self).parse_errors() == old(self).parse_errors().push(
                ParseError::ExpectedLeftBrace(old(self).remaining()[2].span),
            ) && final(self).remaining() == old(self).remaining().skip(2),
            simple_parsed(*old(self), r, *final(self), simple_decl_len(old(self).remaining())),
        decreases old(self).tokens@.len(), 70int,
    {
        let ghost s0 = *self;
        let ghost hyp = simple_decl_len(s0.remaining()) > 0;
        proof {
            lemma_class_len(s0.remaining());
        }
        let Some(class) = self.expect_span(TokenKind::Class) else {
            return None;
        };
        let ghost s1 = *self;
        let Some(identifier) = self.expect_identifier() else {
            let span = self.peek_span();
            self.error(ParseError::ExpectedIdent(span));
            proof {
                Parser::lemma_progressed_trans(s0, s1, *self);
            }
            return None;
        };
        let ghost s2 = *self;
        proof {
            Parser::lemma_progressed_trans(s0, s1, s2);
            Parser::lemma_rest(s0, s2);
            assert(s2.remaining().len() == s0.remaining().len() - 2);
        }
        let mut inheritance: Option<Inheritance> = None;
        if let Some(less) = self.expect_span(TokenKind::Less) {
            let ghost s3 = *self;
            proof {
                Parser::lemma_progressed_trans(s0, s2, s3);
            }
            let Some(superclass) = self.expect_identifier() else {
                let span = self.peek_span();
                self.error(ParseError::ExpectedIdent(span));
                proof {
                    Parser::lemma_progressed_trans(s0, s3, *self);
                }
                return None;
            };
            let ghost s4 = *self;
            proof {
                Parser::lemma_progressed_trans(s0, s3, s4);
            }
            let decoration = self.decorate::<NameDecoration>(Ghost(s0));
            inheritance = Some(Inheritance { less, superclass: Name { decoration, identifier: superclass } });
        } else {
            proof {
                Parser::lemma_progressed_trans(s0, s2, *self);
            }
        }
        let ghost s5 = *self;
        proof {
            Parser::lemma_rest(s0, s5);
        }
        let Some(lbrace) = self.expect_span(TokenKind::LeftBrace) else {
            let span = self.peek_span();
            self.error(ParseError::ExpectedLeftBrace(span));
            proof {
                Parser::lemma_progressed_trans(s0, s5, *self);
                if class_lacks_brace(s0.remaining()) {
                    assert(s5 == s2);
                    assert(span == s0.remaining()[2].span);
                    assert(self.remaining() == s0.remaining().skip(2));
                }
            }
            return None;
        };
        proof {
            Parser::lemma_progressed_trans(s0, s5, *self);
        }
        let ghost s6 = *self;
        proof {
            self.lemma_progressed_refl();
            if class_lacks_brace(s0.remaining()) {
                assert(s5 == s2);
                assert(s5.remaining()[0] == s0.remaining()[2]);
            }
        }
        let Some(methods) = self.class_methods() else {
            proof {
                Parser::lemma_progressed_trans(s0, s6, *self);
            }
            return None;
        };
        proof {
            Parser::lemma_progressed_trans(s0, s6, *self);
            Parser::lemma_rest(s0, s6);
            Parser::lemma_rest(s0, *self);
            if hyp {
                let m = simple_methods_len(s6.remaining());
                lemma_skip_skip(s0.remaining(), s0.remaining().len() - s6.remaining().len(), m);
                assert(self.remaining()[0] == s0.remaining()[s0.remaining().len() - s6.remaining().len() + m]);
            }
        }
        let ghost s9 = *self;
        let Some(rbrace) = self.expect_span(TokenKind::RightBrace) else {
            let end = self.peek_span();
            self.error(ParseError::UnterminatedBlock { start: lbrace, end });
            proof {
                Parser::lemma_progressed_trans(s0, s9, *self);
            }
            return None;
        };
        proof {
            Parser::lemma_progressed_trans(s0, s9, *self);
            Parser::lemma_progressed_trans(s6, s9, *self);
        }
        let ghost s10 = *self;
        let class_decoration = self.decorate::<ClassDecoration>(Ghost(s0));
        let block_decoration = self.decorate::<BlockDecoration>(Ghost(s0));
        let r = ClassDeclStmt {
            class_decoration,
            class,
            identifier,
            inheritance,
            block_decoration,
            lbrace,
            methods,
            rbrace,
        };
        proof {
            assert(s10.stream() == self.stream());
            if s0.without_for() {
                assert(s0.stream() =~= stmt_tokens(Stmt::ClassDecl(r)) + self.stream());
            }
        }
        Some(r)
    }

    /// Parses the methods of a class body, up to its `}`.
    #[verifier::spinoff_prover]
    #[verifier::rlimit(100)]
    fn class_methods(&mut self) -> (r: Option<Vec<Method>>)
        requires
            old(self).wf(),
        ensures
            old(self).progressed(*final(self)),
            r is Some ==> final(self).tokens@[0].kind == TokenKind::RightBrace,
            r matches Some(ms) ==> (old(self).without_for() ==> old(self).stream() == methods_tokens(ms, 0)
                + final(self).stream()),
            r is None ==> failure_explained(*old(self), *final(self)),
            simple_methods_len(old(self).remaining()) >= 0 ==> r is Some && final(self).remaining()
                == old(self).remaining().skip(simple_methods_len(old(self).remaining()))
                && final(self).parse_errors() == old(self).parse_errors(),
        decreases old(self).tokens@.len(), 69int,
    {
        let ghost s6 = *self;
        let ghost hyp = simple_methods_len(s6.remaining()) >= 0;
        proof {
            self.lemma_progressed_refl();
            assert(s6.remaining().skip(0) =~= s6.remaining());
        }
        let mut methods: Vec<Method> = Vec::new();
        proof {
            assert(methods_tokens(methods, 0) =~= Seq::<TokenView>::empty());
            assert(s6.stream() =~= methods_tokens(methods, 0) + self.stream());
        }
        loop
            invariant_except_break
                s6 == *old(self),
                s6.progressed(*self),
                s6.without_for() ==> s6.stream() == methods_tokens(methods, 0) + self.stream(),
                hyp == (simple_methods_len(s6.remaining()) >= 0),
                hyp ==> self.parse_errors() == s6.parse_errors() && simple_methods_len(self.remaining()) >= 0
                    && reading_at(
                    s6.remaining(),
                    self.remaining(),
                    simple_methods_len(self.remaining()),
                    simple_methods_len(s6.remaining()),
                ),
            ensures
                s6.progressed(*self),
                self.tokens@[0].kind == TokenKind::RightBrace,
                s6.without_for() ==> s6.stream() == methods_tokens(methods, 0) + self.stream(),
                hyp ==> self.parse_errors() == s6.parse_errors() && simple_methods_len(self.remaining()) == 0
                    && reading_at(s6.remaining(), self.remaining(), 0, simple_methods_len(s6.remaining())),
            decreases self.tokens@.len(),
        {
            if self.peek_kind() == TokenKind::RightBrace {
                break;
            }
            let ghost s7 = *self;
            let Some(identifier) = self.expect_identifier() else {
                let span = self.peek_span();
                self.error(ParseError::ExpectedIdent(span));
                proof {
                    Parser::lemma_progressed_trans(s6, s7, *self);
                }
                return None;
            };
            let ghost s8 = *self;
            proof {
                Parser::lemma_progressed_trans(s6, s7, s8);
                assert(s8.remaining() =~= s7.remaining().skip(1));
            }
            let function = self.function();
            proof {
                Parser::lemma_progressed_trans(s6, s8, *self);
            }
            let Some(function) = function else {
                return None;
            };
            proof {
                if hyp {
                    let f = simple_function_len(s7.remaining().skip(1));
                    lemma_skip_skip(s7.remaining(), 1, f);
                    lemma_skip_skip(s6.remaining(), s6.remaining().len() - s7.remaining().len(), 1 + f);
                }
            }
            let m = Method { identifier, function };
            let ghost before = methods;
            let ghost gm = m;
            methods.push(m);
            proof {
                lemma_methods_push(before, methods, gm, 0);
                if s6.without_for() {
                    Parser::lemma_without_for(s6, s8);
                    assert(s6.stream() =~= methods_tokens(methods, 0) + self.stream());
                }
            }
        }
        Some(methods)
    }

    #[verifier::spinoff_prover]
    #[verifier::rlimit(40)]
    fn function(&mut self) -> (r: Option<Function>)
        requires
            old(self).wf(),
        ensures
            old(self).progressed(*final(self)),
            r is Some ==> old(self).consumed(*final(self)),
            r matches Some(s) ==> (old(self).without_for() ==> old(self).stream() == function_tokens(s)
                + final(self).stream()),
            r is None ==> failure_explained(*old(self), *final(self)),
            simple_parsed(*old(self), r, *final(self), simple_function_len(old(self).remaining())),
        decreases old(self).tokens@.len(), 69int,
    {
        proof {
            reveal(simple_stmt_len);
            reveal(simple_decl_len);
        }
        let ghost s0 = *self;
        let Some(lparen) = self.expect_span(TokenKind::LeftParen) else {
            let span = self.peek_span();
            self.error(ParseError::ExpectedLeftParen(span));
            return None;
        };
        let ghost s1 = *self;
        let ghost simple = simple_function_len(s0.remaining()) > 0;
        let ghost q = params_len(s0.remaining().skip(1));
        let mut params: Punctuated<Identifier, Span> = Punctuated::new();
        proof {
            self.lemma_progressed_refl();
            assert(s1.remaining() =~= s0.remaining().skip(1));
        }
        loop
            invariant_except_break
                s0 == *old(self),
                s0.progressed(s1),
                s1.tokens@.len() < s0.tokens@.len(),
                s1.progressed(*self),
                params.last is None,
                s0.stream() == seq![punct(TokenKind::LeftParen, lparen)] + s1.stream(),
                s1.stream() == params_prefix_tokens(params, 0) + self.stream(),
                simple == (simple_function_len(s0.remaining()) > 0),
                q == params_len(s0.remaining().skip(1)),
                simple ==> self.errors@ == s0.errors@ && params_len(self.remaining()) > 0 && self.remaining()
                    == s0.remaining().skip(1 + q - params_len(self.remaining())) && 1 + q - params_len(self.remaining()) >= 1,
            ensures
                s0.progressed(s1),
                s1.tokens@.len() < s0.tokens@.len(),
                s1.progressed(*self),
                s0.stream() == seq![punct(TokenKind::LeftParen, lparen)] + s1.stream(),
                s1.stream() == params_tokens(params) + self.stream(),
                simple ==> self.errors@ == s0.errors@ && params_len(self.remaining()) == 1 && self.remaining()
                    == s0.remaining().skip(q),
            decreases self.tokens@.len(),
        {
            proof {
                reveal(simple_stmt_len);
                reveal(simple_decl_len);
            }
            if self.peek_kind() == TokenKind::RightParen {
                proof {
                    assert(params_tokens(params) =~= params_prefix_tokens(params, 0));
                }
                break;
            }
            let ghost s2 = *self;
            let Some(ident) = self.expect_identifier() else {
                let span = self.peek_span();
                self.error(ParseError::ExpectedIdent(span));
                proof {
                    Parser::lemma_progressed_trans(s1, s2, *self);
                    Parser::lemma_progressed_trans(s0, s1, *self);
                }
                return None;
            };
            proof {
                Parser::lemma_progressed_trans(s1, s2, *self);
            }
            let ghost gi = ident;
            let ghost p0 = params;
            params.push(ident);
            proof {
                lemma_params_same_values(p0, params, 0);
            }
            let ghost s3 = *self;
            if let Some(comma) = self.expect_span(TokenKind::Comma) {
                let ghost p1 = params;
                params.push_punct(comma);
                proof {
                    Parser::lemma_progressed_trans(s1, s3, *self);
                    lemma_params_push(p1, params, (gi, comma), 0);
                    assert(s1.stream() =~= params_prefix_tokens(params, 0) + self.stream());
                    if simple {
                        let rr = s2.remaining();
                        assert(rr[1] == s3.remaining()[0]);
                        assert(params_len(rr) == params_len(rr.skip(2)) + 2);
                        assert(self.remaining() =~= rr.skip(2));
                        let d = 1 + q - params_len(rr);
                        assert(s0.remaining().skip(d).skip(2) =~= s0.remaining().skip(d + 2));
                    }
                }
            } else {
                proof {
                    assert(s1.stream() =~= params_tokens(params) + self.stream());
                }
                break;
            }
        }
        proof {
            Parser::lemma_progressed_trans(s0, s1, *self);
        }
        let ghost s4 = *self;
        let Some(rparen) = self.expect_span(TokenKind::RightParen) else {
            let end = self.peek_span();
            self.error(ParseError::UnterminatedGroup { start: lparen, end });
            let ghost s5 = *self;
            self.synchronize(TokenKind::RightParen);
            proof {
                Parser::lemma_progressed_trans(s0, s4, s5);
                Parser::lemma_progressed_trans(s0, s5, *self);
            }
            return None;
        };
        let ghost s6 = *self;
        proof {
            Parser::lemma_progressed_trans(s0, s4, s6);
        }
        let Some(body) = self.block_stmt() else {
            proof {
                Parser::lemma_progressed_trans(s0, s6, *self);
            }
            return None;
        };
        proof {
            Parser::lemma_progressed_trans(s0, s6, *self);
            Parser::lemma_progressed_trans(s1, s4, s6);
        }
        let ghost s7 = *self;
        let decoration = self.decorate::<FunctionDecoration>(Ghost(s0));
        let r = Function { decoration, lparen, params, rparen, body };
        proof {
            assert(s7.stream() == self.stream());
            if s0.without_for() {
                Parser::lemma_without_for(s0, s6);
                assert(s0.stream() =~= function_tokens(r) + self.stream());
            }
        }
        Some(r)
    }

    fn statement(&mut self) -> (r: Option<Stmt>)
        requires
            old(self).wf(),
        ensures
            old(self).progressed(*final(self)),
            r is Some ==> old(self).consumed(*final(self)),
            r matches Some(s) ==> (old(self).without_for() ==> old(self).stream() == stmt_tokens(s)
                + final(self).stream()),
            r is None ==> failure_explained(*old(self), *final(self)),
            simple_parsed(*old(self), r, *final(self), simple_stmt_len(old(self).remaining())),
        decreases old(self).tokens@.len(), 79int,
    {
        proof {
            reveal(simple_stmt_len);
            reveal(simple_decl_len);
        }
        let kind = self.peek_kind();
        if kind == TokenKind::If {
            match self.if_stmt() {
                Some(s) => Some(Stmt::If(s)),
                None => None,
            }
        } else if kind == TokenKind::Print {
            match self.print_stmt() {
                Some(s) => Some(Stmt::Print(s)),
                None => None,
            }
        } else if kind == TokenKind::While {
            match self.while_stmt() {
                Some(s) => Some(Stmt::While(s)),
                None => None,
            }
        } else if kind == TokenKind::For {
            proof {
                assert(self.remaining()[0].kind == TokenKind::For);
            }
            self.for_stmt()
        } else if kind == TokenKind::Return {
            match self.return_stmt() {
                Some(s) => Some(Stmt::Return(s)),
                None => None,
            }
        } else if kind == TokenKind::LeftBrace {
            match self.block_stmt() {
                Some(s) => Some(Stmt::Block(s)),
                None => None,
            }
        } else {
            match self.expr_stmt() {
                Some(s) => Some(Stmt::Expr(s)),
                None => None,
            }
        }
    }

    #[verifier::spinoff_prover]
    #[verifier::rlimit(80)]
    fn if_stmt(&mut self) -> (r: Option<IfStmt>)
        requires
            old(self).wf(),
            old(self).remaining()[0].kind == TokenKind::If,
        ensures
            old(self).progressed(*final(self)),
            r is Some ==> old(self).consumed(*final(self)),
            r matches Some(s) ==> (old(self).without_for() ==> old(self).stream() == stmt_tokens(Stmt::If(s))
                + final(self).stream()),
            r is None ==> failure_explained(*old(self), *final(self)),
            simple_parsed(*old(self), r, *final(self), simple_stmt_len(old(self).remaining())),
        decreases old(self).tokens@.len(), 70int,
    {
        proof {
            reveal(simple_stmt_len);
            reveal(simple_decl_len);
        }
        let ghost s0 = *self;
        let Some(if_) = self.expect_span(TokenKind::If) else {
            return None;
        };
        let ghost s1 = *self;
        let Some(condition) = self.grouped() else {
            proof {
                Parser::lemma_progressed_trans(s0, s1, *self);
            }
            return None;
        };
        let ghost s2 = *self;
        proof {
            Parser::lemma_progressed_trans(s0, s1, s2);
        }
        let Some(then) = self.statement() else {
            proof {
                Parser::lemma_progressed_trans(s0, s2, *self);
            }
            return None;
        };
        let ghost s3 = *self;
        proof {
            Parser::lemma_progressed_trans(s0, s2, s3);
        }
        let mut else_clause: Option<ElseClause> = None;
        if let Some(else_) = self.expect_span(TokenKind::Else) {
            let ghost s4 = *self;
            proof {
                Parser::lemma_progressed_trans(s0, s3, s4);
            }
            let Some(stmt) = self.statement() else {
                proof {
                    Parser::lemma_progressed_trans(s0, s4, *self);
                }
                return None;
            };
            proof {
                Parser::lemma_progressed_trans(s0, s4, *self);
            }
            else_clause = Some(ElseClause { else_, stmt: Box::new(stmt) });
            proof {
                if s0.without_for() {
                    Parser::lemma_without_for(s0, s4);
                }
            }
        }
        let r = IfStmt { if_, condition, stmt: Box::new(then), else_clause };
        proof {
            if s0.without_for() {
                Parser::lemma_without_for(s0, s2);
                assert(s0.stream() =~= stmt_tokens(Stmt::If(r)) + self.stream());
            }
        }
        Some(r)
    }
    #[verifier::spinoff_prover]
    #[verifier::rlimit(60)]
    fn print_stmt(&mut self) -> (r: Option<PrintStmt>)
        requires
            old(self).wf(),
            old(self).remaining()[0].kind == TokenKind::Print,
        ensures
            old(self).progressed(*final(self)),
            r is Some ==> old(self).consumed(*final(self)),
            r matches Some(s) ==> (old(self).without_for() ==> old(self).stream() == stmt_tokens(Stmt::Print(s))
                + final(self).stream()),
            r is None ==> failure_explained(*old(self), *final(self)),
            simple_parsed(*old(self), r, *final(self), simple_stmt_len(old(self).remaining())),
        decreases old(self).tokens@.len(), 70int,
    {
        proof {
            reveal(simple_stmt_len);
            reveal(simple_decl_len);
        }
        let ghost s0 = *self;
        let Some(print) = self.expect_span(TokenKind::Print) else {
            return None;
        };
        let ghost s1 = *self;
        proof {
            Parser::lemma_rest(s0, s1);
        }
        let Some(expr) = self.expression() else {
            proof {
                Parser::lemma_progressed_trans(s0, s1, *self);
            }
            return None;
        };
        let ghost s2 = *self;
        proof {
            Parser::lemma_progressed_trans(s0, s1, s2);
            Parser::lemma_rest(s1, s2);
            Parser::lemma_rest(s0, s2);
        }
        let Some(semi) = self.expect_span(TokenKind::Semicolon) else {
            let stmt = Span::across(&print, &expr);
            let next = self.peek_span();
            self.error(ParseError::UnterminatedStatement { stmt, next });
            proof {
                Parser::lemma_progressed_trans(s0, s2, *self);
            }
            return None;
        };
        proof {
            Parser::lemma_progressed_trans(s0, s2, *self);
        }
        let r = PrintStmt { print, expr, semi };
        proof {
            assert(s0.stream() =~= stmt_tokens(Stmt::Print(r)) + self.stream());
        }
        Some(r)
    }

    #[verifier::spinoff_prover]
    #[verifier::rlimit(40)]
    fn while_stmt(&mut self) -> (r: Option<WhileStmt>)
        requires
            old(self).wf(),
            old(self).remaining()[0].kind == TokenKind::While,
        ensures
            old(self).progressed(*final(self)),
            r is Some ==> old(self).consumed(*final(self)),
            r matches Some(s) ==> (old(self).without_for() ==> old(self).stream() == stmt_tokens(Stmt::While(s))
                + final(self).stream()),
            r is None ==> failure_explained(*old(self), *final(self)),
            simple_parsed(*old(self), r, *final(self), simple_stmt_len(old(self).remaining())),
        decreases old(self).tokens@.len(), 70int,
    {
        proof {
            reveal(simple_stmt_len);
            reveal(simple_decl_len);
        }
        let ghost s0 = *self;
        let Some(while_) = self.expect_span(TokenKind::While) else {
            return None;
        };
        let ghost s1 = *self;
        let Some(lparen) = self.expect_span(TokenKind::LeftParen) else {
            let span = self.peek_span();
            self.error(ParseError::ExpectedLeftParen(span));
            proof {
                Parser::lemma_progressed_trans(s0, s1, *self);
            }
            return None;
        };
        let ghost s2 = *self;
        proof {
            Parser::lemma_progressed_trans(s0, s1, s2);
        }
        let Some(expr) = self.expression() else {
            proof {
                Parser::lemma_progressed_trans(s0, s2, *self);
            }
            return None;
        };
        let ghost s3 = *self;
        proof {
            Parser::lemma_progressed_trans(s0, s2, s3);
        }
        let Some(rparen) = self.expect_span(TokenKind::RightParen) else {
            let end = self.peek_span();
            self.error(ParseError::UnterminatedGroup { start: lparen, end });
            proof {
                Parser::lemma_progressed_trans(s0, s3, *self);
            }
            return None;
        };
        let ghost s4 = *self;
        proof {
            Parser::lemma_progressed_trans(s0, s3, s4);
        }
        let Some(body) = self.statement() else {
            proof {
                Parser::lemma_progressed_trans(s0, s4, *self);
            }
            return None;
        };
        proof {
            Parser::lemma_progressed_trans(s0, s4, *self);
        }
        let r = WhileStmt { while_, lparen, expr, rparen, body: Box::new(body) };
        proof {
            if s0.without_for() {
                Parser::lemma_without_for(s0, s4);
                assert(s0.stream() =~= stmt_tokens(Stmt::While(r)) + self.stream());
            }
        }
        Some(r)
    }

    #[verifier::spinoff_prover]
    #[verifier::rlimit(100)]
    fn for_stmt(&mut self) -> (r: Option<Stmt>)
        requires
            old(self).wf(),
            old(self).remaining()[0].kind == TokenKind::For,
        ensures
            old(self).progressed(*final(self)),
            r is Some ==> old(self).consumed(*final(self)),
            r matches Some(s) ==> ((forall|i: int|
                1 <= i < old(self).remaining().len() ==> (#[trigger] old(self).remaining()[i]).kind != TokenKind::For)
                ==> for_parsed(old(self).stream(), s, final(self).stream())),
            r is None ==> failure_explained(*old(self), *final(self)),
            simple_parsed(*old(self), r, *final(self), simple_stmt_len(old(self).remaining())),
        decreases old(self).tokens@.len(), 70int,
    {
        let ghost s0 = *self;
        let ghost hyp = simple_stmt_len(s0.remaining()) > 0;
        proof {
            lemma_for_len(s0.remaining());
        }
        let Some(for_) = self.expect_span(TokenKind::For) else {
            return None;
        };
        let ghost s1 = *self;
        let Some(lparen) = self.expect_span(TokenKind::LeftParen) else {
            let span = self.peek_span();
            self.error(ParseError::ExpectedLeftParen(span));
            proof {
                Parser::lemma_progressed_trans(s0, s1, *self);
            }
            return None;
        };
        let ghost s2 = *self;
        proof {
            Parser::lemma_progressed_trans(s0, s1, s2);
            Parser::lemma_rest(s0, s2);
        }
        assert(s0.stream() =~= seq![punct(TokenKind::For, for_), punct(TokenKind::LeftParen, lparen)] + s2.stream());
        let ghost tail_free = forall|i: int|
            1 <= i < s0.remaining().len() ==> (#[trigger] s0.remaining()[i]).kind != TokenKind::For;
        proof {
            if tail_free {
                assert forall|i: int| 0 <= i < s2.remaining().len() implies (#[trigger] s2.remaining()[i]).kind
                    != TokenKind::For by {
                    assert(s1.remaining()[i + 1] == s0.remaining()[i + 2]);
                    assert(s2.remaining()[i] == s1.remaining()[i + 1]);
                }
            }
        }
        let Some(clauses) = self.for_clauses(for_, lparen) else {
            proof {
                Parser::lemma_progressed_trans(s0, s2, *self);
            }
            return None;
        };
        let ghost s7 = *self;
        proof {
            Parser::lemma_progressed_trans(s0, s2, s7);
            Parser::lemma_rest(s2, s7);
        }
        let ForClauses { initializer, init_semi, cond, cond_semi, expr, increment, rparen } = clauses;
        let Some(mut body) = self.statement() else {
            proof {
                Parser::lemma_progressed_trans(s0, s7, *self);
            }
            return None;
        };
        proof {
            Parser::lemma_progressed_trans(s0, s7, *self);
            Parser::lemma_progressed_trans(s2, s7, *self);
        }
        let ghost s8 = *self;
        proof {
            if tail_free {
                Parser::lemma_without_for(s2, s7);
            }
            if hyp {
                Parser::lemma_rest(s7, s8);
                lemma_skip_skip(s0.remaining(), 2, s2.remaining().len() - s7.remaining().len());
            }
        }
        assert(tail_free ==> s7.stream() == stmt_tokens(body) + s8.stream());
        let ghost g_init = initializer;
        let ghost g_incr = increment;
        let ghost g_body = body;
        if let Some(increment) = increment {
            let decoration = self.decorate::<BlockDecoration>(Ghost(s0));
            body = Stmt::Block(
                BlockStmt {
                    decoration,
                    lbrace: for_,
                    stmts: vec![body, Stmt::Expr(ExprStmt { expr: increment, semi: for_ })],
                    rbrace: for_,
                },
            );
        }
        let mut stmts: Vec<Stmt> = Vec::new();
        if let Some(initializer) = initializer {
            stmts.push(initializer);
        }
        stmts.push(Stmt::While(WhileStmt { while_: for_, lparen, expr, rparen, body: Box::new(body) }));
        let decoration = self.decorate::<BlockDecoration>(Ghost(s0));
        let r = Stmt::Block(BlockStmt { decoration, lbrace: for_, stmts, rbrace: for_ });
        proof {
            assert(s8.stream() == self.stream());
            assert(desugared_for(r, for_, lparen, rparen, g_init, cond@, g_incr, g_body));
            if tail_free {
                let t6 = seq![punct(TokenKind::RightParen, rparen)] + s7.stream();
                let t5 = optional_expr_tokens(g_incr) + t6;
                let t3 = for_cond_tokens(cond@, cond_semi@) + t5;
                assert(s2.stream() =~= for_init_tokens(g_init, init_semi@) + t3);
                lemma_for_parsed(
                    s0.stream(),
                    s2.stream(),
                    t3,
                    t5,
                    t6,
                    s7.stream(),
                    self.stream(),
                    r,
                    for_,
                    lparen,
                    rparen,
                    g_init,
                    init_semi@,
                    cond@,
                    cond_semi@,
                    g_incr,
                    g_body,
                );
            }
        }
        Some(r)
    }

    /// Parses the clauses of a `for` loop after its `(`, up to and with its
    /// `)`.
    #[verifier::spinoff_prover]
    #[verifier::rlimit(100)]
    fn for_clauses(&mut self, for_: Span, lparen: Span) -> (r: Option<ForClauses>)
        requires
            old(self).wf(),
        ensures
            old(self).progressed(*final(self)),
            r matches Some(c) ==> (old(self).without_for() ==> old(self).stream() == clauses_tokens(c)
                + final(self).stream()),
            r matches Some(c) ==> c.expr == match c.cond@ {
                Some(e) => e,
                None => Expr::Literal(LiteralExpr { literal: Literal::True(for_) }),
            },
            r is None ==> failure_explained(*old(self), *final(self)),
            simple_parsed(*old(self), r, *final(self), for_clauses_len(old(self).remaining())),
        decreases old(self).tokens@.len(), 69int,
    {
        let ghost s2 = *self;
        let ghost ts = s2.remaining();
        let ghost hyp = for_clauses_len(ts) > 0;
        proof {
            lemma_for_clauses_len(ts);
        }
        let kind = self.peek_kind();
        let ghost mut init_semi = for_;
        let initializer = if kind == TokenKind::Semicolon {
            let semi = self.advance();
            proof {
                init_semi = semi.span;
                assert(s2.stream() =~= seq![punct(TokenKind::Semicolon, init_semi)] + self.stream());
                assert(self.remaining() =~= ts.skip(1));
            }
            None
        } else if kind == TokenKind::Var {
            let Some(s) = self.var_decl_stmt() else {
                return None;
            };
            Some(Stmt::VarDecl(s))
        } else {
            let Some(s) = self.expr_stmt() else {
                return None;
            };
            Some(Stmt::Expr(s))
        };
        let ghost s3 = *self;
        let ghost gi = for_init_len(ts);
        proof {
            Parser::lemma_rest(s2, s3);
        }
        assert(s2.without_for() ==> s2.stream() == for_init_tokens(initializer, init_semi) + s3.stream());
        let ghost mut cond_semi = for_;
        let ghost mut cond: Option<Expr> = None;
        let expr = if self.peek_kind() == TokenKind::Semicolon {
            proof {
                self.lemma_progressed_refl();
                if hyp {
                    lemma_no_expr_at(s3.remaining());
                }
            }
            Expr::Literal(LiteralExpr { literal: Literal::True(for_) })
        } else {
            let Some(expr) = self.expression() else {
                proof {
                    Parser::lemma_progressed_trans(s2, s3, *self);
                }
                return None;
            };
            let ghost s4 = *self;
            let Some(semi) = self.expect(TokenKind::Semicolon) else {
                let span = self.peek_span();
                self.error(ParseError::ExpectedSemicolon(span));
                proof {
                    Parser::lemma_progressed_trans(s2, s3, s4);
                    Parser::lemma_progressed_trans(s2, s4, *self);
                }
                return None;
            };
            proof {
                Parser::lemma_progressed_trans(s3, s4, *self);
                cond_semi = semi.span;
                cond = Some(expr);
                assert(s3.stream() =~= expr_tokens(expr) + seq![punct(TokenKind::Semicolon, cond_semi)] + self.stream());
                if hyp {
                    let e = expr_len(s3.remaining());
                    assert(s4.remaining()[0] == s3.remaining()[e]);
                    assert(self.remaining() =~= s4.remaining().skip(1));
                    lemma_skip_skip(s3.remaining(), e, 1);
                }
            }
            expr
        };
        let ghost s5 = *self;
        proof {
            Parser::lemma_progressed_trans(s2, s3, s5);
            Parser::lemma_rest(s3, s5);
            if hyp {
                lemma_skip_skip(ts, gi, for_cond_len(s3.remaining()));
            }
        }
        assert(s3.stream() == for_cond_tokens(cond, cond_semi) + s5.stream()) by {
            if cond is None {
                assert(s3.stream() =~= for_cond_tokens(cond, cond_semi) + s5.stream());
            }
        }
        let increment = if self.peek_kind() == TokenKind::RightParen {
            proof {
                self.lemma_progressed_refl();
            }
            None
        } else {
            let Some(increment) = self.expression() else {
                proof {
                    Parser::lemma_progressed_trans(s2, s5, *self);
                }
                return None;
            };
            Some(increment)
        };
        let ghost s6 = *self;
        proof {
            Parser::lemma_progressed_trans(s2, s5, s6);
            Parser::lemma_rest(s5, s6);
            if hyp && increment is Some {
                let e = expr_len(s5.remaining());
                assert(s6.remaining()[0] == s5.remaining()[e]);
            }
        }
        assert(s5.stream() =~= optional_expr_tokens(increment) + s6.stream());
        let Some(rparen) = self.expect_span(TokenKind::RightParen) else {
            let end = self.peek_span();
            self.error(ParseError::UnterminatedGroup { start: lparen, end });
            proof {
                Parser::lemma_progressed_trans(s2, s6, *self);
            }
            return None;
        };
        proof {
            Parser::lemma_progressed_trans(s2, s6, *self);
            Parser::lemma_rest(s2, *self);
        }
        let r = ForClauses {
            initializer,
            init_semi: Ghost(init_semi),
            cond: Ghost(cond),
            cond_semi: Ghost(cond_semi),
            expr,
            increment,
            rparen,
        };
        proof {
            if s2.without_for() {
                Parser::lemma_without_for(s2, s3);
                Parser::lemma_without_for(s2, s5);
                assert(s2.stream() =~= clauses_tokens(r) + self.stream());
            }
        }
        Some(r)
    }
    #[verifier::spinoff_prover]
    #[verifier::rlimit(60)]
    fn return_stmt(&mut self) -> (r: Option<ReturnStmt>)
        requires
            old(self).wf(),
            old(self).remaining()[0].kind == TokenKind::Return,
        ensures
            old(self).progressed(*final(self)),
            r is Some ==> old(self).consumed(*final(self)),
            r matches Some(s) ==> (old(self).without_for() ==> old(self).stream() == stmt_tokens(Stmt::Return(s))
                + final(self).stream()),
            r is None ==> failure_explained(*old(self), *final(self)),
            simple_parsed(*old(self), r, *final(self), simple_stmt_len(old(self).remaining())),
        decreases old(self).tokens@.len(), 70int,
    {
        proof {
            reveal(simple_stmt_len);
            reveal(simple_decl_len);
        }
        let ghost s0 = *self;
        let Some(return_) = self.expect_span(TokenKind::Return) else {
            return None;
        };
        let ghost s1 = *self;
        proof {
            Parser::lemma_rest(s0, s1);
        }
        let mut expr: Option<Expr> = None;
        if self.peek_kind() != TokenKind::Semicolon {
            let Some(e) = self.expression() else {
                proof {
                    Parser::lemma_progressed_trans(s0, s1, *self);
                }
                return None;
            };
            expr = Some(e);
        } else {
            proof {
                self.lemma_progressed_refl();
            }
        }
        let ghost s2 = *self;
        proof {
            Parser::lemma_progressed_trans(s0, s1, s2);
            Parser::lemma_rest(s0, s1);
            Parser::lemma_rest(s1, s2);
            Parser::lemma_rest(s0, s2);
        }
        let Some(semi) = self.expect_span(TokenKind::Semicolon) else {
            let span = self.peek_span();
            self.error(ParseError::ExpectedSemicolon(span));
            proof {
                Parser::lemma_progressed_trans(s0, s2, *self);
            }
            return None;
        };
        proof {
            Parser::lemma_progressed_trans(s0, s2, *self);
        }
        let r = ReturnStmt { return_, expr, semi };
        proof {
            assert(s0.stream() =~= stmt_tokens(Stmt::Return(r)) + self.stream());
        }
        Some(r)
    }
    #[verifier::spinoff_prover]
    #[verifier::rlimit(60)]
    fn block_stmt(&mut self) -> (r: Option<BlockStmt>)
        requires
            old(self).wf(),
        ensures
            old(self).progressed(*final(self)),
            r is Some ==> old(self).consumed(*final(self)),
            r matches Some(s) ==> (old(self).without_for() ==> old(self).stream() == block_tokens(s)
                + final(self).stream()),
            r is None ==> failure_explained(*old(self), *final(self)) || (old(self).remaining()[0].kind
                != TokenKind::LeftBrace && *final(self) == *old(self)),
            old(self).remaining()[0].kind == TokenKind::LeftBrace ==> simple_parsed(
                *old(self),
                r,
                *final(self),
                simple_stmt_len(old(self).remaining()),
            ),
        decreases old(self).tokens@.len(), 70int,
    {
        proof {
            reveal(simple_stmt_len);
            reveal(simple_decl_len);
        }
        let ghost s0 = *self;
        let Some(lbrace) = self.expect_span(TokenKind::LeftBrace) else {
            return None;
        };
        let ghost s1 = *self;
        let ghost simple = simple_stmt_len(s0.remaining()) > 0;
        let ghost big_k = simple_seq_len(s1.remaining());
        let mut stmts: Vec<Stmt> = Vec::new();
        proof {
            self.lemma_progressed_refl();
            assert(stmts_tokens(stmts, 0) =~= Seq::<TokenView>::empty());
            assert(s1.stream() =~= stmts_tokens(stmts, 0) + self.stream());
            assert(s1.remaining() =~= s0.remaining().skip(1));
            assert(s1.remaining() =~= s1.remaining().skip(0));
        }
        loop
            invariant_except_break
                s0 == *old(self),
                s1.progressed(*self),
                s1.tokens@.len() < s0.tokens@.len(),
                s1.decorator.total() + s1.tokens@.len() + 1 == s0.decorator.total() + s0.tokens@.len(),
                s0.progressed(s1),
                s0.stream() == seq![punct(TokenKind::LeftBrace, lbrace)] + s1.stream(),
                s0.without_for() ==> s1.stream() == stmts_tokens(stmts, 0) + self.stream(),
                simple == (simple_stmt_len(s0.remaining()) > 0),
                big_k == simple_seq_len(s1.remaining()),
                s1.remaining() == s0.remaining().skip(1),
                simple ==> self.errors@ == s0.errors@ && simple_seq_len(self.remaining()) >= 0 && 0 <= big_k
                    - simple_seq_len(self.remaining()) <= s1.remaining().len() && self.remaining() == s1.remaining().skip(
                    big_k - simple_seq_len(self.remaining()),
                ),
            ensures
                s1.progressed(*self),
                self.tokens@[0].kind == TokenKind::RightBrace,
                s0.without_for() ==> s1.stream() == stmts_tokens(stmts, 0) + self.stream(),
                simple ==> self.errors@ == s0.errors@ && simple_seq_len(self.remaining()) >= 0 && 0 <= big_k
                    - simple_seq_len(self.remaining()) <= s1.remaining().len() && self.remaining() == s1.remaining().skip(
                    big_k - simple_seq_len(self.remaining()),
                ),
            decreases self.tokens@.len(),
        {
            proof {
                reveal(simple_stmt_len);
                reveal(simple_decl_len);
            }
            let kind = self.peek_kind();
            if kind == TokenKind::RightBrace {
                break;
            } else if kind == TokenKind::Eof {
                proof {
                    if simple {
                        lemma_no_expr_at(self.remaining());
                        assert(simple_stmt_len(self.remaining()) == 0);
                        assert(simple_decl_len(self.remaining()) == 0);
                        assert(simple_seq_len(self.remaining()) == -1);
                    }
                }
                let end = self.peek_span();
                let ghost s2 = *self;
                self.error(ParseError::UnterminatedBlock { start: lbrace, end });
                proof {
                    Parser::lemma_progressed_trans(s1, s2, *self);
                    Parser::lemma_progressed_trans(s0, s1, *self);
                }
                return None;
            }
            let ghost s3 = *self;
            proof {
                if simple {
                    assert(s3.remaining()[0].kind != TokenKind::RightBrace);
                    let k = simple_decl_len(s3.remaining());
                    assert(simple_seq_len(s3.remaining()) == k + simple_seq_len(s3.remaining().skip(k)));
                    assert(0 < k <= s3.remaining().len());
                }
            }
            let Some(stmt) = self.declaration() else {
                proof {
                    Parser::lemma_progressed_trans(s1, s3, *self);
                    Parser::lemma_progressed_trans(s0, s1, *self);
                }
                return None;
            };
            proof {
                Parser::lemma_progressed_trans(s1, s3, *self);
            }
            proof {
                if simple {
                    let k = simple_decl_len(s3.remaining());
                    let done = big_k - simple_seq_len(s3.remaining());
                    assert(s1.remaining().skip(done).skip(k) =~= s1.remaining().skip(done + k));
                }
            }
            let ghost before = stmts;
            stmts.push(stmt);
            proof {
                lemma_stmts_push(before, stmts, stmt, 0);
                if s0.without_for() {
                    Parser::lemma_progressed_trans(s0, s1, s3);
                    Parser::lemma_without_for(s0, s3);
                    assert(s1.stream() =~= stmts_tokens(stmts, 0) + self.stream());
                }
            }
        }
        let ghost s4 = *self;
        proof {
            Parser::lemma_progressed_trans(s0, s1, s4);
        }
        let Some(rbrace) = self.expect_span(TokenKind::RightBrace) else {
            return None;
        };
        proof {
            Parser::lemma_progressed_trans(s0, s4, *self);
            if simple {
                assert(s1.remaining().skip(big_k).drop_first() =~= s0.remaining().skip(big_k + 2));
            }
        }
        let ghost s5 = *self;
        let decoration = self.decorate::<BlockDecoration>(Ghost(s0));
        let r = BlockStmt { decoration, lbrace, stmts, rbrace };
        proof {
            assert(s5.stream() == self.stream());
            assert(s0.without_for() ==> s0.stream() =~= block_tokens(r) + self.stream());
        }
        Some(r)
    }
    #[verifier::spinoff_prover]
    #[verifier::rlimit(60)]
    fn expr_stmt(&mut self) -> (r: Option<ExprStmt>)
        requires
            old(self).wf(),
        ensures
            old(self).progressed(*final(self)),
            r is Some ==> old(self).consumed(*final(self)),
            r matches Some(s) ==> (old(self).without_for() ==> old(self).stream() == stmt_tokens(Stmt::Expr(s))
                + final(self).stream()),
            r is None ==> failure_explained(*old(self), *final(self)),
            !starts_statement(old(self).remaining()[0].kind) ==> simple_parsed(*old(self), r, *final(self), simple_stmt_len(old(self).remaining())),
        decreases old(self).tokens@.len(), 78int,
    {
        proof {
            reveal(simple_stmt_len);
            reveal(simple_decl_len);
        }
        let ghost s0 = *self;
        let Some(expr) = self.expression() else {
            return None;
        };
        let ghost s1 = *self;
        proof {
            Parser::lemma_rest(s0, s1);
        }
        let Some(semi) = self.expect_span(TokenKind::Semicolon) else {
            let stmt = expr.span();
            let next = self.peek_span();
            self.error(ParseError::UnterminatedStatement { stmt, next });
            proof {
                Parser::lemma_progressed_trans(s0, s1, *self);
            }
            return None;
        };
        proof {
            Parser::lemma_progressed_trans(s0, s1, *self);
        }
        let r = ExprStmt { expr, semi };
        proof {
            assert(s0.stream() =~= stmt_tokens(Stmt::Expr(r)) + self.stream());
        }
        Some(r)
    }

    #[verifier::spinoff_prover]
    #[verifier::rlimit(60)]
    fn program(&mut self) -> (r: Option<Program>)
        requires
            old(self).wf(),
        ensures
            r is Some,
            simple_program(old(self).remaining()) ==> final(self).errors@ == old(self).errors@,
            braceless_class_then_simple(old(self).remaining()) ==> final(self).errors@ == old(self).errors@.push(
                ParseError::ExpectedLeftBrace(old(self).remaining()[2].span),
            ),
            simple_program(old(self).remaining()) ==> r.unwrap().stmts@.len() == simple_count(old(self).remaining()),
            braceless_class_then_simple(old(self).remaining()) ==> r.unwrap().stmts@.len() == simple_count(
                old(self).remaining().skip(3),
            ),
            old(self).errors@.len() <= final(self).errors@.len(),
            final(self).errors@.subrange(0, old(self).errors@.len() as int) == old(self).errors@,
            r matches Some(p) ==> (old(self).without_for() ==> parsed_program(
                old(self).stream(),
                p,
                final(self).stream(),
                final(self).errors@.len() - old(self).errors@.len(),
            )),
    {
        proof {
            reveal(simple_stmt_len);
            reveal(simple_decl_len);
        }
        let mut stmts: Vec<Stmt> = Vec::new();
        let ghost mut gaps: Seq<Seq<TokenView>> = seq![seq![]];
        proof {
            self.lemma_progressed_refl();
            assert(woven(gaps, stmts@) =~= Seq::<TokenView>::empty());
            assert(old(self).stream() =~= woven(gaps, stmts@) + self.stream());
            assert(gaps.drop_last() =~= Seq::<Seq<TokenView>>::empty());
            assert(bare_gaps(gaps.drop_last()) == 0);
            assert(gaps.last().len() == 0);
            assert(bare_gaps(gaps) == 0);
        }
        loop
            invariant
                old(self).progressed(*self),
                gaps.len() == stmts@.len() + 1,
                bare_gaps(gaps) <= self.errors@.len() - old(self).errors@.len(),
                simple_program(old(self).remaining()) ==> simple_program(self.remaining()) && self.errors@
                    == old(self).errors@,
                simple_program(old(self).remaining()) ==> stmts@.len() + simple_count(self.remaining())
                    == simple_count(old(self).remaining()),
                braceless_class_then_simple(old(self).remaining()) ==> (self.tokens@ == old(self).tokens@
                    && self.errors@ == old(self).errors@ && stmts@.len() == 0) || (simple_program(self.remaining())
                    && self.errors@ == old(self).errors@.push(ParseError::ExpectedLeftBrace(old(self).remaining()[2].span))
                    && stmts@.len() + simple_count(self.remaining()) == simple_count(old(self).remaining().skip(3))),
                old(self).without_for() ==> old(self).stream() == woven(gaps, stmts@) + self.stream(),
            decreases self.tokens@.len(), if self.tokens@[0].kind == TokenKind::Eof {
                0int
            } else {
                1
            },
        {
            proof {
                reveal(simple_stmt_len);
                reveal(simple_decl_len);
            }
            let ghost s1 = *self;
            if self.peek_kind() == TokenKind::Eof {
                let eof = self.peek_span();
                let _ = self.tokens.pop_front();
                let r = Program { stmts, eof };
                proof {
                    assert(s1.stream() =~= seq![punct(TokenKind::Eof, eof)] + self.stream());
                    if old(self).without_for() {
                        assert(old(self).stream() =~= woven(gaps, r.stmts@) + seq![punct(TokenKind::Eof, r.eof)]
                            + self.stream());
                        assert(parsed_program(
                            old(self).stream(),
                            r,
                            self.stream(),
                            self.errors@.len() - old(self).errors@.len(),
                        ));
                    }
                }
                return Some(r);
            }
            if let Some(stmt) = self.declaration() {
                proof {
                    Parser::lemma_progressed_trans(*old(self), s1, *self);
                }
                let ghost before = stmts@;
                stmts.push(stmt);
                proof {
                    let g0 = gaps;
                    gaps = gaps.push(seq![]);
                    assert(gaps.drop_last() =~= g0);
                    if old(self).without_for() {
                        Parser::lemma_without_for(*old(self), s1);
                        assert(gaps.drop_last() =~= g0);
                        assert(stmts@.drop_last() =~= before);
                        assert(old(self).stream() =~= woven(gaps, stmts@) + self.stream());
                    }
                }
            } else {
                let ghost s2 = *self;
                self.synchronize(TokenKind::Semicolon);
                proof {
                    Parser::lemma_progressed_trans(s1, s2, *self);
                    Parser::lemma_progressed_trans(*old(self), s1, *self);
                    let d = s1.tokens@.len() - self.tokens@.len();
                    let skipped = s1.stream().subrange(0, d);
                    assert(self.stream() =~= s1.stream().subrange(d, s1.stream().len() as int));
                    assert(s1.stream() =~= skipped + self.stream());
                    let g0 = gaps;
                    gaps = gaps.update(gaps.len() - 1, gaps.last() + skipped);
                    assert(gaps.drop_last() =~= g0.drop_last());
                    if stopped_at_body(s1, s2) {
                        let n = s1.tokens@.len() - s2.tokens@.len();
                        assert(skipped[n - 1] == recorded(s1.tokens@[n - 1]));
                        assert(gaps.last()[g0.last().len() + n - 1] == skipped[n - 1]);
                        assert(has_right_paren(gaps.last()));
                    }
                    if old(self).without_for() {
                        if stmts@.len() > 0 {
                            assert(gaps.drop_last() =~= g0.drop_last());
                        }
                        assert(woven(gaps, stmts@) =~= woven(g0, stmts@) + skipped);
                        assert(old(self).stream() =~= woven(gaps, stmts@) + self.stream());
                    }
                }
            }
        }
    }

    fn repl(&mut self) -> (r: Option<Program>)
        requires
            old(self).wf(),
        ensures
            old(self).progressed(*final(self)),
            r matches Some(p) ==> p.stmts@.len() == 1 && p.eof == Span::spec_new(0, 0),
            r is None && !starts_statement(old(self).remaining()[0].kind) ==> old(self).failed(*final(self)),
            r is None ==> failure_explained(*old(self), *final(self)),
            atom_next(*old(self)) ==> r is Some && final(self).parse_errors() == old(self).parse_errors() && (r.unwrap().stmts@[0] matches Stmt::Print(x) && (x.expr matches Expr::Variable(v) ==> v.name.decoration.spec_index() == old(self).decoration_counts()[0])),
            r matches Some(p) ==> (old(self).without_for() ==> line_parsed(
                old(self).stream(),
                old(self).remaining()[0].kind,
                p.stmts@[0],
                final(self).stream(),
            )),
            simple_line(old(self).remaining()) ==> r is Some && final(self).parse_errors() == old(self).parse_errors(),
    {
        let kind = self.peek_kind();
        let stmt = if kind == TokenKind::Var || kind == TokenKind::Fun || kind == TokenKind::Class
            || kind == TokenKind::If || kind == TokenKind::Print || kind == TokenKind::While || kind
            == TokenKind::For || kind == TokenKind::Return || kind == TokenKind::LeftBrace {
            let Some(stmt) = self.declaration() else {
                return None;
            };
            stmt
        } else {
            let Some(expr) = self.expression() else {
                return None;
            };
            Stmt::Print(PrintStmt { print: Span::null(), expr, semi: Span::null() })
        };
        let r = Program { stmts: vec![stmt], eof: Span::null() };
        proof {
            assert(r.stmts@[0] == stmt);
        }
        Some(r)
    }
}

} // verus!
