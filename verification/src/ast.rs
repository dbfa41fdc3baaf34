use vstd::prelude::*;

use crate::decoration::{
    BlockDecoration, ClassDecoration, Decoration, FunctionDecoration, NameDecoration,
};
use crate::punctuated::Punctuated;
use crate::span::{Span, Spanned};
use crate::token::{TokenKind, TokenView};

verus! {

/// An identifier token: where it is and the name it spells.
pub struct Identifier {
    pub span: Span,
    pub value: Vec<u8>,
}

impl Spanned for Identifier {
    open spec fn spec_span_start(&self) -> usize {
        self.span.spec_start()
    }

    open spec fn spec_span_end(&self) -> usize {
        self.span.spec_end()
    }

    fn span_start(&self) -> (r: usize) {
        self.span.start()
    }

    fn span_end(&self) -> (r: usize) {
        self.span.end()
    }
}

pub enum Literal {
    Float { span: Span, value: Vec<u8> },
    String { span: Span, value: Vec<u8> },
    True(Span),
    False(Span),
    Nil(Span),
}

pub enum UnaryOperator {
    Not(Span),
    Negate(Span),
}

pub enum BinaryOperator {
    And(Span),
    Or(Span),
    Greater(Span),
    GreaterEqual(Span),
    Less(Span),
    LessEqual(Span),
    NotEqual(Span),
    Equal(Span),
    Subtract(Span),
    Add(Span),
    Divide(Span),
    Multiply(Span),
}

pub struct Name {
    pub decoration: Decoration<NameDecoration>,
    pub identifier: Identifier,
}

pub enum Expr {
    Literal(LiteralExpr),
    Unary(UnaryExpr),
    Binary(BinaryExpr),
    Grouping(GroupingExpr),
    Variable(VariableExpr),
    Assign(AssignExpr),
    Call(CallExpr),
    Get(GetExpr),
    SetField(SetExpr),
    This(ThisExpr),
    Super(SuperExpr),
}

pub struct LiteralExpr {
    pub literal: Literal,
}

pub struct UnaryExpr {
    pub operator: UnaryOperator,
    pub inner: Box<Expr>,
}

pub struct BinaryExpr {
    pub left: Box<Expr>,
    pub operator: BinaryOperator,
    pub right: Box<Expr>,
}

pub struct GroupingExpr {
    pub lparen: Span,
    pub inner: Box<Expr>,
    pub rparen: Span,
}

pub struct VariableExpr {
    pub name: Name,
}

pub struct AssignExpr {
    pub name: Name,
    pub equal: Span,
    pub expr: Box<Expr>,
}

pub struct CallExpr {
    pub target: Box<Expr>,
    pub lparen: Span,
    pub arguments: Punctuated<Expr, Span>,
    pub rparen: Span,
}

pub struct GetExpr {
    pub target: Box<Expr>,
    pub dot: Span,
    pub field: Identifier,
}

pub struct SetExpr {
    pub target: Box<Expr>,
    pub dot: Span,
    pub field: Identifier,
    pub equal: Span,
    pub expr: Box<Expr>,
}

pub struct ThisExpr {
    pub decoration: Decoration<NameDecoration>,
    pub this: Span,
}

pub struct SuperExpr {
    pub decoration: Decoration<NameDecoration>,
    pub super_: Span,
    pub dot: Span,
    pub field: Identifier,
}

pub enum Stmt {
    VarDecl(VarDeclStmt),
    FunDecl(FunDeclStmt),
    ClassDecl(ClassDeclStmt),
    Expr(ExprStmt),
    Print(PrintStmt),
    Block(BlockStmt),
    If(IfStmt),
    While(WhileStmt),
    Return(ReturnStmt),
}

pub struct VarDeclStmt {
    pub var: Span,
    pub identifier: Identifier,
    pub assignment: Option<Assignment>,
    pub semi: Span,
}

pub struct Assignment {
    pub equal: Span,
    pub expr: Expr,
}

pub struct FunDeclStmt {
    pub fun: Span,
    pub identifier: Identifier,
    pub function: Function,
}

pub struct ClassDeclStmt {
    pub class_decoration: Decoration<ClassDecoration>,
    pub class: Span,
    pub identifier: Identifier,
    pub inheritance: Option<Inheritance>,
    pub block_decoration: Decoration<BlockDecoration>,
    pub lbrace: Span,
    pub methods: Vec<Method>,
    pub rbrace: Span,
}

pub struct Method {
    pub identifier: Identifier,
    pub function: Function,
}

pub struct Inheritance {
    pub less: Span,
    pub superclass: Name,
}

pub struct Function {
    pub decoration: Decoration<FunctionDecoration>,
    pub lparen: Span,
    pub params: Punctuated<Identifier, Span>,
    pub rparen: Span,
    pub body: BlockStmt,
}

pub struct ExprStmt {
    pub expr: Expr,
    pub semi: Span,
}

pub struct PrintStmt {
    pub print: Span,
    pub expr: Expr,
    pub semi: Span,
}

pub struct BlockStmt {
    pub decoration: Decoration<BlockDecoration>,
    pub lbrace: Span,
    pub stmts: Vec<Stmt>,
    pub rbrace: Span,
}

pub struct IfStmt {
    pub if_: Span,
    pub condition: GroupingExpr,
    pub stmt: Box<Stmt>,
    pub else_clause: Option<ElseClause>,
}

pub struct ElseClause {
    pub else_: Span,
    pub stmt: Box<Stmt>,
}

pub struct WhileStmt {
    pub while_: Span,
    pub lparen: Span,
    pub expr: Expr,
    pub rparen: Span,
    pub body: Box<Stmt>,
}

pub struct ReturnStmt {
    pub return_: Span,
    pub expr: Option<Expr>,
    pub semi: Span,
}

pub struct Program {
    pub stmts: Vec<Stmt>,
    pub eof: Span,
}

/// A token without a value, as it stood in the token stream.
pub open spec fn punct(kind: TokenKind, span: Span) -> TokenView {
    (kind, span, Seq::empty())
}

pub open spec fn ident_token(i: Identifier) -> TokenView {
    (TokenKind::Identifier, i.span, i.value@)
}

pub open spec fn literal_token(l: Literal) -> TokenView {
    match l {
        Literal::Float { span, value } => (TokenKind::FloatLiteral, span, value@),
        Literal::String { span, value } => (TokenKind::StringLiteral, span, value@),
        Literal::True(span) => punct(TokenKind::True, span),
        Literal::False(span) => punct(TokenKind::False, span),
        Literal::Nil(span) => punct(TokenKind::Nil, span),
    }
}

pub open spec fn unary_token(op: UnaryOperator) -> TokenView {
    match op {
        UnaryOperator::Not(span) => punct(TokenKind::Bang, span),
        UnaryOperator::Negate(span) => punct(TokenKind::Minus, span),
    }
}

pub open spec fn binary_token(op: BinaryOperator) -> TokenView {
    match op {
        BinaryOperator::And(span) => punct(TokenKind::And, span),
        BinaryOperator::Or(span) => punct(TokenKind::Or, span),
        BinaryOperator::Greater(span) => punct(TokenKind::Greater, span),
        BinaryOperator::GreaterEqual(span) => punct(TokenKind::GreaterEqual, span),
        BinaryOperator::Less(span) => punct(TokenKind::Less, span),
        BinaryOperator::LessEqual(span) => punct(TokenKind::LessEqual, span),
        BinaryOperator::NotEqual(span) => punct(TokenKind::BangEqual, span),
        BinaryOperator::Equal(span) => punct(TokenKind::EqualEqual, span),
        BinaryOperator::Subtract(span) => punct(TokenKind::Minus, span),
        BinaryOperator::Add(span) => punct(TokenKind::Plus, span),
        BinaryOperator::Divide(span) => punct(TokenKind::Slash, span),
        BinaryOperator::Multiply(span) => punct(TokenKind::Star, span),
    }
}

/// `!` is the token of a negation and `-` the token of an arithmetic
/// negation; a unary expression's tokens are its operator token, then those
/// of its operand.
pub proof fn lemma_unary_token_kind(x: UnaryExpr)
    ensures
        expr_tokens(Expr::Unary(x)) == seq![unary_token(x.operator)] + expr_tokens(*x.inner),
        (x.operator is Not) == (unary_token(x.operator).0 == TokenKind::Bang),
        (x.operator is Negate) == (unary_token(x.operator).0 == TokenKind::Minus),
{
}

/// Each binary operator stands for a token of its own kind: `and`, `or`,
/// `>`, `>=`, `<`, `<=`, `!=`, `==`, `-`, `+`, `/` and `*`, in the order of
/// the variants; so a binary expression's tokens hold, between those of its
/// operands, the operator token it was read from.
pub proof fn lemma_binary_token_kind(x: BinaryExpr)
    ensures
        expr_tokens(Expr::Binary(x)) == expr_tokens(*x.left) + seq![binary_token(x.operator)] + expr_tokens(*x.right),
        (x.operator is And) == (binary_token(x.operator).0 == TokenKind::And),
        (x.operator is Or) == (binary_token(x.operator).0 == TokenKind::Or),
        (x.operator is Greater) == (binary_token(x.operator).0 == TokenKind::Greater),
        (x.operator is GreaterEqual) == (binary_token(x.operator).0 == TokenKind::GreaterEqual),
        (x.operator is Less) == (binary_token(x.operator).0 == TokenKind::Less),
        (x.operator is LessEqual) == (binary_token(x.operator).0 == TokenKind::LessEqual),
        (x.operator is NotEqual) == (binary_token(x.operator).0 == TokenKind::BangEqual),
        (x.operator is Equal) == (binary_token(x.operator).0 == TokenKind::EqualEqual),
        (x.operator is Subtract) == (binary_token(x.operator).0 == TokenKind::Minus),
        (x.operator is Add) == (binary_token(x.operator).0 == TokenKind::Plus),
        (x.operator is Divide) == (binary_token(x.operator).0 == TokenKind::Slash),
        (x.operator is Multiply) == (binary_token(x.operator).0 == TokenKind::Star),
{
}

/// The tokens that an expression was parsed from, in order.
pub open spec fn expr_tokens(e: Expr) -> Seq<TokenView>
    decreases e, 0int,
{
    match e {
        Expr::Literal(x) => seq![literal_token(x.literal)],
        Expr::Unary(x) => seq![unary_token(x.operator)] + expr_tokens(*x.inner),
        Expr::Binary(x) => expr_tokens(*x.left) + seq![binary_token(x.operator)] + expr_tokens(
            *x.right,
        ),
        Expr::Grouping(x) => grouping_tokens(x),
        Expr::Variable(x) => seq![ident_token(x.name.identifier)],
        Expr::Assign(x) => seq![ident_token(x.name.identifier), punct(TokenKind::Equal, x.equal)]
            + expr_tokens(*x.expr),
        Expr::Call(x) => expr_tokens(*x.target) + seq![punct(TokenKind::LeftParen, x.lparen)]
            + arguments_tokens(x.arguments) + seq![punct(TokenKind::RightParen, x.rparen)],
        Expr::Get(x) => expr_tokens(*x.target) + seq![punct(TokenKind::Dot, x.dot), ident_token(x.field)],
        Expr::SetField(x) => expr_tokens(*x.target) + seq![
            punct(TokenKind::Dot, x.dot),
            ident_token(x.field),
            punct(TokenKind::Equal, x.equal),
        ] + expr_tokens(*x.expr),
        Expr::This(x) => seq![punct(TokenKind::This, x.this)],
        Expr::Super(x) => seq![
            punct(TokenKind::Super, x.super_),
            punct(TokenKind::Dot, x.dot),
            ident_token(x.field),
        ],
    }
}

pub open spec fn grouping_tokens(g: GroupingExpr) -> Seq<TokenView>
    decreases g, 0int,
{
    seq![punct(TokenKind::LeftParen, g.lparen)] + expr_tokens(*g.inner) + seq![
        punct(TokenKind::RightParen, g.rparen),
    ]
}

/// The tokens of call arguments: each argument followed by its comma, then
/// the trailing argument.
pub open spec fn arguments_tokens(p: Punctuated<Expr, Span>) -> Seq<TokenView>
    decreases p, p.values@.len() + 1,
{
    arguments_prefix_tokens(p, 0) + match p.last {
        Some(b) => expr_tokens(*b),
        None => seq![],
    }
}

pub open spec fn arguments_prefix_tokens(p: Punctuated<Expr, Span>, i: int) -> Seq<TokenView>
    decreases p, p.values@.len() - i,
{
    if 0 <= i < p.values@.len() {
        expr_tokens(p.values@[i].0) + seq![punct(TokenKind::Comma, p.values@[i].1)]
            + arguments_prefix_tokens(p, i + 1)
    } else {
        seq![]
    }
}

/// The tokens that a statement was parsed from, in order.
pub open spec fn stmt_tokens(s: Stmt) -> Seq<TokenView>
    decreases s, 0int,
{
    match s {
        Stmt::VarDecl(x) => seq![punct(TokenKind::Var, x.var), ident_token(x.identifier)] + match x.assignment {
            Some(a) => seq![punct(TokenKind::Equal, a.equal)] + expr_tokens(a.expr),
            None => seq![],
        } + seq![punct(TokenKind::Semicolon, x.semi)],
        Stmt::FunDecl(x) => seq![punct(TokenKind::Fun, x.fun), ident_token(x.identifier)] + function_tokens(
            x.function,
        ),
        Stmt::ClassDecl(x) => seq![punct(TokenKind::Class, x.class), ident_token(x.identifier)] + match x.inheritance {
            Some(i) => seq![punct(TokenKind::Less, i.less), ident_token(i.superclass.identifier)],
            None => seq![],
        } + seq![punct(TokenKind::LeftBrace, x.lbrace)] + methods_tokens(x.methods, 0) + seq![
            punct(TokenKind::RightBrace, x.rbrace),
        ],
        Stmt::Expr(x) => expr_tokens(x.expr) + seq![punct(TokenKind::Semicolon, x.semi)],
        Stmt::Print(x) => seq![punct(TokenKind::Print, x.print)] + expr_tokens(x.expr) + seq![
            punct(TokenKind::Semicolon, x.semi),
        ],
        Stmt::Block(x) => block_tokens(x),
        Stmt::If(x) => seq![punct(TokenKind::If, x.if_)] + grouping_tokens(x.condition) + stmt_tokens(*x.stmt)
            + match x.else_clause {
            Some(c) => seq![punct(TokenKind::Else, c.else_)] + stmt_tokens(*c.stmt),
            None => seq![],
        },
        Stmt::While(x) => seq![punct(TokenKind::While, x.while_), punct(TokenKind::LeftParen, x.lparen)]
            + expr_tokens(x.expr) + seq![punct(TokenKind::RightParen, x.rparen)] + stmt_tokens(*x.body),
        Stmt::Return(x) => seq![punct(TokenKind::Return, x.return_)] + match x.expr {
            Some(e) => expr_tokens(e),
            None => seq![],
        } + seq![punct(TokenKind::Semicolon, x.semi)],
    }
}

pub open spec fn block_tokens(b: BlockStmt) -> Seq<TokenView>
    decreases b, 0int,
{
    seq![punct(TokenKind::LeftBrace, b.lbrace)] + stmts_tokens(b.stmts, 0) + seq![
        punct(TokenKind::RightBrace, b.rbrace),
    ]
}

/// The tokens of a function after its name: parameters in parentheses,
/// then the body.
pub open spec fn function_tokens(f: Function) -> Seq<TokenView>
    decreases f, 0int,
{
    seq![punct(TokenKind::LeftParen, f.lparen)] + params_tokens(f.params) + seq![
        punct(TokenKind::RightParen, f.rparen),
    ] + block_tokens(f.body)
}

/// The tokens of the statements from the `i`-th on.
pub open spec fn stmts_tokens(ss: Vec<Stmt>, i: int) -> Seq<TokenView>
    decreases ss, ss@.len() - i,
{
    if 0 <= i < ss@.len() {
        stmt_tokens(ss@[i]) + stmts_tokens(ss, i + 1)
    } else {
        seq![]
    }
}

/// The tokens of the methods from the `i`-th on: each name, then its
/// function.
pub open spec fn methods_tokens(ms: Vec<Method>, i: int) -> Seq<TokenView>
    decreases ms, ms@.len() - i,
{
    if 0 <= i < ms@.len() {
        seq![ident_token(ms@[i].identifier)] + function_tokens(ms@[i].function) + methods_tokens(ms, i + 1)
    } else {
        seq![]
    }
}

/// The tokens of a parameter list: each parameter followed by its comma,
/// then the last parameter.
pub open spec fn params_tokens(p: Punctuated<Identifier, Span>) -> Seq<TokenView> {
    params_prefix_tokens(p, 0) + match p.last {
        Some(b) => seq![ident_token(*b)],
        None => seq![],
    }
}

pub open spec fn params_prefix_tokens(p: Punctuated<Identifier, Span>, i: int) -> Seq<TokenView>
    decreases p.values@.len() - i,
{
    if 0 <= i < p.values@.len() {
        seq![ident_token(p.values@[i].0), punct(TokenKind::Comma, p.values@[i].1)] + params_prefix_tokens(p, i + 1)
    } else {
        seq![]
    }
}

} // verus!

verus! {

pub open spec fn literal_span(l: Literal) -> Span {
    literal_token(l).1
}

pub open spec fn expr_span_start(e: Expr) -> usize
    decreases e,
{
    match e {
        Expr::Literal(x) => literal_span(x.literal).spec_start(),
        Expr::Unary(x) => unary_token(x.operator).1.spec_start(),
        Expr::Binary(x) => expr_span_start(*x.left),
        Expr::Grouping(x) => x.lparen.spec_start(),
        Expr::Variable(x) => x.name.identifier.span.spec_start(),
        Expr::Assign(x) => x.name.identifier.span.spec_start(),
        Expr::Call(x) => expr_span_start(*x.target),
        Expr::Get(x) => expr_span_start(*x.target),
        Expr::SetField(x) => expr_span_start(*x.target),
        Expr::This(x) => x.this.spec_start(),
        Expr::Super(x) => x.super_.spec_start(),
    }
}

pub open spec fn expr_span_end(e: Expr) -> usize
    decreases e,
{
    match e {
        Expr::Literal(x) => literal_span(x.literal).spec_end(),
        Expr::Unary(x) => expr_span_end(*x.inner),
        Expr::Binary(x) => expr_span_end(*x.right),
        Expr::Grouping(x) => x.rparen.spec_end(),
        Expr::Variable(x) => x.name.identifier.span.spec_end(),
        Expr::Assign(x) => expr_span_end(*x.expr),
        Expr::Call(x) => x.rparen.spec_end(),
        Expr::Get(x) => x.field.span.spec_end(),
        Expr::SetField(x) => expr_span_end(*x.expr),
        Expr::This(x) => x.this.spec_end(),
        Expr::Super(x) => x.field.span.spec_end(),
    }
}

impl Literal {
    pub fn span(&self) -> (r: Span)
        ensures
            r == literal_span(*self),
    {
        match self {
            Literal::Float { span, .. } => *span,
            Literal::String { span, .. } => *span,
            Literal::True(span) => *span,
            Literal::False(span) => *span,
            Literal::Nil(span) => *span,
        }
    }
}

impl UnaryOperator {
    pub fn span(&self) -> (r: Span)
        ensures
            r == unary_token(*self).1,
    {
        match self {
            UnaryOperator::Not(span) => *span,
            UnaryOperator::Negate(span) => *span,
        }
    }
}

impl Expr {
    fn start(&self) -> (r: usize)
        ensures
            r == expr_span_start(*self),
        decreases self,
    {
        match self {
            Expr::Literal(x) => x.literal.span().start(),
            Expr::Unary(x) => x.operator.span().start(),
            Expr::Binary(x) => x.left.start(),
            Expr::Grouping(x) => x.lparen.start(),
            Expr::Variable(x) => x.name.identifier.span.start(),
            Expr::Assign(x) => x.name.identifier.span.start(),
            Expr::Call(x) => x.target.start(),
            Expr::Get(x) => x.target.start(),
            Expr::SetField(x) => x.target.start(),
            Expr::This(x) => x.this.start(),
            Expr::Super(x) => x.super_.start(),
        }
    }

    fn end(&self) -> (r: usize)
        ensures
            r == expr_span_end(*self),
        decreases self,
    {
        match self {
            Expr::Literal(x) => x.literal.span().end(),
            Expr::Unary(x) => x.inner.end(),
            Expr::Binary(x) => x.right.end(),
            Expr::Grouping(x) => x.rparen.end(),
            Expr::Variable(x) => x.name.identifier.span.end(),
            Expr::Assign(x) => x.expr.end(),
            Expr::Call(x) => x.rparen.end(),
            Expr::Get(x) => x.field.span.end(),
            Expr::SetField(x) => x.expr.end(),
            Expr::This(x) => x.this.end(),
            Expr::Super(x) => x.field.span.end(),
        }
    }
}

impl Spanned for Expr {
    open spec fn spec_span_start(&self) -> usize {
        expr_span_start(*self)
    }

    open spec fn spec_span_end(&self) -> usize {
        expr_span_end(*self)
    }

    fn span_start(&self) -> (r: usize) {
        self.start()
    }

    fn span_end(&self) -> (r: usize) {
        self.end()
    }
}

} // verus!
