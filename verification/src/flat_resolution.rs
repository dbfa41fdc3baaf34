use vstd::prelude::*;

use crate::ast::{Expr, Stmt};
use crate::name_resolution::{this_word, CompileError, LocalDeclaration, Resolution};
use crate::parser::Ast;
use crate::punctuated::Punctuated;
use crate::span::Span;

verus! {

/// A block scope as plain values: the decoration index of its block, the
/// names it declares with their spans, in order, and how each is used.
pub struct FlatScope {
    pub block: usize,
    pub names: Seq<(Seq<u8>, Span)>,
    pub decls: Seq<LocalDeclaration>,
}

/// Name resolution outside any function, as plain values: the globals (name,
/// span of the name that made it known, span of its definition if it is
/// defined), the open block scopes innermost last, the local slots in use,
/// the resolution of each name use and the locals of each block so far, and
/// the errors found.
pub struct Flat {
    pub globals: Seq<(Seq<u8>, Span, Option<Span>)>,
    pub scopes: Seq<FlatScope>,
    pub count: int,
    pub res: Seq<Option<Resolution>>,
    pub blocks: Seq<Option<Seq<LocalDeclaration>>>,
    pub errors: Seq<CompileError>,
}

/// The position of the first name `word` in `names`, or -1.
pub open spec fn first_index(names: Seq<(Seq<u8>, Span)>, word: Seq<u8>) -> int
    decreases names.len(),
{
    if names.len() == 0 {
        -1
    } else if first_index(names.drop_last(), word) >= 0 {
        first_index(names.drop_last(), word)
    } else if names.last().0 == word {
        names.len() - 1
    } else {
        -1
    }
}

/// The innermost of the first `k` scopes that declares `word`, or -1.
pub open spec fn innermost_scope(scopes: Seq<FlatScope>, word: Seq<u8>, k: int) -> int
    decreases k,
{
    if k <= 0 {
        -1
    } else if first_index(scopes[k - 1].names, word) >= 0 {
        k - 1
    } else {
        innermost_scope(scopes, word, k - 1)
    }
}

/// The number of names the first `k` scopes declare.
pub open spec fn names_before(scopes: Seq<FlatScope>, k: int) -> int
    decreases k,
{
    if k <= 0 {
        0
    } else {
        names_before(scopes, k - 1) + scopes[k - 1].names.len()
    }
}

/// What `word` refers to: the local slot of its innermost declaration, or
/// a global.
pub open spec fn flat_lookup(m: Flat, word: Seq<u8>) -> Resolution {
    let j = innermost_scope(m.scopes, word, m.scopes.len() as int);
    if j >= 0 {
        Resolution::Local {
            local_index: (m.count - names_before(m.scopes, m.scopes.len() as int) + names_before(m.scopes, j)
                + first_index(m.scopes[j].names, word)) as usize,
        }
    } else {
        Resolution::Global
    }
}

/// The position of the global named `word`, or -1.
pub open spec fn global_pos(g: Seq<(Seq<u8>, Span, Option<Span>)>, word: Seq<u8>) -> int
    decreases g.len(),
{
    if g.len() == 0 {
        -1
    } else if global_pos(g.drop_last(), word) >= 0 {
        global_pos(g.drop_last(), word)
    } else if g.last().0 == word {
        g.len() - 1
    } else {
        -1
    }
}

/// A use of a global: it becomes known, undefined, unless it is known.
pub open spec fn use_global_flat(g: Seq<(Seq<u8>, Span, Option<Span>)>, word: Seq<u8>, span: Span) -> Seq<(Seq<u8>, Span, Option<Span>)> {
    if global_pos(g, word) >= 0 {
        g
    } else {
        g.push((word, span, None))
    }
}

/// Records the use of `word` (at `span`, `this` when `is_this`) under
/// decoration `d`; a global is remembered as used, and a `this` with
/// nothing to refer to is an error.
pub open spec fn flat_use(m: Flat, d: usize, word: Seq<u8>, span: Span, is_this: bool) -> Flat {
    let r = flat_lookup(m, word);
    let m1 = if r == Resolution::Global {
        if is_this {
            Flat { errors: m.errors.push(CompileError::UndefinedItem { span }), ..m }
        } else {
            Flat { globals: use_global_flat(m.globals, word, span), ..m }
        }
    } else {
        m
    };
    Flat { res: m1.res.update(d as int, Some(r)), ..m1 }
}

/// Declares `word` (at `span`) in the innermost scope, or as a global
/// outside any block; declaring a name again in one scope, or defining a
/// global again, is an error.
pub open spec fn flat_declare(m: Flat, word: Seq<u8>, span: Span) -> Flat {
    if m.scopes.len() > 0 {
        let last = m.scopes.last();
        let i = first_index(last.names, word);
        if i >= 0 {
            Flat {
                errors: m.errors.push(CompileError::ItemRedefined { original: last.names[i].1, redefinition: span }),
                ..m
            }
        } else {
            Flat {
                scopes: m.scopes.update(
                    m.scopes.len() - 1,
                    FlatScope { names: last.names.push((word, span)), decls: last.decls.push(LocalDeclaration::Local), ..last },
                ),
                count: m.count + 1,
                ..m
            }
        }
    } else {
        let i = global_pos(m.globals, word);
        if i >= 0 {
            Flat {
                globals: m.globals.update(i, (m.globals[i].0, m.globals[i].1, Some(span))),
                errors: match m.globals[i].2 {
                    Some(original) => m.errors.push(CompileError::ItemRedefined { original, redefinition: span }),
                    None => m.errors,
                },
                ..m
            }
        } else {
            Flat { globals: m.globals.push((word, span, Some(span))), ..m }
        }
    }
}

pub open spec fn flat_push(m: Flat, block: usize) -> Flat {
    Flat { scopes: m.scopes.push(FlatScope { block, names: seq![], decls: seq![] }), ..m }
}

/// Closes the innermost scope and records its locals under its block.
pub open spec fn flat_pop(m: Flat) -> Flat {
    let last = m.scopes.last();
    Flat {
        scopes: m.scopes.drop_last(),
        count: m.count - last.decls.len(),
        blocks: m.blocks.update(last.block as int, Some(last.decls)),
        ..m
    }
}

/// Resolving the names an expression uses.
pub open spec fn flat_expr(m: Flat, e: Expr) -> Flat
    decreases e, 0int,
{
    match e {
        Expr::Literal(_) => m,
        Expr::Unary(x) => flat_expr(m, *x.inner),
        Expr::Binary(x) => flat_expr(flat_expr(m, *x.left), *x.right),
        Expr::Grouping(x) => flat_expr(m, *x.inner),
        Expr::Variable(x) => flat_use(
            m,
            x.name.decoration.spec_index(),
            x.name.identifier.value@,
            x.name.identifier.span,
            false,
        ),
        Expr::Assign(x) => flat_use(
            flat_expr(m, *x.expr),
            x.name.decoration.spec_index(),
            x.name.identifier.value@,
            x.name.identifier.span,
            false,
        ),
        Expr::Call(x) => flat_args(flat_expr(m, *x.target), x.arguments, 0),
        Expr::Get(x) => flat_expr(m, *x.target),
        Expr::SetField(x) => flat_expr(flat_expr(m, *x.target), *x.expr),
        Expr::This(x) => flat_use(m, x.decoration.spec_index(), this_word(), x.this, true),
        Expr::Super(_) => m,
    }
}

pub open spec fn flat_args(m: Flat, p: Punctuated<Expr, Span>, i: int) -> Flat
    decreases p, p.values@.len() + 1 - i,
{
    if 0 <= i < p.values@.len() {
        flat_args(flat_expr(m, p.values@[i].0), p, i + 1)
    } else if i == p.values@.len() {
        match p.last {
            Some(b) => flat_expr(m, *b),
            None => m,
        }
    } else {
        m
    }
}

/// A statement that declares no function or class, at any depth.
pub open spec fn flat_stmt(s: Stmt) -> bool
    decreases s, 0int,
{
    match s {
        Stmt::FunDecl(_) => false,
        Stmt::ClassDecl(_) => false,
        Stmt::Block(x) => flat_stmts(x.stmts, 0),
        Stmt::If(x) => flat_stmt(*x.stmt) && match x.else_clause {
            Some(c) => flat_stmt(*c.stmt),
            None => true,
        },
        Stmt::While(x) => flat_stmt(*x.body),
        _ => true,
    }
}

pub open spec fn flat_stmts(ss: Vec<Stmt>, i: int) -> bool
    decreases ss, ss@.len() - i,
{
    if 0 <= i < ss@.len() {
        flat_stmt(ss@[i]) && flat_stmts(ss, i + 1)
    } else {
        true
    }
}

/// Resolving the names of a statement outside any function. (The
/// expression a `return` gives is not walked.)
pub open spec fn flat_walk(m: Flat, s: Stmt) -> Flat
    decreases s, 0int,
{
    match s {
        Stmt::VarDecl(x) => flat_declare(
            match x.assignment {
                Some(a) => flat_expr(m, a.expr),
                None => m,
            },
            x.identifier.value@,
            x.identifier.span,
        ),
        Stmt::Expr(x) => flat_expr(m, x.expr),
        Stmt::Print(x) => flat_expr(m, x.expr),
        Stmt::Block(x) => flat_pop(flat_walks(flat_push(m, x.decoration.spec_index()), x.stmts, 0)),
        Stmt::If(x) => {
            let m1 = flat_walk(flat_expr(m, *x.condition.inner), *x.stmt);
            match x.else_clause {
                Some(c) => flat_walk(m1, *c.stmt),
                None => m1,
            }
        },
        Stmt::While(x) => flat_walk(flat_expr(m, x.expr), *x.body),
        _ => m,
    }
}

pub open spec fn flat_walks(m: Flat, ss: Vec<Stmt>, i: int) -> Flat
    decreases ss, ss@.len() - i,
{
    if 0 <= i < ss@.len() {
        flat_walks(flat_walk(m, ss@[i]), ss, i + 1)
    } else {
        m
    }
}

/// One undefined-item error for each global used but never defined, in
/// the order the globals became known.
pub open spec fn pending_errors(g: Seq<(Seq<u8>, Span, Option<Span>)>) -> Seq<CompileError>
    decreases g.len(),
{
    if g.len() == 0 {
        seq![]
    } else {
        pending_errors(g.drop_last()) + if g.last().2 is None {
            seq![CompileError::UndefinedItem { span: g.last().1 }]
        } else {
            seq![]
        }
    }
}

/// The state before the walk: only the built-in `clock` is known, as a
/// global defined at no place in the source.
pub open spec fn flat_start(ast: Ast) -> Flat {
    Flat {
        globals: seq![(seq![99u8, 108u8, 111u8, 99u8, 107u8], Span::spec_new(0, 0), Some(Span::spec_new(0, 0)))],
        scopes: seq![],
        count: 0,
        res: Seq::new(ast.decorator.counts()[0] as nat, |i: int| None),
        blocks: Seq::new(ast.decorator.counts()[1] as nat, |i: int| None),
        errors: seq![],
    }
}

/// The state after walking a program outside any function.
pub open spec fn flat_end(ast: Ast) -> Flat {
    flat_walks(flat_start(ast), ast.program.stmts, 0)
}

/// The errors that resolving a program outside any function gives: those
/// of the walk, then one for each global used but never defined.
pub open spec fn flat_errors(ast: Ast) -> Seq<CompileError> {
    flat_end(ast).errors + pending_errors(flat_end(ast).globals)
}

} // verus!
