use vstd::prelude::*;

use crate::ast::{Expr, Function, Method, Stmt};
use crate::name_pass::{
    args_decs, expr_decs, function_decs, function_weight, methods_decs, methods_weight, no_dups,
    program_decs, resolvable, stmt_decs, stmt_weight, stmts_decs, stmts_weight,
};
use crate::parser::Ast;
use crate::punctuated::Punctuated;
use crate::span::Span;

verus! {

/// Decoration pairs as the specifications write them.
pub open spec fn decs_view(v: Seq<(usize, usize)>) -> Seq<(int, usize)> {
    v.map_values(|p: (usize, usize)| (p.0 as int, p.1))
}

fn push_dec(out: &mut Vec<(usize, usize)>, kind: usize, index: usize)
    ensures
        decs_view(final(out)@) == decs_view(old(out)@).push((kind as int, index)),
{
    out.push((kind, index));
    proof {
        assert(decs_view(out@) =~= decs_view(old(out)@).push((kind as int, index)));
    }
}

/// Appends the decorations that name resolution fills for `e`.
fn walk_expr(e: &Expr, out: &mut Vec<(usize, usize)>)
    ensures
        decs_view(final(out)@) == decs_view(old(out)@) + expr_decs(*e),
    decreases e,
{
    let ghost start = decs_view(out@);
    match e {
        Expr::Literal(_) | Expr::Super(_) => {
            assert(decs_view(out@) =~= start + expr_decs(*e));
        },
        Expr::Unary(x) => walk_expr(&x.inner, out),
        Expr::Binary(x) => {
            walk_expr(&x.left, out);
            walk_expr(&x.right, out);
            assert(decs_view(out@) =~= start + expr_decs(*e));
        },
        Expr::Grouping(x) => walk_expr(&x.inner, out),
        Expr::Variable(x) => {
            push_dec(out, 0, x.name.decoration.index());
            assert(decs_view(out@) =~= start + expr_decs(*e));
        },
        Expr::Assign(x) => {
            walk_expr(&x.expr, out);
            push_dec(out, 0, x.name.decoration.index());
            assert(decs_view(out@) =~= start + expr_decs(*e));
        },
        Expr::Call(x) => {
            walk_expr(&x.target, out);
            walk_args(&x.arguments, out);
            assert(decs_view(out@) =~= start + expr_decs(*e));
        },
        Expr::Get(x) => walk_expr(&x.target, out),
        Expr::SetField(x) => {
            walk_expr(&x.target, out);
            walk_expr(&x.expr, out);
            assert(decs_view(out@) =~= start + expr_decs(*e));
        },
        Expr::This(x) => {
            push_dec(out, 0, x.decoration.index());
            assert(decs_view(out@) =~= start + expr_decs(*e));
        },
    }
}

fn walk_args(p: &Punctuated<Expr, Span>, out: &mut Vec<(usize, usize)>)
    ensures
        decs_view(final(out)@) == decs_view(old(out)@) + args_decs(*p, 0),
    decreases p,
{
    let mut i: usize = 0;
    while i < p.values.len()
        invariant
            i <= p.values@.len(),
            decs_view(old(out)@) + args_decs(*p, 0) == decs_view(out@) + args_decs(*p, i as int),
        decreases p.values@.len() - i,
    {
        let ghost before = decs_view(out@);
        walk_expr(&p.values[i].0, out);
        proof {
            assert(before + args_decs(*p, i as int) =~= decs_view(out@) + args_decs(*p, i + 1));
        }
        i += 1;
    }
    let ghost before = decs_view(out@);
    match &p.last {
        Some(last) => walk_expr(last, out),
        None => {},
    }
    proof {
        assert(before + args_decs(*p, i as int) =~= decs_view(out@));
    }
}

fn walk_function(f: &Function, out: &mut Vec<(usize, usize)>)
    ensures
        decs_view(final(out)@) == decs_view(old(out)@) + function_decs(*f),
    decreases f,
{
    let ghost start = decs_view(out@);
    walk_stmts(&f.body.stmts, out);
    push_dec(out, 1, f.body.decoration.index());
    push_dec(out, 2, f.decoration.index());
    assert(decs_view(out@) =~= start + function_decs(*f));
}

fn walk_stmts(ss: &Vec<Stmt>, out: &mut Vec<(usize, usize)>)
    ensures
        decs_view(final(out)@) == decs_view(old(out)@) + stmts_decs(*ss, 0),
    decreases ss,
{
    let mut i: usize = 0;
    while i < ss.len()
        invariant
            i <= ss@.len(),
            decs_view(old(out)@) + stmts_decs(*ss, 0) == decs_view(out@) + stmts_decs(*ss, i as int),
        decreases ss@.len() - i,
    {
        let ghost before = decs_view(out@);
        walk_stmt(&ss[i], out);
        proof {
            assert(before + stmts_decs(*ss, i as int) =~= decs_view(out@) + stmts_decs(*ss, i + 1));
        }
        i += 1;
    }
    proof {
        assert(decs_view(out@) + stmts_decs(*ss, i as int) =~= decs_view(out@));
    }
}

fn walk_methods(ms: &Vec<Method>, out: &mut Vec<(usize, usize)>)
    ensures
        decs_view(final(out)@) == decs_view(old(out)@) + methods_decs(*ms, 0),
    decreases ms,
{
    let mut i: usize = 0;
    while i < ms.len()
        invariant
            i <= ms@.len(),
            decs_view(old(out)@) + methods_decs(*ms, 0) == decs_view(out@) + methods_decs(*ms, i as int),
        decreases ms@.len() - i,
    {
        let ghost before = decs_view(out@);
        walk_function(&ms[i].function, out);
        proof {
            assert(before + methods_decs(*ms, i as int) =~= decs_view(out@) + methods_decs(*ms, i + 1));
        }
        i += 1;
    }
    proof {
        assert(decs_view(out@) + methods_decs(*ms, i as int) =~= decs_view(out@));
    }
}

fn walk_stmt(s: &Stmt, out: &mut Vec<(usize, usize)>)
    ensures
        decs_view(final(out)@) == decs_view(old(out)@) + stmt_decs(*s),
    decreases s,
{
    let ghost start = decs_view(out@);
    match s {
        Stmt::VarDecl(x) => {
            match &x.assignment {
                Some(a) => walk_expr(&a.expr, out),
                None => {},
            }
            assert(decs_view(out@) =~= start + stmt_decs(*s));
        },
        Stmt::FunDecl(x) => walk_function(&x.function, out),
        Stmt::ClassDecl(x) => {
            walk_methods(&x.methods, out);
            push_dec(out, 3, x.class_decoration.index());
            assert(decs_view(out@) =~= start + stmt_decs(*s));
        },
        Stmt::Expr(x) => walk_expr(&x.expr, out),
        Stmt::Print(x) => walk_expr(&x.expr, out),
        Stmt::Block(x) => {
            walk_stmts(&x.stmts, out);
            push_dec(out, 1, x.decoration.index());
            assert(decs_view(out@) =~= start + stmt_decs(*s));
        },
        Stmt::If(x) => {
            walk_expr(&x.condition.inner, out);
            walk_stmt(&x.stmt, out);
            match &x.else_clause {
                Some(c) => walk_stmt(&c.stmt, out),
                None => {},
            }
            assert(decs_view(out@) =~= start + stmt_decs(*s));
        },
        Stmt::While(x) => {
            walk_expr(&x.expr, out);
            walk_stmt(&x.body, out);
            assert(decs_view(out@) =~= start + stmt_decs(*s));
        },
        Stmt::Return(_) => {
            assert(decs_view(out@) =~= start + stmt_decs(*s));
        },
    }
}

/// `a + b`, or `None` when it exceeds a `usize`.
fn add_weight(a: Option<usize>, b: Option<usize>) -> (r: Option<usize>)
    ensures
        match (a, b) {
            (Some(x), Some(y)) => if x + y <= usize::MAX {
                r == Some((x + y) as usize)
            } else {
                r is None
            },
            _ => r is None,
        },
{
    match (a, b) {
        (Some(x), Some(y)) => x.checked_add(y),
        _ => None,
    }
}

/// The weight of a statement, where it fits in a `usize`.
fn weigh_stmt(s: &Stmt) -> (r: Option<usize>)
    ensures
        match r {
            Some(w) => w == stmt_weight(*s),
            None => stmt_weight(*s) > usize::MAX,
        },
    decreases s,
{
    match s {
        Stmt::VarDecl(_) => Some(1),
        Stmt::FunDecl(x) => add_weight(Some(1), weigh_function(&x.function)),
        Stmt::ClassDecl(x) => add_weight(Some(1), weigh_methods(&x.methods)),
        Stmt::Block(x) => weigh_stmts(&x.stmts),
        Stmt::If(x) => {
            let first = weigh_stmt(&x.stmt);
            let second = match &x.else_clause {
                Some(c) => weigh_stmt(&c.stmt),
                None => Some(0),
            };
            add_weight(first, second)
        },
        Stmt::While(x) => weigh_stmt(&x.body),
        _ => Some(0),
    }
}

fn weigh_function(f: &Function) -> (r: Option<usize>)
    ensures
        match r {
            Some(w) => w == function_weight(*f),
            None => function_weight(*f) > usize::MAX,
        },
    decreases f,
{
    let params = if f.params.values.len() < usize::MAX {
        Some(f.params.len())
    } else {
        None
    };
    add_weight(add_weight(Some(1), params), weigh_stmts(&f.body.stmts))
}

fn weigh_stmts(ss: &Vec<Stmt>) -> (r: Option<usize>)
    ensures
        match r {
            Some(w) => w == stmts_weight(*ss, 0),
            None => stmts_weight(*ss, 0) > usize::MAX,
        },
    decreases ss,
{
    let mut total: usize = 0;
    let mut i: usize = ss.len();
    while i > 0
        invariant
            i <= ss@.len(),
            total == stmts_weight(*ss, i as int),
        decreases i,
    {
        let w = weigh_stmt(&ss[i - 1]);
        proof {
            lemma_stmts_weight_from(*ss, 0, i - 1);
        }
        match add_weight(w, Some(total)) {
            Some(t) => total = t,
            None => return None,
        }
        i -= 1;
    }
    Some(total)
}

/// The weight from the `i`-th statement on bounds the weight from any
/// later one.
proof fn lemma_stmts_weight_from(ss: Vec<Stmt>, j: int, i: int)
    requires
        0 <= j <= i,
    ensures
        stmts_weight(ss, j) >= stmts_weight(ss, i),
    decreases i - j,
{
    if j < i {
        lemma_stmts_weight_from(ss, j + 1, i);
    }
}

fn weigh_methods(ms: &Vec<Method>) -> (r: Option<usize>)
    ensures
        match r {
            Some(w) => w == methods_weight(*ms, 0),
            None => methods_weight(*ms, 0) > usize::MAX,
        },
    decreases ms,
{
    let mut total: usize = 0;
    let mut i: usize = ms.len();
    while i > 0
        invariant
            i <= ms@.len(),
            total == methods_weight(*ms, i as int),
        decreases i,
    {
        let w = weigh_function(&ms[i - 1].function);
        proof {
            lemma_methods_weight_from(*ms, 0, i - 1);
        }
        match add_weight(w, Some(total)) {
            Some(t) => total = t,
            None => return None,
        }
        i -= 1;
    }
    Some(total)
}

proof fn lemma_methods_weight_from(ms: Vec<Method>, j: int, i: int)
    requires
        0 <= j <= i,
    ensures
        methods_weight(ms, j) >= methods_weight(ms, i),
    decreases i - j,
{
    if j < i {
        lemma_methods_weight_from(ms, j + 1, i);
    }
}

/// Which decorations of each kind have been seen.
struct Seen {
    kinds: Vec<Vec<bool>>,
}

impl Seen {
    spec fn row(&self, k: int) -> Seq<bool> {
        self.kinds@[k]@
    }

    fn mark(&mut self, k: usize, i: usize)
        requires
            k < old(self).kinds@.len(),
            i < old(self).row(k as int).len(),
        ensures
            final(self).kinds@.len() == old(self).kinds@.len(),
            forall|j: int| 0 <= j < final(self).kinds@.len() ==> #[trigger] final(self).row(j).len() == old(self).row(j).len(),
            forall|j: int, l: int|
                0 <= j < final(self).kinds@.len() && 0 <= l < final(self).row(j).len() ==> #[trigger] final(self).row(j)[l]
                    == (if j == k && l == i {
                    true
                } else {
                    old(self).row(j)[l]
                }),
    {
        let ghost before = self.kinds@;
        let mut row = self.kinds.remove(k);
        row.set(i, true);
        self.kinds.insert(k, row);
        proof {
            assert(self.kinds@ =~= before.update(k as int, row));
        }
    }
}

/// Whether name resolution can walk `ast` to the end: each decoration that
/// it fills is handed out and met once, every one handed out is met, and
/// the locals it declares can be counted.
pub fn check_resolvable(ast: &Ast) -> (r: bool)
    ensures
        r == resolvable(*ast),
{
    if ast.decorator.kinds() != 4 {
        return false;
    }
    match weigh_stmts(&ast.program.stmts) {
        Some(_) => {},
        None => return false,
    }
    let mut decs: Vec<(usize, usize)> = Vec::new();
    walk_stmts(&ast.program.stmts, &mut decs);
    assert(decs_view(decs@) =~= program_decs(*ast));
    let ghost d = program_decs(*ast);
    let mut seen = Seen { kinds: Vec::new() };
    let mut k: usize = 0;
    while k < 4
        invariant
            k <= 4,
            ast.decorator.counts().len() == 4,
            seen.kinds@.len() == k,
            forall|j: int| 0 <= j < k ==> #[trigger] seen.row(j).len() == ast.decorator.counts()[j],
            forall|j: int, l: int| 0 <= j < k && 0 <= l < seen.row(j).len() ==> !#[trigger] seen.row(j)[l],
        decreases 4 - k,
    {
        let count = ast.decorator.count_at(k);
        let mut row: Vec<bool> = Vec::new();
        let mut i: usize = 0;
        while i < count
            invariant
                i <= count,
                k < 4,
                count == ast.decorator.counts()[k as int],
                ast.decorator.counts().len() == 4,
                seen.kinds@.len() == k,
                forall|j: int| 0 <= j < k ==> #[trigger] seen.row(j).len() == ast.decorator.counts()[j],
                forall|j: int, l: int| 0 <= j < k && 0 <= l < seen.row(j).len() ==> !#[trigger] seen.row(j)[l],
                row@.len() == i,
                forall|l: int| 0 <= l < i ==> !#[trigger] row@[l],
            decreases count - i,
        {
            row.push(false);
            i += 1;
        }
        let ghost before = seen.kinds@;
        let ghost old_seen = seen;
        seen.kinds.push(row);
        proof {
            assert(seen.kinds@ == before.push(row));
            assert forall|j: int| 0 <= j < k + 1 implies #[trigger] seen.row(j).len() == ast.decorator.counts()[j] by {
                if j < k {
                    assert(seen.row(j) == old_seen.row(j));
                } else {
                    assert(seen.row(j) == row@);
                }
            }
            assert forall|j: int, l: int| 0 <= j < k + 1 && 0 <= l < seen.row(j).len() implies !#[trigger] seen.row(j)[l] by {
                if j < k {
                    assert(seen.row(j) == old_seen.row(j));
                } else {
                    assert(seen.row(j) == row@);
                }
            }
        }
        k += 1;
    }
    let mut n: usize = 0;
    while n < decs.len()
        invariant
            n <= decs@.len(),
            d == decs_view(decs@),
            d == program_decs(*ast),
            stmts_weight(ast.program.stmts, 0) <= usize::MAX,
            ast.decorator.counts().len() == 4,
            seen.kinds@.len() == 4,
            forall|j: int| 0 <= j < 4 ==> #[trigger] seen.row(j).len() == ast.decorator.counts()[j],
            forall|m: int| 0 <= m < n ==> 0 <= (#[trigger] d[m]).0 < 4 && d[m].1 < ast.decorator.counts()[d[m].0],
            no_dups(d.subrange(0, n as int)),
            forall|j: int, l: int|
                0 <= j < 4 && 0 <= l < seen.row(j).len() ==> (#[trigger] seen.row(j)[l] <==> d.subrange(
                    0,
                    n as int,
                ).contains((j, l as usize))),
        decreases decs@.len() - n,
    {
        let (kind, index) = decs[n];
        assert(d[n as int] == (kind as int, index));
        if kind >= 4 || index >= seen.kinds[kind].len() {
            proof {
                assert(d.contains(d[n as int]));
                if kind < 4 {
                    assert(seen.row(kind as int).len() == ast.decorator.counts()[kind as int]);
                }
            }
            return false;
        }
        if seen.kinds[kind][index] {
            proof {
                assert(seen.row(kind as int)[index as int]);
                let prefix = d.subrange(0, n as int);
                let m = choose|m: int| 0 <= m < prefix.len() && #[trigger] prefix[m] == (kind as int, index);
                assert(d[m] == d[n as int]);
                assert(!no_dups(d));
            }
            return false;
        }
        let ghost old_seen = seen;
        seen.mark(kind, index);
        proof {
            assert(d.subrange(0, n + 1) =~= d.subrange(0, n as int).push(d[n as int]));
            assert forall|j: int, l: int|
                0 <= j < 4 && 0 <= l < seen.row(j).len() implies (#[trigger] seen.row(j)[l] <==> d.subrange(
                0,
                n + 1,
            ).contains((j, l as usize))) by {
                if j == kind && l == index {
                    assert(d.subrange(0, n + 1)[n as int] == (j, l as usize));
                } else {
                    assert(old_seen.row(j)[l] == seen.row(j)[l]);
                    if d.subrange(0, n + 1).contains((j, l as usize)) {
                        let m = choose|m: int| 0 <= m < n + 1 && #[trigger] d.subrange(0, n + 1)[m] == (j, l as usize);
                        assert(m < n);
                        assert(d.subrange(0, n as int)[m] == (j, l as usize));
                    }
                }
            }
            let p0 = d.subrange(0, n as int);
            let p1 = d.subrange(0, n + 1);
            assert forall|a: int, b: int| 0 <= a < b < n + 1 implies #[trigger] p1[a] != #[trigger] p1[b] by {
                if b == n {
                    assert(p0[a] == p1[a]);
                    if p1[a] == p1[b] {
                        assert(p0.contains((kind as int, index)));
                    }
                } else {
                    assert(p0[a] == p1[a]);
                    assert(p0[b] == p1[b]);
                }
            }
            assert(no_dups(p1));
        }
        n += 1;
    }
    proof {
        assert(d.subrange(0, n as int) =~= d);
    }
    let mut j: usize = 0;
    while j < 4
        invariant
            j <= 4,
            seen.kinds@.len() == 4,
            ast.decorator.counts().len() == 4,
            d == program_decs(*ast),
            stmts_weight(ast.program.stmts, 0) <= usize::MAX,
            no_dups(d),
            forall|m: int| 0 <= m < d.len() ==> 0 <= (#[trigger] d[m]).0 < 4 && d[m].1 < ast.decorator.counts()[d[m].0],
            forall|k: int| 0 <= k < 4 ==> #[trigger] seen.row(k).len() == ast.decorator.counts()[k],
            forall|k: int, l: int| 0 <= k < 4 && 0 <= l < seen.row(k).len() ==> (#[trigger] seen.row(k)[l] <==> d.contains((k, l as usize))),
            forall|k: int, l: int| 0 <= k < j && 0 <= l < seen.row(k).len() ==> #[trigger] seen.row(k)[l],
        decreases 4 - j,
    {
        let mut l: usize = 0;
        while l < seen.kinds[j].len()
            invariant
                j < 4,
                l <= seen.row(j as int).len(),
                seen.kinds@.len() == 4,
                ast.decorator.counts().len() == 4,
                d == program_decs(*ast),
                stmts_weight(ast.program.stmts, 0) <= usize::MAX,
                no_dups(d),
                forall|m: int| 0 <= m < d.len() ==> 0 <= (#[trigger] d[m]).0 < 4 && d[m].1 < ast.decorator.counts()[d[m].0],
                forall|k: int| 0 <= k < 4 ==> #[trigger] seen.row(k).len() == ast.decorator.counts()[k],
                forall|k: int, l: int| 0 <= k < 4 && 0 <= l < seen.row(k).len() ==> (#[trigger] seen.row(k)[l] <==> d.contains((k, l as usize))),
                forall|k: int, l: int| 0 <= k < j && 0 <= l < seen.row(k).len() ==> #[trigger] seen.row(k)[l],
                forall|m: int| 0 <= m < l ==> #[trigger] seen.row(j as int)[m],
            decreases seen.row(j as int).len() - l,
        {
            if !seen.kinds[j][l] {
                proof {
                    assert(!seen.row(j as int)[l as int]);
                    assert(seen.row(j as int).len() == ast.decorator.counts()[j as int]);
                    assert(!d.contains((j as int, l)));
                }
                return false;
            }
            l += 1;
        }
        j += 1;
    }
    proof {
        assert forall|k: int, i: usize| 0 <= k < 4 && i < ast.decorator.counts()[k] implies #[trigger] d.contains((k, i)) by {
            assert(seen.row(k)[i as int]);
        }
    }
    true
}

} // verus!
