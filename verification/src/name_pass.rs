use vstd::prelude::*;

use crate::ast::{BlockStmt, ElseClause, Expr, Function, Identifier, Method, Stmt};
use crate::decoration::{
    BlockDecoration, ClassDecoration, Dec, Decoration, DecorationKind, FunctionDecoration,
    NameDecoration,
};
use crate::executable::Place;
use crate::flat_resolution::{
    first_index, flat_args, flat_declare, flat_end, flat_errors, flat_expr, flat_lookup, flat_pop, flat_push,
    flat_start, flat_stmt, flat_stmts, flat_use, flat_walk, flat_walks, global_pos, pending_errors, innermost_scope, names_before, use_global_flat, Flat, FlatScope,
};
use crate::parser::Ast;
use crate::name_resolution::{
    captured, declared_as, distinct_words, innermost, lemma_innermost_range, sum_lens, Scope, same_names, name_span, name_str, resolution_of, CompileError, Context, Frame,
    FrameKind, LocalDeclaration, Name, Resolution,
};
use crate::punctuated::{punctuated_items, Punctuated};
use crate::span::{Span, Spanned};
use crate::token::word_is;

verus! {

// Decoration kinds, by their counter index: name uses, blocks, functions,
// classes.

/// The decorations that name resolution fills while it walks an
/// expression, as pairs of decoration kind and index.
pub open spec fn expr_decs(e: Expr) -> Seq<(int, usize)>
    decreases e, 0int,
{
    match e {
        Expr::Literal(_) => seq![],
        Expr::Unary(x) => expr_decs(*x.inner),
        Expr::Binary(x) => expr_decs(*x.left) + expr_decs(*x.right),
        Expr::Grouping(x) => expr_decs(*x.inner),
        Expr::Variable(x) => seq![(0int, x.name.decoration.spec_index())],
        Expr::Assign(x) => expr_decs(*x.expr) + seq![(0int, x.name.decoration.spec_index())],
        Expr::Call(x) => expr_decs(*x.target) + args_decs(x.arguments, 0),
        Expr::Get(x) => expr_decs(*x.target),
        Expr::SetField(x) => expr_decs(*x.target) + expr_decs(*x.expr),
        Expr::This(x) => seq![(0int, x.decoration.spec_index())],
        Expr::Super(_) => seq![],
    }
}

/// The decorations filled for the call arguments from the `i`-th on.
pub open spec fn args_decs(p: Punctuated<Expr, Span>, i: int) -> Seq<(int, usize)>
    decreases p, p.values@.len() + 1 - i,
{
    if 0 <= i < p.values@.len() {
        expr_decs(p.values@[i].0) + args_decs(p, i + 1)
    } else if i == p.values@.len() {
        match p.last {
            Some(b) => expr_decs(*b),
            None => seq![],
        }
    } else {
        seq![]
    }
}

/// The decorations that name resolution fills while it walks a statement.
pub open spec fn stmt_decs(s: Stmt) -> Seq<(int, usize)>
    decreases s, 0int,
{
    match s {
        Stmt::VarDecl(x) => match x.assignment {
            Some(a) => expr_decs(a.expr),
            None => seq![],
        },
        Stmt::FunDecl(x) => function_decs(x.function),
        Stmt::ClassDecl(x) => methods_decs(x.methods, 0) + seq![
            (3int, x.class_decoration.spec_index()),
        ],
        Stmt::Expr(x) => expr_decs(x.expr),
        Stmt::Print(x) => expr_decs(x.expr),
        Stmt::Block(x) => stmts_decs(x.stmts, 0) + seq![(1int, x.decoration.spec_index())],
        Stmt::If(x) => expr_decs(*x.condition.inner) + stmt_decs(*x.stmt) + match x.else_clause {
            Some(c) => stmt_decs(*c.stmt),
            None => seq![],
        },
        Stmt::While(x) => expr_decs(x.expr) + stmt_decs(*x.body),
        Stmt::Return(_) => seq![],
    }
}

pub open spec fn else_decs(c: Option<ElseClause>) -> Seq<(int, usize)> {
    match c {
        Some(c) => stmt_decs(*c.stmt),
        None => seq![],
    }
}

pub open spec fn else_weight(c: Option<ElseClause>) -> nat {
    match c {
        Some(c) => stmt_weight(*c.stmt),
        None => 0,
    }
}

/// A function's body statements, then its body block and itself.
pub open spec fn function_decs(f: Function) -> Seq<(int, usize)>
    decreases f, 0int,
{
    stmts_decs(f.body.stmts, 0) + seq![
        (1int, f.body.decoration.spec_index()),
        (2int, f.decoration.spec_index()),
    ]
}

pub open spec fn stmts_decs(ss: Vec<Stmt>, i: int) -> Seq<(int, usize)>
    decreases ss, ss@.len() - i,
{
    if 0 <= i < ss@.len() {
        stmt_decs(ss@[i]) + stmts_decs(ss, i + 1)
    } else {
        seq![]
    }
}

pub open spec fn methods_decs(ms: Vec<Method>, i: int) -> Seq<(int, usize)>
    decreases ms, ms@.len() - i,
{
    if 0 <= i < ms@.len() {
        function_decs(ms@[i].function) + methods_decs(ms, i + 1)
    } else {
        seq![]
    }
}

/// The kind of frame a method's body is resolved in: an initializer for
/// `init`, else a method.
pub open spec fn method_kind(m: Method) -> FrameKind {
    if m.identifier.value@ == seq![105u8, 110u8, 105u8, 116u8] {
        FrameKind::Initializer
    } else {
        FrameKind::Method
    }
}

/// The functions declared in a statement, at any depth, inner ones first:
/// each with the name and the kind it is recorded under.
pub open spec fn stmt_funs(s: Stmt) -> Seq<(Identifier, Function, FrameKind)>
    decreases s, 0int,
{
    match s {
        Stmt::FunDecl(x) => function_funs(x.function) + seq![(x.identifier, x.function, FrameKind::Function)],
        Stmt::ClassDecl(x) => methods_funs(x.methods, 0),
        Stmt::Block(x) => stmts_funs(x.stmts, 0),
        Stmt::If(x) => stmt_funs(*x.stmt) + match x.else_clause {
            Some(c) => stmt_funs(*c.stmt),
            None => seq![],
        },
        Stmt::While(x) => stmt_funs(*x.body),
        _ => seq![],
    }
}

pub open spec fn else_funs(c: Option<ElseClause>) -> Seq<(Identifier, Function, FrameKind)> {
    match c {
        Some(c) => stmt_funs(*c.stmt),
        None => seq![],
    }
}

pub open spec fn else_classes(c: Option<ElseClause>) -> Seq<(usize, Identifier, Seq<(Seq<u8>, usize)>)> {
    match c {
        Some(c) => stmt_classes(*c.stmt),
        None => seq![],
    }
}

/// The functions declared in a function's body.
pub open spec fn function_funs(f: Function) -> Seq<(Identifier, Function, FrameKind)>
    decreases f, 0int,
{
    stmts_funs(f.body.stmts, 0)
}

pub open spec fn stmts_funs(ss: Vec<Stmt>, i: int) -> Seq<(Identifier, Function, FrameKind)>
    decreases ss, ss@.len() - i,
{
    if 0 <= i < ss@.len() {
        stmt_funs(ss@[i]) + stmts_funs(ss, i + 1)
    } else {
        seq![]
    }
}

pub open spec fn methods_funs(ms: Vec<Method>, i: int) -> Seq<(Identifier, Function, FrameKind)>
    decreases ms, ms@.len() - i,
{
    if 0 <= i < ms@.len() {
        function_funs(ms@[i].function) + seq![(ms@[i].identifier, ms@[i].function, method_kind(ms@[i]))]
            + methods_funs(ms, i + 1)
    } else {
        seq![]
    }
}

/// The position of the entry for `key` in a method table, or -1.
pub open spec fn table_index(t: Seq<(Seq<u8>, usize)>, key: Seq<u8>) -> int
    decreases t.len(),
{
    if t.len() == 0 {
        -1
    } else if table_index(t.drop_last(), key) >= 0 {
        table_index(t.drop_last(), key)
    } else if t.last().0 == key {
        t.len() - 1
    } else {
        -1
    }
}

/// The method table of the first `k` methods: each name with the function
/// decoration index of its method; a name given again keeps its place and
/// takes the later method.
pub open spec fn method_table(ms: Seq<Method>, k: int) -> Seq<(Seq<u8>, usize)>
    decreases k,
{
    if k <= 0 {
        seq![]
    } else {
        let t = method_table(ms, k - 1);
        let key = ms[k - 1].identifier.value@;
        let v = ms[k - 1].function.decoration.spec_index();
        let i = table_index(t, key);
        if i >= 0 {
            t.update(i, (key, v))
        } else {
            t.push((key, v))
        }
    }
}

/// The classes declared in a statement, at any depth, inner ones first:
/// each with its decoration index, its name and its method table.
pub open spec fn stmt_classes(s: Stmt) -> Seq<(usize, Identifier, Seq<(Seq<u8>, usize)>)>
    decreases s, 0int,
{
    match s {
        Stmt::FunDecl(x) => function_classes(x.function),
        Stmt::ClassDecl(x) => methods_classes(x.methods, 0) + seq![
            (x.class_decoration.spec_index(), x.identifier, method_table(x.methods@, x.methods@.len() as int)),
        ],
        Stmt::Block(x) => stmts_classes(x.stmts, 0),
        Stmt::If(x) => stmt_classes(*x.stmt) + match x.else_clause {
            Some(c) => stmt_classes(*c.stmt),
            None => seq![],
        },
        Stmt::While(x) => stmt_classes(*x.body),
        _ => seq![],
    }
}

pub open spec fn function_classes(f: Function) -> Seq<(usize, Identifier, Seq<(Seq<u8>, usize)>)>
    decreases f, 0int,
{
    stmts_classes(f.body.stmts, 0)
}

pub open spec fn stmts_classes(ss: Vec<Stmt>, i: int) -> Seq<(usize, Identifier, Seq<(Seq<u8>, usize)>)>
    decreases ss, ss@.len() - i,
{
    if 0 <= i < ss@.len() {
        stmt_classes(ss@[i]) + stmts_classes(ss, i + 1)
    } else {
        seq![]
    }
}

pub open spec fn methods_classes(ms: Vec<Method>, i: int) -> Seq<(usize, Identifier, Seq<(Seq<u8>, usize)>)>
    decreases ms, ms@.len() - i,
{
    if 0 <= i < ms@.len() {
        function_classes(ms@[i].function) + methods_classes(ms, i + 1)
    } else {
        seq![]
    }
}

/// The entries of a method table as plain values.
pub open spec fn table_view(entries: Seq<(Vec<u8>, usize)>) -> Seq<(Seq<u8>, usize)> {
    entries.map_values(|e: (Vec<u8>, usize)| (e.0@, e.1))
}

/// The function `f.1` is recorded under its decoration with the name
/// `f.0` and the kind `f.2`.
pub open spec fn records_function(infos: Seq<Option<FunctionInfo>>, f: (Identifier, Function, FrameKind)) -> bool {
    let d = f.1.decoration.spec_index() as int;
    &&& 0 <= d < infos.len()
    &&& infos[d] is Some
    &&& *infos[d].unwrap().identifier == f.0
    &&& *infos[d].unwrap().function == f.1
    &&& infos[d].unwrap().kind == f.2
}

/// The class `c` is recorded under its decoration index `c.0`, with its
/// name `c.1` and method table `c.2`.
pub open spec fn records_class(infos: Seq<Option<ClassInfo>>, c: (usize, Identifier, Seq<(Seq<u8>, usize)>)) -> bool {
    let d = c.0 as int;
    &&& 0 <= d < infos.len()
    &&& infos[d] is Some
    &&& *infos[d].unwrap().identifier == c.1
    &&& table_view(infos[d].unwrap().methods@) == c.2
}

/// An upper bound on the local slots that resolving a statement declares:
/// one for each variable, function, class and parameter, and one for the
/// slot each function reserves for itself.
pub open spec fn stmt_weight(s: Stmt) -> nat
    decreases s, 0int,
{
    match s {
        Stmt::VarDecl(_) => 1,
        Stmt::FunDecl(x) => 1 + function_weight(x.function),
        Stmt::ClassDecl(x) => 1 + methods_weight(x.methods, 0),
        Stmt::Block(x) => stmts_weight(x.stmts, 0),
        Stmt::If(x) => stmt_weight(*x.stmt) + match x.else_clause {
            Some(c) => stmt_weight(*c.stmt),
            None => 0,
        },
        Stmt::While(x) => stmt_weight(*x.body),
        _ => 0,
    }
}

pub open spec fn function_weight(f: Function) -> nat
    decreases f, 0int,
{
    1 + punctuated_items(f.params).len() + stmts_weight(f.body.stmts, 0)
}

pub open spec fn stmts_weight(ss: Vec<Stmt>, i: int) -> nat
    decreases ss, ss@.len() - i,
{
    if 0 <= i < ss@.len() {
        stmt_weight(ss@[i]) + stmts_weight(ss, i + 1)
    } else {
        0
    }
}

pub open spec fn methods_weight(ms: Vec<Method>, i: int) -> nat
    decreases ms, ms@.len() - i,
{
    if 0 <= i < ms@.len() {
        function_weight(ms@[i].function) + methods_weight(ms, i + 1)
    } else {
        0
    }
}

/// What name resolution records of a function.
pub struct FunctionInfo<'ast> {
    pub identifier: &'ast Identifier,
    pub function: &'ast Function,
    pub captures: Vec<Place>,
    pub kind: FrameKind,
}

/// What name resolution records of a class: its name and, for each method
/// name, the function decoration index of the method.
pub struct ClassInfo<'ast> {
    pub identifier: &'ast Identifier,
    pub methods: Vec<(Vec<u8>, usize)>,
}

/// The tables that name resolution fills, by decoration index, and the
/// errors it found.
pub struct NameResolutionOutput<'ast> {
    pub resolutions: Vec<Resolution>,
    pub block_locals: Vec<Vec<LocalDeclaration>>,
    pub function_infos: Vec<FunctionInfo<'ast>>,
    pub class_infos: Vec<ClassInfo<'ast>>,
    pub errors: Vec<CompileError>,
}

#[derive(Clone, Copy)]
enum GlobalResolution {
    /// Used, not (yet) defined.
    Pending,
    /// Defined at this span.
    Resolved(Span),
}

/// The name of a global: one that the program declares or uses, or one of
/// the built-in globals.
enum GlobalIdent<'ast> {
    Identifier(&'ast Identifier),
    String(Vec<u8>),
}

spec fn global_str(g: GlobalIdent) -> Seq<u8> {
    match g {
        GlobalIdent::Identifier(identifier) => identifier.value@,
        GlobalIdent::String(s) => s@,
    }
}

/// The bytes of `clock`.
pub open spec fn clock_word() -> Seq<u8> {
    seq![99u8, 108u8, 111u8, 99u8, 107u8]
}

/// The names of the built-in globals.
pub fn global_names() -> (r: Vec<Vec<u8>>)
    ensures
        r@.len() == 1,
        r@[0]@ == clock_word(),
{
    let mut clock: Vec<u8> = Vec::new();
    clock.push(99u8);
    clock.push(108u8);
    clock.push(111u8);
    clock.push(99u8);
    clock.push(107u8);
    let mut r: Vec<Vec<u8>> = Vec::new();
    r.push(clock);
    proof {
        assert(r@[0]@ =~= clock_word());
    }
    r
}

fn bytes_same(a: &Vec<u8>, b: &Vec<u8>) -> (r: bool)
    ensures
        r == (a@ == b@),
{
    let r = word_is(a.as_slice(), 0, a.len(), b.as_slice());
    proof {
        assert(a@.subrange(0, a@.len() as int) =~= a@);
    }
    r
}

/// The position of the global named `word`, or -1.
spec fn global_index(g: Seq<(GlobalIdent, GlobalResolution)>, word: Seq<u8>) -> int
    decreases g.len(),
{
    if g.len() == 0 {
        -1
    } else if global_index(g.drop_last(), word) >= 0 {
        global_index(g.drop_last(), word)
    } else if global_str(g.last().0) == word {
        g.len() - 1
    } else {
        -1
    }
}

proof fn lemma_global_index_absent(g: Seq<(GlobalIdent, GlobalResolution)>, word: Seq<u8>)
    requires
        forall|j: int| 0 <= j < g.len() ==> global_str(#[trigger] g[j].0) != word,
    ensures
        global_index(g, word) == -1,
    decreases g.len(),
{
    if g.len() > 0 {
        assert forall|j: int| 0 <= j < g.drop_last().len() implies global_str(#[trigger] g.drop_last()[j].0) != word by {
            assert(g.drop_last()[j] == g[j]);
        }
        lemma_global_index_absent(g.drop_last(), word);
        assert(g.last() == g[g.len() - 1]);
    }
}

proof fn lemma_global_index_found(g: Seq<(GlobalIdent, GlobalResolution)>, word: Seq<u8>, i: int)
    requires
        0 <= i < g.len(),
        global_str(g[i].0) == word,
        forall|j: int| 0 <= j < i ==> global_str(#[trigger] g[j].0) != word,
    ensures
        global_index(g, word) == i,
    decreases g.len(),
{
    if i < g.len() - 1 {
        assert forall|j: int| 0 <= j < i implies global_str(#[trigger] g.drop_last()[j].0) != word by {
            assert(g.drop_last()[j] == g[j]);
        }
        assert(g.drop_last()[i] == g[i]);
        lemma_global_index_found(g.drop_last(), word, i);
    } else {
        lemma_global_index_absent(g.drop_last(), word);
        assert(g.last() == g[i]);
    }
}

proof fn lemma_global_index_word(g: Seq<(GlobalIdent, GlobalResolution)>, word: Seq<u8>)
    ensures
        global_index(g, word) >= 0 ==> global_index(g, word) < g.len() && global_str(g[global_index(g, word)].0)
            == word,
    decreases g.len(),
{
    if g.len() > 0 {
        lemma_global_index_word(g.drop_last(), word);
        if global_index(g.drop_last(), word) >= 0 {
            assert(g.drop_last()[global_index(g.drop_last(), word)] == g[global_index(g.drop_last(), word)]);
        }
    }
}

/// The globals after a use of `identifier`: unchanged where a global of that
/// name is known, else with the name added as used but not defined.
spec fn used_global<'ast>(g: Seq<(GlobalIdent<'ast>, GlobalResolution)>, identifier: &'ast Identifier) -> Seq<(GlobalIdent<'ast>, GlobalResolution)> {
    if global_index(g, identifier.value@) >= 0 {
        g
    } else {
        g.push((GlobalIdent::Identifier(identifier), GlobalResolution::Pending))
    }
}

/// The globals and errors after defining `identifier` at top level: the
/// global of that name becomes defined there, and defining it again is an
/// error that names where it was defined first.
spec fn defined_global<'ast>(
    g: Seq<(GlobalIdent<'ast>, GlobalResolution)>,
    errors: Seq<CompileError>,
    identifier: &'ast Identifier,
) -> (Seq<(GlobalIdent<'ast>, GlobalResolution)>, Seq<CompileError>) {
    let i = global_index(g, identifier.value@);
    if i >= 0 {
        (
            g.update(i, (g[i].0, GlobalResolution::Resolved(identifier.span))),
            match g[i].1 {
                GlobalResolution::Resolved(original) => errors.push(
                    CompileError::ItemRedefined { original, redefinition: identifier.span },
                ),
                GlobalResolution::Pending => errors,
            },
        )
    } else {
        (g.push((GlobalIdent::Identifier(identifier), GlobalResolution::Resolved(identifier.span))), errors)
    }
}

/// Declaring `name` turned the context `old_c` into `new_c` and the errors
/// `errs` into `new_errs`: a name that the innermost scope declares already
/// is an error.
pub(crate) open spec fn declared_with_errors(
    old_c: Context,
    new_c: Context,
    name: Name,
    errs: Seq<CompileError>,
    new_errs: Seq<CompileError>,
) -> bool {
    exists|r: Result<(), CompileError>|
        #[trigger] declared_as(old_c, new_c, name, Some(r)) && new_errs == match r {
            Ok(()) => errs,
            Err(e) => errs.push(e),
        }
}

/// The span of the name that made a global known (none for a built-in).
spec fn global_span(g: GlobalIdent) -> Span {
    match g {
        GlobalIdent::Identifier(identifier) => identifier.span,
        GlobalIdent::String(_) => Span::spec_new(0, 0),
    }
}

spec fn global_flat(g: (GlobalIdent, GlobalResolution)) -> (Seq<u8>, Span, Option<Span>) {
    (
        global_str(g.0),
        global_span(g.0),
        match g.1 {
            GlobalResolution::Pending => None,
            GlobalResolution::Resolved(s) => Some(s),
        },
    )
}

spec fn globals_flat(g: Seq<(GlobalIdent, GlobalResolution)>) -> Seq<(Seq<u8>, Span, Option<Span>)> {
    g.map_values(|e: (GlobalIdent, GlobalResolution)| global_flat(e))
}

pub(crate) open spec fn names_flat(names: Seq<Name>) -> Seq<(Seq<u8>, Span)> {
    names.map_values(|n: Name| (name_str(n), name_span(n)))
}

pub(crate) open spec fn scope_flat(s: Scope) -> FlatScope {
    FlatScope { block: s.block.decoration.spec_index(), names: names_flat(s.names@), decls: s.local_decls@ }
}

pub(crate) open spec fn scopes_flat(scopes: Seq<Scope>) -> Seq<FlatScope> {
    scopes.map_values(|s: Scope| scope_flat(s))
}

proof fn lemma_first_index(names: Seq<Name>, word: Seq<u8>)
    ensures
        first_index(names_flat(names), word) >= 0 <==> exists|i: int| 0 <= i < names.len() && name_str(#[trigger] names[i]) == word,
        first_index(names_flat(names), word) >= 0 ==> first_index(names_flat(names), word) < names.len()
            && name_str(names[first_index(names_flat(names), word)]) == word,
        forall|i: int| 0 <= i < first_index(names_flat(names), word) ==> name_str(#[trigger] names[i]) != word,
        first_index(names_flat(names), word) < 0 ==> forall|i: int| 0 <= i < names.len() ==> name_str(#[trigger] names[i]) != word,
    decreases names.len(),
{
    if names.len() > 0 {
        let d = names.drop_last();
        assert(names_flat(names).drop_last() =~= names_flat(d));
        lemma_first_index(d, word);
        assert forall|i: int| 0 <= i < d.len() implies d[i] == names[i] by {}
        assert(names_flat(names).last() == (name_str(names.last()), name_span(names.last())));
        assert(names.last() == names[names.len() - 1]);
    }
}

proof fn lemma_first_index_distinct(names: Seq<Name>, word: Seq<u8>, i: int)
    requires
        distinct_words(names),
        0 <= i < names.len(),
        name_str(names[i]) == word,
    ensures
        first_index(names_flat(names), word) == i,
{
    lemma_first_index(names, word);
    let f = first_index(names_flat(names), word);
    if f != i {
        if f < i {
            assert(name_str(names[f]) != name_str(names[i]));
        } else {
            assert(name_str(names[i]) != word);
        }
    }
}

proof fn lemma_innermost_flat(scopes: Seq<Scope>, word: Seq<u8>, k: int)
    requires
        0 <= k <= scopes.len(),
    ensures
        innermost(scopes, word, k) == innermost_scope(scopes_flat(scopes), word, k),
    decreases k,
{
    if k > 0 {
        lemma_first_index(scopes[k - 1].names@, word);
        assert(scopes_flat(scopes)[k - 1] == scope_flat(scopes[k - 1]));
        lemma_innermost_flat(scopes, word, k - 1);
    }
}

proof fn lemma_sum_flat(scopes: Seq<Scope>, k: int)
    requires
        0 <= k <= scopes.len(),
    ensures
        sum_lens(scopes, k) == names_before(scopes_flat(scopes), k),
    decreases k,
{
    if k > 0 {
        assert(scopes_flat(scopes)[k - 1] == scope_flat(scopes[k - 1]));
        lemma_sum_flat(scopes, k - 1);
    }
}

proof fn lemma_global_pos(g: Seq<(GlobalIdent, GlobalResolution)>, word: Seq<u8>)
    ensures
        global_index(g, word) == global_pos(globals_flat(g), word),
    decreases g.len(),
{
    if g.len() > 0 {
        assert(globals_flat(g).drop_last() =~= globals_flat(g.drop_last()));
        lemma_global_pos(g.drop_last(), word);
        assert(globals_flat(g).last() == global_flat(g.last()));
    }
}

proof fn lemma_used_flat<'ast>(g: Seq<(GlobalIdent<'ast>, GlobalResolution)>, identifier: &'ast Identifier)
    ensures
        globals_flat(used_global(g, identifier)) == use_global_flat(globals_flat(g), identifier.value@, identifier.span),
{
    lemma_global_pos(g, identifier.value@);
    if global_index(g, identifier.value@) < 0 {
        assert(globals_flat(used_global(g, identifier)) =~= globals_flat(g).push((identifier.value@, identifier.span, None)));
    }
}

proof fn lemma_defined_flat<'ast>(
    g: Seq<(GlobalIdent<'ast>, GlobalResolution)>,
    errors: Seq<CompileError>,
    identifier: &'ast Identifier,
)
    ensures
        ({
            let (g2, e2) = defined_global(g, errors, identifier);
            let gf = globals_flat(g);
            let i = global_pos(gf, identifier.value@);
            &&& globals_flat(g2) == if i >= 0 {
                gf.update(i, (gf[i].0, gf[i].1, Some(identifier.span)))
            } else {
                gf.push((identifier.value@, identifier.span, Some(identifier.span)))
            }
            &&& e2 == if i >= 0 {
                match gf[i].2 {
                    Some(original) => errors.push(CompileError::ItemRedefined { original, redefinition: identifier.span }),
                    None => errors,
                }
            } else {
                errors
            }
        }),
{
    lemma_global_pos(g, identifier.value@);
    lemma_global_index_word(g, identifier.value@);
    let i = global_index(g, identifier.value@);
    let (g2, e2) = defined_global(g, errors, identifier);
    let gf = globals_flat(g);
    if i >= 0 {
        assert(globals_flat(g2) =~= gf.update(i, (gf[i].0, gf[i].1, Some(identifier.span))));
    } else {
        assert(globals_flat(g2) =~= gf.push((identifier.value@, identifier.span, Some(identifier.span))));
    }
}

proof fn lemma_declare_flat(m0: Flat, old_c: Context, new_c: Context, name: Name, r: Result<(), CompileError>, new_errs: Seq<CompileError>)
    requires
        old_c.wf(),
        old_c.scopes@.len() > 0,
        declared_as(old_c, new_c, name, Some(r)),
        m0.scopes == scopes_flat(old_c.scopes@),
        m0.count == old_c.local_count as int,
        new_errs == match r {
            Ok(()) => m0.errors,
            Err(e) => m0.errors.push(e),
        },
    ensures
        flat_declare(m0, name_str(name), name_span(name)) == (Flat {
            scopes: scopes_flat(new_c.scopes@),
            count: new_c.local_count as int,
            errors: new_errs,
            ..m0
        }),
{
    let n = old_c.scopes@.len() as int;
    let last = old_c.scopes@[n - 1];
    let w = name_str(name);
    assert(m0.scopes.last() == scope_flat(last));
    assert(last.wf());
    lemma_first_index(last.names@, w);
    match r {
        Ok(()) => {
            assert(first_index(names_flat(last.names@), w) < 0);
            assert(names_flat(new_c.scopes@[n - 1].names@) =~= names_flat(last.names@).push((w, name_span(name))));
            assert(scopes_flat(new_c.scopes@) =~= m0.scopes.update(
                n - 1,
                FlatScope {
                    names: names_flat(last.names@).push((w, name_span(name))),
                    decls: last.local_decls@.push(LocalDeclaration::Local),
                    ..scope_flat(last)
                },
            ));
        },
        Err(e) => {
            let j = choose|j: int|
                0 <= j < last.names@.len() && name_str(#[trigger] last.names@[j]) == w && e
                    == CompileError::ItemRedefined { original: name_span(last.names@[j]), redefinition: name_span(name) };
            lemma_first_index_distinct(last.names@, w, j);
            assert(scopes_flat(new_c.scopes@) =~= m0.scopes) by {
                assert forall|k: int| 0 <= k < n implies scopes_flat(new_c.scopes@)[k] == m0.scopes[k] by {
                    if k < n - 1 {
                        assert(new_c.scopes@[k] == old_c.scopes@[k]);
                    }
                }
            }
        },
    }
}

spec fn distinct_globals(g: Seq<(GlobalIdent, GlobalResolution)>) -> bool {
    forall|i: int, j: int|
        0 <= i < j < g.len() ==> global_str(#[trigger] g[i].0) != global_str(#[trigger] g[j].0)
}

/// The blocks of a context's scopes, innermost last.
pub(crate) open spec fn ctx_blocks<'ast>(c: Context<'ast>) -> Seq<&'ast BlockStmt> {
    c.blocks()
}

pub(crate) open spec fn frame_shape<'ast>(f: Frame<'ast>) -> (&'ast Function, FrameKind, Seq<&'ast BlockStmt>) {
    (f.function, f.kind, ctx_blocks(f.context))
}

pub(crate) open spec fn frames_weight(frames: Seq<Frame>, k: int) -> int
    decreases k,
{
    if k <= 0 {
        0
    } else {
        frames_weight(frames, k - 1) + frames[k - 1].context.local_count
    }
}

proof fn lemma_frames_weight_mono(frames: Seq<Frame>, j: int, k: int)
    requires
        0 <= j <= k <= frames.len(),
    ensures
        frames_weight(frames, j) <= frames_weight(frames, k),
    decreases k - j,
{
    if j < k {
        lemma_frames_weight_mono(frames, j, k - 1);
    }
}

proof fn lemma_frames_weight_same(a: Seq<Frame>, b: Seq<Frame>, k: int)
    requires
        0 <= k <= a.len(),
        k <= b.len(),
        forall|f: int| 0 <= f < k ==> a[f].context.local_count == b[f].context.local_count,
    ensures
        frames_weight(a, k) == frames_weight(b, k),
    decreases k,
{
    if k > 0 {
        lemma_frames_weight_same(a, b, k - 1);
    }
}

/// Whether a sequence holds no element twice.
pub open spec fn no_dups<T>(s: Seq<T>) -> bool {
    forall|i: int, j: int| 0 <= i < j < s.len() ==> s[i] != s[j]
}

proof fn lemma_no_dups_append<T>(a: Seq<T>, b: Seq<T>)
    requires
        no_dups(a + b),
    ensures
        no_dups(a),
        no_dups(b),
        forall|x: T| a.contains(x) ==> !b.contains(x),
{
    assert forall|i: int, j: int| 0 <= i < j < a.len() implies a[i] != a[j] by {
        assert((a + b)[i] == a[i] && (a + b)[j] == a[j]);
    }
    assert forall|i: int, j: int| 0 <= i < j < b.len() implies b[i] != b[j] by {
        assert((a + b)[a.len() + i] == b[i] && (a + b)[a.len() + j] == b[j]);
    }
    assert forall|x: T| a.contains(x) implies !b.contains(x) by {
        let i = choose|i: int| 0 <= i < a.len() && a[i] == x;
        if b.contains(x) {
            let j = choose|j: int| 0 <= j < b.len() && b[j] == x;
            assert((a + b)[i] == x && (a + b)[a.len() + j] == x);
        }
    }
}

/// Walks a program, resolving each name use to a local slot, an upvalue or
/// a global, and recording the locals of each block, the captures of each
/// function and the methods of each class.
pub struct NameResolutionPass<'ast> {
    globals: Vec<(GlobalIdent<'ast>, GlobalResolution)>,
    global_context: Context<'ast>,
    frames: Vec<Frame<'ast>>,
    resolutions: Dec<NameDecoration, Resolution>,
    block_locals: Dec<BlockDecoration, Vec<LocalDeclaration>>,
    function_infos: Dec<FunctionDecoration, FunctionInfo<'ast>>,
    class_infos: Dec<ClassDecoration, ClassInfo<'ast>>,
    errors: Vec<CompileError>,
}

impl<'ast> NameResolutionPass<'ast> {
    /// The number of slots of the table of decoration kind `k`.
    closed spec fn cap(&self, k: int) -> int {
        if k == 0 {
            self.resolutions.slots().len() as int
        } else if k == 1 {
            self.block_locals.slots().len() as int
        } else if k == 2 {
            self.function_infos.slots().len() as int
        } else {
            self.class_infos.slots().len() as int
        }
    }

    /// Whether the slot of decoration kind `x.0` and index `x.1` is filled.
    closed spec fn filled(&self, x: (int, usize)) -> bool {
        if x.0 == 0 {
            x.1 < self.resolutions.slots().len() && self.resolutions.slots()[x.1 as int] is Some
        } else if x.0 == 1 {
            x.1 < self.block_locals.slots().len() && self.block_locals.slots()[x.1 as int] is Some
        } else if x.0 == 2 {
            x.1 < self.function_infos.slots().len()
                && self.function_infos.slots()[x.1 as int] is Some
        } else if x.0 == 3 {
            x.1 < self.class_infos.slots().len() && self.class_infos.slots()[x.1 as int] is Some
        } else {
            false
        }
    }

    /// `decs` can all be filled: no decoration twice, each in range and
    /// empty.
    closed spec fn fresh(&self, decs: Seq<(int, usize)>) -> bool {
        &&& no_dups(decs)
        &&& forall|x: (int, usize)|
            #[trigger] decs.contains(x) ==> 0 <= x.0 < 4 && x.1 < self.cap(x.0) && !self.filled(x)
    }

    closed spec fn wf(&self) -> bool {
        &&& self.global_context.wf()
        &&& forall|f: int|
            0 <= f < self.frames@.len() ==> (#[trigger] self.frames@[f]).wf()
                && self.frames@[f].context.scopes@.len() >= 1
        &&& self.resolutions.wf()
        &&& self.block_locals.wf()
        &&& self.function_infos.wf()
        &&& self.class_infos.wf()
        &&& distinct_globals(self.globals@)
        &&& forall|i: int|
            0 <= i < self.function_infos.slots().len() && #[trigger] self.function_infos.slots()[i] is Some
                ==> self.function_infos.slots()[i].unwrap().function.decoration.spec_index() == i
    }

    /// The local slots in use, in all contexts together.
    closed spec fn weight(&self) -> int {
        self.global_context.local_count + frames_weight(self.frames@, self.frames@.len() as int)
    }

    /// The blocks of the top-level scopes, and the function, kind and
    /// blocks of each frame.
    closed spec fn shape(&self) -> (Seq<&'ast BlockStmt>, Seq<(&'ast Function, FrameKind, Seq<&'ast BlockStmt>)>) {
        (
            ctx_blocks(self.global_context),
            self.frames@.map_values(|f: Frame<'ast>| frame_shape(f)),
        )
    }

    /// `next` is `self` after work that fills `decs` and declares at most
    /// `w` locals, whatever it does to the scopes.
    closed spec fn moved(&self, next: Self, decs: Seq<(int, usize)>, w: int) -> bool {
        &&& next.wf()
        &&& forall|k: int| 0 <= k < 4 ==> #[trigger] next.cap(k) == self.cap(k)
        &&& forall|x: (int, usize)| #[trigger] next.filled(x) == (self.filled(x) || decs.contains(x))
        &&& next.weight() <= self.weight() + w
        &&& self.keeps_resolutions(next)
        &&& self.keeps_infos(next)
    }

    /// Walking the top level of the program: no function entered, no block.
    closed spec fn at_top(&self) -> bool {
        &&& self.frames@.len() == 0
        &&& self.global_context.scopes@.len() == 0
    }

    /// The name use `d` is resolved to a global.
    closed spec fn global_at(&self, d: usize) -> bool {
        d < self.resolutions.slots().len() && self.resolutions.slots()[d as int] == Some(Resolution::Global)
    }

    /// The name uses of `decs` are all resolved to globals.
    closed spec fn globals_at(&self, decs: Seq<(int, usize)>) -> bool {
        forall|i: int| 0 <= i < decs.len() ==> #[trigger] self.global_at(decs[i].1)
    }

    /// The name uses resolved in `self` are resolved alike in `next`.
    closed spec fn keeps_resolutions(&self, next: Self) -> bool {
        forall|d: int|
            0 <= d < self.resolutions.slots().len() && #[trigger] self.resolutions.slots()[d] is Some
                ==> next.resolutions.slots()[d] == self.resolutions.slots()[d]
    }

    /// The functions `fs` and the classes `cs` are recorded.
    closed spec fn infos_at(
        &self,
        fs: Seq<(Identifier, Function, FrameKind)>,
        cs: Seq<(usize, Identifier, Seq<(Seq<u8>, usize)>)>,
    ) -> bool {
        &&& forall|i: int| 0 <= i < fs.len() ==> records_function(self.function_infos.slots(), #[trigger] fs[i])
        &&& forall|i: int| 0 <= i < cs.len() ==> records_class(self.class_infos.slots(), #[trigger] cs[i])
    }

    /// The functions and classes recorded in `self` are recorded alike in
    /// `next`.
    closed spec fn keeps_infos(&self, next: Self) -> bool {
        &&& forall|d: int|
            0 <= d < self.function_infos.slots().len() && #[trigger] self.function_infos.slots()[d] is Some
                ==> next.function_infos.slots()[d] == self.function_infos.slots()[d]
        &&& forall|d: int|
            0 <= d < self.class_infos.slots().len() && #[trigger] self.class_infos.slots()[d] is Some
                ==> next.class_infos.slots()[d] == self.class_infos.slots()[d]
    }

    /// `next` is `self` after walking a node that fills `decs` and declares
    /// at most `w` locals: the scopes are as they were.
    closed spec fn stepped(&self, next: Self, decs: Seq<(int, usize)>, w: int) -> bool {
        &&& self.moved(next, decs, w)
        &&& next.shape() == self.shape()
    }

    /// `self` can walk a node that fills `decs` and declares at most `w`
    /// locals.
    closed spec fn ready(&self, decs: Seq<(int, usize)>, w: int) -> bool {
        &&& self.wf()
        &&& self.fresh(decs)
        &&& self.weight() + w <= usize::MAX
    }
}

/// Some scope of the context declares `word`.
pub(crate) open spec fn ctx_holds(c: Context, word: Seq<u8>) -> bool {
    innermost(c.scopes@, word, c.scopes@.len() as int) >= 0
}

/// `slot` is the local slot of the innermost declaration of `word` in the
/// context.
pub(crate) open spec fn local_slot_of(c: Context, word: Seq<u8>, slot: usize) -> bool {
    let j = innermost(c.scopes@, word, c.scopes@.len() as int);
    &&& 0 <= j < c.scopes@.len()
    &&& exists|i: int|
        0 <= i < c.scopes@[j].names@.len() && name_str(#[trigger] c.scopes@[j].names@[i]) == word && slot == c.slot(
            j,
            i,
        ) as usize
}

/// A frame that declares `word` or captures it.
pub(crate) open spec fn frame_knows(f: Frame, word: Seq<u8>) -> bool {
    ctx_holds(f.context, word) || f.upvalue(word) is Some
}

proof fn lemma_innermost_same(a: Seq<crate::name_resolution::Scope>, b: Seq<crate::name_resolution::Scope>, word: Seq<u8>)
    requires
        same_names(a, b),
    ensures
        innermost(a, word, a.len() as int) == innermost(b, word, b.len() as int),
{
    lemma_innermost_same_k(a, b, word, a.len() as int);
}

proof fn lemma_innermost_same_k(a: Seq<crate::name_resolution::Scope>, b: Seq<crate::name_resolution::Scope>, word: Seq<u8>, k: int)
    requires
        same_names(a, b),
        0 <= k <= a.len(),
    ensures
        innermost(a, word, k) == innermost(b, word, k),
    decreases k,
{
    if k > 0 {
        assert(a[k - 1].names@ == b[k - 1].names@);
        assert(a[k - 1].holds(word) == b[k - 1].holds(word));
        lemma_innermost_same_k(a, b, word, k - 1);
    }
}

/// Two contexts whose scopes sit in the same blocks.
pub(crate) open spec fn ctx_match(a: Context, b: Context) -> bool {
    &&& a.scopes@.len() == b.scopes@.len()
    &&& forall|j: int| 0 <= j < a.scopes@.len() ==> (#[trigger] a.scopes@[j]).block == b.scopes@[j].block
}

/// Two frame stacks of the same functions, kinds and scope blocks.
pub(crate) open spec fn frames_match(a: Seq<Frame>, b: Seq<Frame>) -> bool {
    &&& a.len() == b.len()
    &&& forall|f: int|
        0 <= f < a.len() ==> (#[trigger] a[f]).function == b[f].function && a[f].kind == b[f].kind
            && ctx_match(a[f].context, b[f].context)
}

proof fn lemma_ctx_blocks<'ast>(a: Context<'ast>, b: Context<'ast>)
    requires
        ctx_match(a, b),
    ensures
        ctx_blocks(a) == ctx_blocks(b),
{
    assert(ctx_blocks(a) =~= ctx_blocks(b));
}

proof fn lemma_frames_shape<'ast>(a: Seq<Frame<'ast>>, b: Seq<Frame<'ast>>)
    requires
        frames_match(a, b),
    ensures
        a.map_values(|f: Frame<'ast>| frame_shape(f)) == b.map_values(|f: Frame<'ast>| frame_shape(f)),
{
    assert forall|f: int| 0 <= f < a.len() implies frame_shape(a[f]) == frame_shape(b[f]) by {
        lemma_ctx_blocks(a[f].context, b[f].context);
    }
    assert(a.map_values(|f: Frame<'ast>| frame_shape(f)) =~= b.map_values(|f: Frame<'ast>| frame_shape(f)));
}

impl<'ast> NameResolutionPass<'ast> {
    /// Everything but the frames' captures and capture marks is unchanged.
    closed spec fn only_captures(&self, next: Self) -> bool {
        &&& next.globals@ == self.globals@
        &&& next.errors@ == self.errors@
        &&& next.resolutions == self.resolutions
        &&& next.block_locals == self.block_locals
        &&& next.function_infos == self.function_infos
        &&& next.class_infos == self.class_infos
        &&& next.global_context.local_count == self.global_context.local_count
        &&& ctx_match(next.global_context, self.global_context)
        &&& frames_match(next.frames@, self.frames@)
        &&& forall|f: int|
            0 <= f < self.frames@.len() ==> (#[trigger] next.frames@[f]).context.local_count
                == self.frames@[f].context.local_count
    }

    proof fn lemma_only_captures(&self, next: Self)
        requires
            self.wf(),
            next.wf(),
            self.only_captures(next),
        ensures
            self.stepped(next, seq![], 0),
    {
        lemma_ctx_blocks(next.global_context, self.global_context);
        lemma_frames_shape(next.frames@, self.frames@);
        lemma_frames_weight_same(next.frames@, self.frames@, self.frames@.len() as int);
        assert forall|x: (int, usize)| #[trigger] next.filled(x) == (self.filled(x) || seq![].contains(x)) by {
        }
    }

    /// Adds a capture of `name` to each frame from `frame` on, each
    /// capturing what the one below it captured, the first capturing
    /// `place`.
    fn propagate_capture(&mut self, frame: usize, name: Name<'ast>, place: Place) -> (r: Resolution)
        requires
            old(self).wf(),
            frame <= old(self).frames@.len(),
        ensures
            final(self).wf(),
            old(self).only_captures(*final(self)),
            final(self).global_context == old(self).global_context,
            forall|f: int| 0 <= f < old(self).frames@.len() ==> (#[trigger] final(self).frames@[f]).context == old(self).frames@[f].context,
            forall|f: int| 0 <= f < frame ==> (#[trigger] final(self).frames@[f]).capture_names@ == old(self).frames@[f].capture_names@,
            forall|f: int| frame <= f < old(self).frames@.len() ==> (#[trigger] final(self).frames@[f]).capture_names@
                == old(self).frames@[f].capture_names@.push((name, old(self).frames@[f].captures@.len() as usize)),
            r == if frame < old(self).frames@.len() {
                Resolution::Upvalue {
                    upvalue_index: old(self).frames@[old(self).frames@.len() - 1].captures@.len() as usize,
                }
            } else {
                resolution_of(place)
            },
    {
        let ghost frames0 = self.frames@;
        let n = self.frames.len();
        let mut f = frame;
        let mut place = place;
        let ghost place0 = place;
        while f < n
            invariant
                frame <= f <= n,
                n == self.frames@.len(),
                n == frames0.len(),
                frames0 == old(self).frames@,
                old(self).wf(),
                self.wf(),
                self.globals@ == old(self).globals@,
                self.errors@ == old(self).errors@,
                self.resolutions == old(self).resolutions,
                self.block_locals == old(self).block_locals,
                self.function_infos == old(self).function_infos,
                self.class_infos == old(self).class_infos,
                self.global_context == old(self).global_context,
                forall|g: int| 0 <= g < n ==> (#[trigger] self.frames@[g]).context == frames0[g].context
                    && self.frames@[g].function == frames0[g].function && self.frames@[g].kind == frames0[g].kind,
                forall|g: int| f <= g < n ==> (#[trigger] self.frames@[g]).captures@ == frames0[g].captures@,
                forall|g: int| (0 <= g < frame || f <= g < n) ==> (#[trigger] self.frames@[g]).capture_names@ == frames0[g].capture_names@,
                forall|g: int| frame <= g < f ==> (#[trigger] self.frames@[g]).capture_names@
                    == frames0[g].capture_names@.push((name, frames0[g].captures@.len() as usize)),
                place == if f == frame {
                    place0
                } else {
                    Place::Upvalue { upvalue_index: frames0[f - 1].captures@.len() as usize }
                },
            decreases n - f,
        {
            let upvalue_index = self.frames[f].add_capture(name, place);
            place = Place::Upvalue { upvalue_index };
            f += 1;
        }
        proof {
            lemma_ctx_blocks(self.global_context, old(self).global_context);
        }
        Resolution::from(place)
    }

    /// What `name` refers to from the innermost frame: a local of it, an
    /// upvalue (captured on the way down), or a global.
    fn resolve_identifier(&mut self, name: Name<'ast>) -> (r: Resolution)
        requires
            old(self).wf(),
        ensures
            final(self).wf(),
            old(self).only_captures(*final(self)),
            ({
                let word = name_str(name);
                let n = old(self).frames@.len();
                match r {
                    Resolution::Global => {
                        &&& forall|f: int| 0 <= f < n ==> !frame_knows(#[trigger] old(self).frames@[f], word)
                        &&& !ctx_holds(old(self).global_context, word)
                    },
                    Resolution::Local { local_index } => if n > 0 {
                        ctx_holds(old(self).frames@[n - 1].context, word) && local_slot_of(
                            old(self).frames@[n - 1].context,
                            word,
                            local_index,
                        )
                    } else {
                        ctx_holds(old(self).global_context, word) && local_slot_of(
                            old(self).global_context,
                            word,
                            local_index,
                        )
                    },
                    Resolution::Upvalue { upvalue_index } => {
                        &&& n > 0
                        &&& final(self).frames@[n - 1].upvalue(word) == Some(upvalue_index)
                    },
                }
            }),
            old(self).frames@.len() == 0 ==> r == flat_lookup(old(self).flat_view(), name_str(name))
                && final(self).flat_view() == old(self).flat_view(),
    {
        let ghost frames0 = self.frames@;
        let ghost word = name_str(name);
        let n = self.frames.len();
        let mut frame_index = self.frames.len();
        let mut and_capture = false;
        while frame_index > 0
            invariant
                frame_index <= n,
                n == self.frames@.len(),
                frames0 == old(self).frames@,
                word == name_str(name),
                old(self).wf(),
                self.wf(),
                old(self).only_captures(*self),
                *self == *old(self) || frame_index < n,
                forall|g: int| 0 <= g < n ==> (#[trigger] self.frames@[g]).capture_names@ == frames0[g].capture_names@
                    && self.frames@[g].captures@ == frames0[g].captures@
                    && same_names(self.frames@[g].context.scopes@, frames0[g].context.scopes@),
                forall|g: int| frame_index <= g < n ==> !frame_knows(#[trigger] frames0[g], word),
                self.global_context == old(self).global_context,
                and_capture == (frame_index < n),
            decreases frame_index,
        {
            let ghost before = self.frames@[frame_index - 1];
            let found = self.frames[frame_index - 1].resolve(name, and_capture);
            proof {
                lemma_innermost_same(before.context.scopes@, frames0[frame_index - 1].context.scopes@, word);
            }
            match found {
                Some(capture) => {
                    let ghost mid = *self;
                    let r = self.propagate_capture(frame_index, name, capture);
                    proof {
                        if frame_index < n {
                            assert(self.frames@[n - 1].capture_names@ == mid.frames@[n - 1].capture_names@.push(
                                (name, mid.frames@[n - 1].captures@.len() as usize),
                            ));
                            assert(captured(self.frames@[n - 1].capture_names@, word) == Some(
                                mid.frames@[n - 1].captures@.len() as usize,
                            ));
                        } else {
                            match capture {
                                Place::Local { local_index } => {
                                    assert(before == old(self).frames@[n - 1]);
                                    let ctx = before.context;
                                    let j = innermost(ctx.scopes@, word, ctx.scopes@.len() as int);
                                    lemma_innermost_range(ctx.scopes@, word, ctx.scopes@.len() as int);
                                    assert(j >= 0);
                                    let i = choose|i: int|
                                        0 <= i < ctx.scopes@[j].names@.len() && name_str(
                                            #[trigger] ctx.scopes@[j].names@[i],
                                        ) == word && found == Some(
                                            Place::Local { local_index: ctx.slot(j, i) as usize },
                                        );
                                    assert(0 <= i < ctx.scopes@[j].names@.len());
                                    assert(name_str(ctx.scopes@[j].names@[i]) == word);
                                    assert(local_index == ctx.slot(j, i) as usize);
                                    assert(local_slot_of(ctx, word, local_index));
                                },
                                Place::Upvalue { upvalue_index } => {
                                    assert(self.frames@[n - 1].capture_names@ == mid.frames@[n - 1].capture_names@);
                                },
                            }
                        }
                    }
                    return r;
                },
                None => {},
            }
            frame_index -= 1;
            and_capture = true;
        }
        let ghost global0 = self.global_context;
        proof {
            if n == 0 {
                lemma_innermost_flat(global0.scopes@, word, global0.scopes@.len() as int);
                lemma_sum_flat(global0.scopes@, global0.scopes@.len() as int);
            }
        }
        match self.global_context.resolve(name, and_capture) {
            Some(local_index) => {
                let ghost mid = *self;
                proof {
                    if n == 0 {
                        let j = innermost(global0.scopes@, word, global0.scopes@.len() as int);
                        let i = local_index - global0.slot(j, 0);
                        assert(global0.scopes@[j].wf());
                        lemma_first_index_distinct(global0.scopes@[j].names@, word, i);
                        lemma_sum_flat(global0.scopes@, j);
                        assert(scopes_flat(global0.scopes@)[j] == scope_flat(global0.scopes@[j]));
                        assert(scopes_flat(self.global_context.scopes@) =~= scopes_flat(global0.scopes@)) by {
                            assert forall|k: int| 0 <= k < global0.scopes@.len() implies scopes_flat(self.global_context.scopes@)[k]
                                == scopes_flat(global0.scopes@)[k] by {
                                assert(self.global_context.scopes@[k].local_decls@ == global0.scopes@[k].local_decls@);
                                assert(self.global_context.scopes@[k].names@ == global0.scopes@[k].names@);
                            }
                        }
                        assert(mid.flat_view() =~= old(self).flat_view());
                    }
                }
                let r = self.propagate_capture(0, name, Place::Local { local_index });
                proof {
                    if n == 0 {
                        assert(self.frames@ =~= mid.frames@);
                        assert(self.flat_view() =~= mid.flat_view());
                        assert(r == Resolution::Local { local_index });
                    }
                    if n > 0 {
                        assert(self.frames@[n - 1].capture_names@ == mid.frames@[n - 1].capture_names@.push(
                            (name, mid.frames@[n - 1].captures@.len() as usize),
                        ));
                        assert(captured(self.frames@[n - 1].capture_names@, word) == Some(
                            mid.frames@[n - 1].captures@.len() as usize,
                        ));
                    }
                }
                r
            },
            None => {
                proof {
                    if n == 0 {
                        assert(scopes_flat(self.global_context.scopes@) =~= scopes_flat(global0.scopes@)) by {
                            assert forall|k: int| 0 <= k < global0.scopes@.len() implies scopes_flat(self.global_context.scopes@)[k]
                                == scopes_flat(global0.scopes@)[k] by {
                                assert(self.global_context.scopes@[k].local_decls@ == global0.scopes@[k].local_decls@);
                                assert(self.global_context.scopes@[k].names@ == global0.scopes@[k].names@);
                            }
                        }
                        assert(self.flat_view() =~= old(self).flat_view());
                    }
                }
                Resolution::Global
            },
        }
    }
}

/// The blocks of the innermost context of a shape.
pub(crate) open spec fn top_blocks<'ast>(sh: (Seq<&'ast BlockStmt>, Seq<(&'ast Function, FrameKind, Seq<&'ast BlockStmt>)>)) -> Seq<&'ast BlockStmt> {
    if sh.1.len() == 0 {
        sh.0
    } else {
        sh.1.last().2
    }
}

/// The shape with `blocks` as the blocks of its innermost context.
pub(crate) open spec fn with_top<'ast>(
    sh: (Seq<&'ast BlockStmt>, Seq<(&'ast Function, FrameKind, Seq<&'ast BlockStmt>)>),
    blocks: Seq<&'ast BlockStmt>,
) -> (Seq<&'ast BlockStmt>, Seq<(&'ast Function, FrameKind, Seq<&'ast BlockStmt>)>) {
    if sh.1.len() == 0 {
        (blocks, sh.1)
    } else {
        (sh.0, sh.1.update(sh.1.len() - 1, (sh.1.last().0, sh.1.last().1, blocks)))
    }
}

proof fn lemma_frames_weight_update(frames: Seq<Frame>, f: int, frame: Frame, k: int)
    requires
        0 <= f < frames.len(),
        0 <= k <= frames.len(),
    ensures
        frames_weight(frames.update(f, frame), k) == frames_weight(frames, k) + if f < k {
            frame.context.local_count - frames[f].context.local_count
        } else {
            0
        },
    decreases k,
{
    if k > 0 {
        lemma_frames_weight_update(frames, f, frame, k - 1);
    }
}

proof fn lemma_frames_weight_last(frames: Seq<Frame>)
    requires
        frames.len() > 0,
    ensures
        frames_weight(frames, frames.len() as int) == frames_weight(frames.drop_last(), frames.len() - 1)
            + frames.last().context.local_count,
        frames_weight(frames.drop_last(), frames.len() - 1) >= 0,
{
    lemma_frames_weight_same(frames, frames.drop_last(), frames.len() - 1);
    lemma_frames_weight_nonneg(frames.drop_last(), frames.len() - 1);
}

proof fn lemma_frames_weight_nonneg(frames: Seq<Frame>, k: int)
    requires
        0 <= k <= frames.len(),
    ensures
        frames_weight(frames, k) >= 0,
    decreases k,
{
    if k > 0 {
        lemma_frames_weight_nonneg(frames, k - 1);
    }
}

impl<'ast> NameResolutionPass<'ast> {
    proof fn lemma_seq(p0: Self, p1: Self, p2: Self, a: Seq<(int, usize)>, b: Seq<(int, usize)>, wa: int, wb: int)
        requires
            p0.moved(p1, a, wa),
            p1.moved(p2, b, wb),
        ensures
            p0.moved(p2, a + b, wa + wb),
    {
        assert forall|d: int|
            0 <= d < p0.resolutions.slots().len() && #[trigger] p0.resolutions.slots()[d] is Some implies p2.resolutions.slots()[d]
                == p0.resolutions.slots()[d] by {
            assert(p1.cap(0) == p0.cap(0));
            assert(p1.resolutions.slots()[d] == p0.resolutions.slots()[d]);
        }
        assert forall|d: int|
            0 <= d < p0.function_infos.slots().len() && #[trigger] p0.function_infos.slots()[d] is Some implies p2.function_infos.slots()[d]
                == p0.function_infos.slots()[d] by {
            assert(p1.cap(2) == p0.cap(2));
            assert(p1.function_infos.slots()[d] == p0.function_infos.slots()[d]);
        }
        assert forall|d: int|
            0 <= d < p0.class_infos.slots().len() && #[trigger] p0.class_infos.slots()[d] is Some implies p2.class_infos.slots()[d]
                == p0.class_infos.slots()[d] by {
            assert(p1.cap(3) == p0.cap(3));
            assert(p1.class_infos.slots()[d] == p0.class_infos.slots()[d]);
        }
        assert forall|x: (int, usize)| #[trigger] p2.filled(x) == (p0.filled(x) || (a + b).contains(x)) by {
            assert(p1.filled(x) == (p0.filled(x) || a.contains(x)));
            assert(p2.filled(x) == (p1.filled(x) || b.contains(x)));
            if a.contains(x) {
                let i = choose|i: int| 0 <= i < a.len() && a[i] == x;
                assert((a + b)[i] == x);
            }
            if b.contains(x) {
                let i = choose|i: int| 0 <= i < b.len() && b[i] == x;
                assert((a + b)[a.len() + i] == x);
            }
            if (a + b).contains(x) {
                let i = choose|i: int| 0 <= i < (a + b).len() && (a + b)[i] == x;
                if i < a.len() {
                    assert(a[i] == x);
                } else {
                    assert(b[i - a.len()] == x);
                }
            }
        }
    }

    proof fn lemma_split(p0: Self, p1: Self, a: Seq<(int, usize)>, b: Seq<(int, usize)>, wa: int, wb: int)
        requires
            p0.ready(a + b, wa + wb),
            0 <= wa,
            0 <= wb,
        ensures
            p0.ready(a, wa),
            p0.moved(p1, a, wa) ==> p1.ready(b, wb),
    {
        lemma_no_dups_append(a, b);
        assert forall|x: (int, usize)| a.contains(x) implies (a + b).contains(x) by {
            let i = choose|i: int| 0 <= i < a.len() && a[i] == x;
            assert((a + b)[i] == x);
        }
        assert forall|x: (int, usize)| b.contains(x) implies (a + b).contains(x) by {
            let i = choose|i: int| 0 <= i < b.len() && b[i] == x;
            assert((a + b)[a.len() + i] == x);
        }
        assert forall|x: (int, usize)| #[trigger] a.contains(x) implies 0 <= x.0 < 4 && x.1 < p0.cap(x.0)
            && !p0.filled(x) by {
            assert((a + b).contains(x));
            assert(!p0.filled(x));
        }
        if p0.moved(p1, a, wa) {
            assert forall|x: (int, usize)| #[trigger] b.contains(x) implies 0 <= x.0 < 4 && x.1 < p1.cap(x.0)
                && !p1.filled(x) by {
                assert((a + b).contains(x));
                assert(!p0.filled(x));
                assert(0 <= x.0 < 4);
                assert(p1.cap(x.0) == p0.cap(x.0));
            }
        }
    }

    proof fn lemma_weight_top(&self)
        requires
            self.wf(),
        ensures
            self.weight() >= self.global_context.local_count,
            self.frames@.len() > 0 ==> self.weight() >= self.frames@.last().context.local_count,
    {
        lemma_frames_weight_nonneg(self.frames@, self.frames@.len() as int);
        if self.frames@.len() > 0 {
            lemma_frames_weight_last(self.frames@);
        }
    }

    /// Remembers a use of an undeclared global, unless one is recorded.
    fn use_global(&mut self, identifier: &'ast Identifier)
        requires
            distinct_globals(old(self).globals@),
        ensures
            distinct_globals(final(self).globals@),
            final(self).global_context == old(self).global_context,
            final(self).frames == old(self).frames,
            final(self).resolutions == old(self).resolutions,
            final(self).block_locals == old(self).block_locals,
            final(self).function_infos == old(self).function_infos,
            final(self).class_infos == old(self).class_infos,
            final(self).errors == old(self).errors,
            final(self).globals@ == used_global(old(self).globals@, identifier),
    {
        let mut i: usize = 0;
        while i < self.globals.len()
            invariant
                i <= self.globals@.len(),
                *self == *old(self),
                distinct_globals(self.globals@),
                forall|j: int| 0 <= j < i ==> global_str(self.globals@[j].0) != identifier.value@,
            decreases self.globals@.len() - i,
        {
            let same = match &self.globals[i].0 {
                GlobalIdent::Identifier(other) => bytes_same(&other.value, &identifier.value),
                GlobalIdent::String(other) => bytes_same(other, &identifier.value),
            };
            if same {
                proof {
                    lemma_global_index_found(self.globals@, identifier.value@, i as int);
                }
                return;
            }
            i += 1;
        }
        proof {
            lemma_global_index_absent(self.globals@, identifier.value@);
        }
        self.globals.push((GlobalIdent::Identifier(identifier), GlobalResolution::Pending));
    }

    /// Defines a global at top level; redefining one is an error.
    fn define_global(&mut self, identifier: &'ast Identifier)
        requires
            distinct_globals(old(self).globals@),
        ensures
            distinct_globals(final(self).globals@),
            final(self).global_context == old(self).global_context,
            final(self).frames == old(self).frames,
            final(self).resolutions == old(self).resolutions,
            final(self).block_locals == old(self).block_locals,
            final(self).function_infos == old(self).function_infos,
            final(self).class_infos == old(self).class_infos,
            (final(self).globals@, final(self).errors@) == defined_global(
                old(self).globals@,
                old(self).errors@,
                identifier,
            ),
    {
        let mut i: usize = 0;
        while i < self.globals.len()
            invariant
                i <= self.globals@.len(),
                *self == *old(self),
                distinct_globals(self.globals@),
                forall|j: int| 0 <= j < i ==> global_str(self.globals@[j].0) != identifier.value@,
            decreases self.globals@.len() - i,
        {
            let same = match &self.globals[i].0 {
                GlobalIdent::Identifier(other) => bytes_same(&other.value, &identifier.value),
                GlobalIdent::String(other) => bytes_same(other, &identifier.value),
            };
            if same {
                proof {
                    lemma_global_index_found(self.globals@, identifier.value@, i as int);
                }
                let previous = self.globals[i].1;
                let ghost before = self.globals@;
                self.globals[i].1 = GlobalResolution::Resolved(identifier.span);
                proof {
                    assert forall|a: int, b: int| 0 <= a < b < self.globals@.len() implies global_str(
                        #[trigger] self.globals@[a].0,
                    ) != global_str(#[trigger] self.globals@[b].0) by {
                        assert(self.globals@[a].0 == before[a].0);
                        assert(self.globals@[b].0 == before[b].0);
                    }
                }
                match previous {
                    GlobalResolution::Resolved(original) => {
                        self.errors.push(
                            CompileError::ItemRedefined { original, redefinition: identifier.span },
                        );
                    },
                    GlobalResolution::Pending => {},
                }
                return;
            }
            i += 1;
        }
        proof {
            lemma_global_index_absent(self.globals@, identifier.value@);
        }
        self.globals.push(
            (GlobalIdent::Identifier(identifier), GlobalResolution::Resolved(identifier.span)),
        );
    }
}

impl<'ast> NameResolutionPass<'ast> {
    /// `r` is what a use of `word` in `self` resolves to, as recorded in
    /// `after`: a global only where no enclosing frame declares or captures
    /// it and no top-level scope declares it; the slot of its innermost
    /// declaration in the innermost frame (or, outside functions, in the
    /// top-level scopes); or the innermost frame's capture of it.
    spec fn resolved_as(self, after: Self, word: Seq<u8>, r: Option<Resolution>) -> bool {
        let n = self.frames@.len();
        match r {
            Some(Resolution::Global) => {
                &&& forall|f: int| 0 <= f < n ==> !frame_knows(#[trigger] self.frames@[f], word)
                &&& !ctx_holds(self.global_context, word)
            },
            Some(Resolution::Local { local_index }) => if n > 0 {
                local_slot_of(self.frames@[n - 1].context, word, local_index)
            } else {
                local_slot_of(self.global_context, word, local_index)
            },
            Some(Resolution::Upvalue { upvalue_index }) => {
                &&& n > 0
                &&& after.frames@[n - 1].upvalue(word) == Some(upvalue_index)
            },
            None => false,
        }
    }

    /// Resolves a use of `name` and records it under `decoration`; a use of
    /// an undeclared global is remembered, a `this` with nothing to refer to
    /// is an error.
    fn resolve(&mut self, name: Name<'ast>, decoration: Decoration<NameDecoration>)
        requires
            old(self).ready(seq![(0int, decoration.spec_index())], 0),
        ensures
            old(self).stepped(*final(self), seq![(0int, decoration.spec_index())], 0),
            old(self).at_top() ==> final(self).global_at(decoration.spec_index()),
            old(self).globals_kept(*final(self), seq![]),
            old(self).at_top() ==> match name {
                Name::Ident(identifier) => final(self).has_global(identifier.value@),
                Name::This(_) => true,
            },
            old(self).frames@.len() == 0 ==> final(self).flat_view() == flat_use(
                old(self).flat_view(),
                decoration.spec_index(),
                name_str(name),
                name_span(name),
                name is This,
            ),
            old(self).resolved_as(
                *final(self),
                name_str(name),
                final(self).resolutions.slots()[decoration.spec_index() as int],
            ),
    {
        let ghost p0 = *self;
        let resolution = self.resolve_identifier(name);
        proof {
            p0.lemma_only_captures(*self);
        }
        let ghost p1 = *self;
        match resolution {
            Resolution::Global => {
                match name {
                    Name::Ident(identifier) => {
                        self.use_global(identifier);
                        proof {
                            Self::lemma_used(p1, *self, identifier);
                            lemma_used_flat(p1.globals@, identifier);
                        }
                    },
                    Name::This(span) => self.errors.push(CompileError::UndefinedItem { span }),
                }
            },
            _ => {},
        }
        let ghost p2 = *self;
        proof {
            if p2.globals@ == p1.globals@ {
                Self::lemma_globals_same(p1, p2);
            }
            Self::lemma_globals_same(p0, p1);
            Self::lemma_kept_then(p0, p1, p2, seq![], seq![]);
            assert(seq![] + seq![] =~= Seq::<Seq<u8>>::empty());
        }
        proof {
            assert(p0.fresh(seq![(0int, decoration.spec_index())]));
            assert(seq![(0int, decoration.spec_index())][0] == (0int, decoration.spec_index()));
            assert(seq![(0int, decoration.spec_index())].contains((0int, decoration.spec_index())));
        }
        let ghost p3 = *self;
        self.resolutions.insert(decoration, resolution);
        proof {
            if p0.frames@.len() == 0 {
                let m = p0.flat_view();
                let r = flat_lookup(m, name_str(name));
                assert(resolution == r);
                let m1 = if r == Resolution::Global {
                    if name is This {
                        Flat { errors: m.errors.push(CompileError::UndefinedItem { span: name_span(name) }), ..m }
                    } else {
                        Flat { globals: use_global_flat(m.globals, name_str(name), name_span(name)), ..m }
                    }
                } else {
                    m
                };
                assert(p3.flat_view() =~= m1);
                assert(self.flat_view() =~= flat_use(m, decoration.spec_index(), name_str(name), name_span(name), name is This));
            }
        }
        proof {
            let d = (0int, decoration.spec_index());
            assert forall|x: (int, usize)| #[trigger] self.filled(x) == (p0.filled(x) || seq![d].contains(x)) by {
                assert(p1.filled(x) == p0.filled(x));
                if x == d {
                    assert(seq![d][0] == x);
                }
                if seq![d].contains(x) {
                    assert(x == d);
                }
            }
            assert(self.shape() == p1.shape());
        }
    }

    /// Declares `name` in the innermost scope; at top level outside any
    /// block it defines a global.
    fn declare(&mut self, name: Name<'ast>)
        requires
            old(self).ready(seq![], 1),
        ensures
            old(self).stepped(*final(self), seq![], 1),
            final(self).resolutions == old(self).resolutions,
            final(self).block_locals == old(self).block_locals,
            final(self).function_infos == old(self).function_infos,
            final(self).class_infos == old(self).class_infos,
            old(self).globals_kept(
                *final(self),
                match name {
                    Name::Ident(identifier) => seq![identifier.value@],
                    Name::This(_) => seq![],
                },
            ),
            old(self).frames@.len() == 0 && name is Ident ==> final(self).flat_view() == flat_declare(
                old(self).flat_view(),
                name_str(name),
                name_span(name),
            ),
            ({
                let n = old(self).frames@.len();
                if n > 0 {
                    &&& final(self).frames@.len() == n
                    &&& forall|f: int| 0 <= f < n - 1 ==> #[trigger] final(self).frames@[f] == old(self).frames@[f]
                    &&& final(self).frames@[n - 1].function == old(self).frames@[n - 1].function
                    &&& final(self).frames@[n - 1].kind == old(self).frames@[n - 1].kind
                    &&& final(self).frames@[n - 1].capture_names@ == old(self).frames@[n - 1].capture_names@
                    &&& final(self).frames@[n - 1].captures@ == old(self).frames@[n - 1].captures@
                    &&& declared_with_errors(
                        old(self).frames@[n - 1].context,
                        final(self).frames@[n - 1].context,
                        name,
                        old(self).errors@,
                        final(self).errors@,
                    )
                    &&& final(self).global_context == old(self).global_context
                    &&& final(self).globals == old(self).globals
                } else if old(self).global_context.scopes@.len() > 0 {
                    &&& final(self).frames == old(self).frames
                    &&& final(self).globals == old(self).globals
                    &&& declared_with_errors(
                        old(self).global_context,
                        final(self).global_context,
                        name,
                        old(self).errors@,
                        final(self).errors@,
                    )
                } else {
                    &&& final(self).frames == old(self).frames
                    &&& final(self).global_context.scopes@ == old(self).global_context.scopes@
                    &&& final(self).global_context.local_count == old(self).global_context.local_count
                    &&& match name {
                        Name::Ident(identifier) => (final(self).globals@, final(self).errors@) == defined_global(
                            old(self).globals@,
                            old(self).errors@,
                            identifier,
                        ),
                        Name::This(_) => final(self).globals == old(self).globals && final(self).errors
                            == old(self).errors,
                    }
                }
            }),
    {
        let ghost p0 = *self;
        proof {
            p0.lemma_weight_top();
        }
        let n = self.frames.len();
        if n > 0 {
            let ghost frames0 = self.frames@;
            let declared = self.frames[n - 1].declare(name);
            proof {
                let f1 = self.frames@[n - 1];
                lemma_frames_weight_update(frames0, n - 1, f1, n as int);
                assert(self.frames@ == frames0.update(n - 1, f1));
                assert(frames_match(self.frames@, frames0));
                lemma_frames_shape(self.frames@, frames0);
            }
            match declared {
                Err(error) => self.errors.push(error),
                Ok(()) => {},
            }
            proof {
                assert(declared_as(p0.frames@[n - 1].context, self.frames@[n - 1].context, name, Some(declared)));
                assert(declared_with_errors(
                    p0.frames@[n - 1].context,
                    self.frames@[n - 1].context,
                    name,
                    p0.errors@,
                    self.errors@,
                ));
            }
        } else {
            let declared = self.global_context.declare(name);
            proof {
                lemma_ctx_blocks(self.global_context, p0.global_context);
            }
            match declared {
                Some(Err(error)) => self.errors.push(error),
                Some(Ok(())) => {},
                None => {
                    match name {
                        Name::Ident(identifier) => self.define_global(identifier),
                        Name::This(_) => {},
                    }
                },
            }
            proof {
                if p0.global_context.scopes@.len() > 0 {
                    assert(declared_as(p0.global_context, self.global_context, name, Some(declared.unwrap())));
                    assert(declared_with_errors(p0.global_context, self.global_context, name, p0.errors@, self.errors@));
                    lemma_declare_flat(p0.flat_view(), p0.global_context, self.global_context, name, declared.unwrap(), self.errors@);
                    assert(self.flat_view() =~= flat_declare(p0.flat_view(), name_str(name), name_span(name)));
                } else {
                    match name {
                        Name::Ident(identifier) => {
                            lemma_defined_flat(p0.globals@, p0.errors@, identifier);
                            lemma_global_pos(p0.globals@, identifier.value@);
                            assert(scopes_flat(self.global_context.scopes@) =~= scopes_flat(p0.global_context.scopes@));
                            assert(self.flat_view() =~= flat_declare(p0.flat_view(), name_str(name), name_span(name)));
                        },
                        Name::This(_) => {},
                    }
                }
            }
        }
        proof {
            let defs = match name {
                Name::Ident(identifier) => seq![identifier.value@],
                Name::This(_) => seq![],
            };
            if self.globals@ == p0.globals@ {
                Self::lemma_globals_same(p0, *self);
                Self::lemma_kept_widen(p0, *self, seq![], defs);
            } else {
                match name {
                    Name::Ident(identifier) => Self::lemma_defined(p0, *self, identifier),
                    Name::This(_) => {},
                }
            }
        }
        proof {
            assert(self.shape() == p0.shape());
            assert forall|x: (int, usize)| #[trigger] self.filled(x) == (p0.filled(x) || seq![].contains(x)) by {
            }
        }
    }

    /// Opens a scope for `block` in the innermost context.
    fn push_scope(&mut self, block: &'ast BlockStmt)
        requires
            old(self).wf(),
        ensures
            old(self).frames@.len() == 0 ==> final(self).flat_view() == flat_push(old(self).flat_view(), block.decoration.spec_index()),
            final(self).globals@ == old(self).globals@,
            final(self).wf(),
            final(self).shape() == with_top(old(self).shape(), top_blocks(old(self).shape()).push(block)),
            old(self).moved(*final(self), seq![], 0),
    {
        let ghost p0 = *self;
        let n = self.frames.len();
        if n > 0 {
            let ghost frames0 = self.frames@;
            self.frames[n - 1].context.push_scope(block);
            proof {
                let f1 = self.frames@[n - 1];
                lemma_frames_weight_update(frames0, n - 1, f1, n as int);
                assert(self.frames@ == frames0.update(n - 1, f1));
                assert(self.frames@.map_values(|f: Frame<'ast>| frame_shape(f)) =~= p0.shape().1.update(
                    n - 1,
                    (p0.shape().1.last().0, p0.shape().1.last().1, top_blocks(p0.shape()).push(block)),
                ));
            }
        } else {
            self.global_context.push_scope(block);
            proof {
                assert(self.frames@.map_values(|f: Frame<'ast>| frame_shape(f)) =~= p0.shape().1);
                let n = p0.global_context.scopes@.len() as int;
                assert(names_flat(self.global_context.scopes@[n].names@) =~= Seq::<(Seq<u8>, Span)>::empty());
                assert(self.global_context.scopes@[n].local_decls@ =~= Seq::<LocalDeclaration>::empty());
                assert(self.global_context.scopes@[n] == self.global_context.scopes@.last());
                assert forall|k: int| 0 <= k < n implies scopes_flat(self.global_context.scopes@)[k]
                    == scopes_flat(p0.global_context.scopes@)[k] by {
                    assert(self.global_context.scopes@.drop_last()[k] == self.global_context.scopes@[k]);
                }
                assert(scopes_flat(self.global_context.scopes@) =~= scopes_flat(p0.global_context.scopes@).push(
                    FlatScope { block: block.decoration.spec_index(), names: seq![], decls: seq![] },
                ));
                assert(self.flat_view() =~= flat_push(p0.flat_view(), block.decoration.spec_index()));
            }
        }
    }
}

impl<'ast> NameResolutionPass<'ast> {
    /// Closes the innermost scope and records its locals under its block.
    fn pop_scope(&mut self)
        requires
            old(self).wf(),
            top_blocks(old(self).shape()).len() >= if old(self).frames@.len() > 0 {
                2int
            } else {
                1int
            },
            old(self).fresh(seq![(1int, top_blocks(old(self).shape()).last().decoration.spec_index())]),
        ensures
            old(self).frames@.len() == 0 ==> final(self).flat_view() == flat_pop(old(self).flat_view()),
            final(self).globals@ == old(self).globals@,
            final(self).wf(),
            final(self).shape() == with_top(old(self).shape(), top_blocks(old(self).shape()).drop_last()),
            old(self).moved(
                *final(self),
                seq![(1int, top_blocks(old(self).shape()).last().decoration.spec_index())],
                0,
            ),
    {
        let ghost p0 = *self;
        let ghost d = (1int, top_blocks(p0.shape()).last().decoration.spec_index());
        proof {
            assert(seq![d][0] == d);
            assert(seq![d].contains(d));
        }
        let n = self.frames.len();
        let scope;
        if n > 0 {
            let ghost frames0 = self.frames@;
            scope = self.frames[n - 1].context.pop_scope().unwrap();
            proof {
                let f1 = self.frames@[n - 1];
                lemma_frames_weight_update(frames0, n - 1, f1, n as int);
                assert(self.frames@ == frames0.update(n - 1, f1));
                assert(self.frames@.map_values(|f: Frame<'ast>| frame_shape(f)) =~= p0.shape().1.update(
                    n - 1,
                    (p0.shape().1.last().0, p0.shape().1.last().1, top_blocks(p0.shape()).drop_last()),
                ));
            }
        } else {
            scope = self.global_context.pop_scope().unwrap();
            proof {
                assert(self.frames@.map_values(|f: Frame<'ast>| frame_shape(f)) =~= p0.shape().1);
            }
        }
        let ghost p1 = *self;
        let ghost popped = scope;
        self.block_locals.insert(scope.block.decoration, scope.local_decls);
        proof {
            if n == 0 {
                let m = p0.flat_view();
                let k = p0.global_context.scopes@.len() as int;
                assert(p0.global_context.scopes@.last() == p0.global_context.scopes@[k - 1]);
                assert(p0.global_context.scopes@[k - 1].wf());
                assert(m.scopes.last() == scope_flat(popped));
                assert(scopes_flat(p1.global_context.scopes@) =~= m.scopes.drop_last());
                assert(popped.local_decls@.len() == popped.names@.len());
                assert(self.flat_view().count == flat_pop(m).count);
                assert(self.flat_view().blocks =~= flat_pop(m).blocks);
                assert(self.flat_view().scopes =~= flat_pop(m).scopes);
                assert(self.flat_view().globals == flat_pop(m).globals);
                assert(self.flat_view().errors == flat_pop(m).errors);
                assert(self.flat_view().res == flat_pop(m).res);
                assert(self.flat_view() =~= flat_pop(m));
            }
        }
        proof {
            assert forall|x: (int, usize)| #[trigger] self.filled(x) == (p0.filled(x) || seq![d].contains(x)) by {
                if seq![d].contains(x) {
                    assert(x == d);
                }
            }
        }
    }

    /// Opens a frame for `function`, with a scope for its body that holds
    /// `this` (in a method) and the parameters.
    fn push_frame(&mut self, function: &'ast Function, kind: FrameKind)
        requires
            old(self).wf(),
            old(self).weight() + 1 + punctuated_items(function.params).len() <= usize::MAX,
        ensures
            final(self).globals@ == old(self).globals@,
            final(self).wf(),
            final(self).shape() == (old(self).shape().0, old(self).shape().1.push(
                (function, kind, seq![&function.body]),
            )),
            old(self).moved(*final(self), seq![], 1 + punctuated_items(function.params).len() as int),
    {
        let ghost p0 = *self;
        let mut frame = Frame::new(function, kind);
        frame.context.push_scope(&function.body);
        match kind {
            FrameKind::Method | FrameKind::Initializer => {
                match frame.declare(Name::This(Span::null())) {
                    Err(error) => self.errors.push(error),
                    Ok(()) => {},
                }
            },
            FrameKind::Function => {},
        }
        let params = function.params.iter();
        let mut i: usize = 0;
        while i < params.len()
            invariant
                i <= params@.len(),
                params@.len() == punctuated_items(function.params).len(),
                p0.weight() + 1 + params@.len() <= usize::MAX,
                frame.wf(),
                frame.function == function,
                frame.kind == kind,
                frame.context.scopes@.len() == 1,
                frame.context.blocks() == seq![&function.body],
                frame.context.local_count <= 1 + i,
                self.globals == p0.globals,
                self.global_context == p0.global_context,
                self.frames == p0.frames,
                self.resolutions == p0.resolutions,
                self.block_locals == p0.block_locals,
                self.function_infos == p0.function_infos,
                self.class_infos == p0.class_infos,
            decreases params@.len() - i,
        {
            proof {
                lemma_frames_weight_nonneg(p0.frames@, p0.frames@.len() as int);
            }
            let ghost blocks0 = frame.context.blocks();
            match frame.declare(Name::Ident(params[i])) {
                Err(error) => self.errors.push(error),
                Ok(()) => {},
            }
            proof {
                assert(frame.context.blocks() =~= blocks0);
            }
            i += 1;
        }
        let ghost frames0 = self.frames@;
        self.frames.push(frame);
        proof {
            lemma_frames_weight_last(self.frames@);
            assert(self.frames@.drop_last() =~= frames0);
            lemma_frames_weight_nonneg(p0.frames@, p0.frames@.len() as int);
            assert(self.frames@.map_values(|f: Frame<'ast>| frame_shape(f)) =~= p0.shape().1.push(
                (function, kind, seq![&function.body]),
            ));
            assert forall|x: (int, usize)| #[trigger] self.filled(x) == (p0.filled(x) || seq![].contains(x)) by {
            }
        }
    }

    /// Closes the innermost frame: records the locals of its body and what
    /// the function captures.
    fn pop_frame(&mut self, identifier: &'ast Identifier)
        requires
            old(self).wf(),
            old(self).frames@.len() > 0,
            top_blocks(old(self).shape()).len() == 1,
            old(self).fresh(seq![
                (1int, top_blocks(old(self).shape())[0].decoration.spec_index()),
                (2int, old(self).shape().1.last().0.decoration.spec_index()),
            ]),
        ensures
            final(self).globals@ == old(self).globals@,
            final(self).wf(),
            final(self).shape() == (old(self).shape().0, old(self).shape().1.drop_last()),
            old(self).moved(
                *final(self),
                seq![
                    (1int, top_blocks(old(self).shape())[0].decoration.spec_index()),
                    (2int, old(self).shape().1.last().0.decoration.spec_index()),
                ],
                0,
            ),
            records_function(
                final(self).function_infos.slots(),
                (*identifier, *old(self).shape().1.last().0, old(self).shape().1.last().1),
            ),
    {
        let ghost p0 = *self;
        let ghost d1 = (1int, top_blocks(p0.shape())[0].decoration.spec_index());
        let ghost d2 = (2int, p0.shape().1.last().0.decoration.spec_index());
        proof {
            let ds = seq![d1, d2];
            assert(ds[0] == d1 && ds[1] == d2);
            assert(ds.contains(d1) && ds.contains(d2));
            lemma_frames_weight_last(self.frames@);
        }
        proof {
            assert(p0.shape().1.last() == frame_shape(p0.frames@.last()));
        }
        let frame = self.frames.pop().unwrap();
        proof {
            assert(self.frames@ =~= p0.frames@.drop_last());
            assert(self.frames@.map_values(|f: Frame<'ast>| frame_shape(f)) =~= p0.shape().1.drop_last());
        }
        let Frame { function, mut context, captures, kind, .. } = frame;
        let scope = context.pop_scope().unwrap();
        self.block_locals.insert(scope.block.decoration, scope.local_decls);
        self.function_infos.insert(
            function.decoration,
            FunctionInfo { identifier, function, captures, kind },
        );
        proof {
            let ds = seq![d1, d2];
            assert forall|x: (int, usize)| #[trigger] self.filled(x) == (p0.filled(x) || ds.contains(x)) by {
                if ds.contains(x) {
                    let i = choose|i: int| 0 <= i < ds.len() && ds[i] == x;
                    assert(x == d1 || x == d2);
                }
            }
        }
    }

    /// The kind of the innermost frame, if any.
    fn frame_kind(&self) -> (r: Option<FrameKind>)
        ensures
            r == if self.shape().1.len() == 0 {
                None::<FrameKind>
            } else {
                Some(self.shape().1.last().1)
            },
    {
        let n = self.frames.len();
        if n > 0 {
            Some(self.frames[n - 1].kind)
        } else {
            None
        }
    }
}

impl<'ast> NameResolutionPass<'ast> {
    proof fn lemma_refl(p: Self)
        requires
            p.wf(),
        ensures
            p.stepped(p, seq![], 0),
    {
        assert forall|x: (int, usize)| #[trigger] p.filled(x) == (p.filled(x) || seq![].contains(x)) by {
        }
    }

    /// A walk that leaves the scopes as they were stays at the top level.
    proof fn lemma_stays_top(p0: Self, p1: Self, decs: Seq<(int, usize)>, w: int)
        requires
            p0.stepped(p1, decs, w),
            p0.at_top(),
        ensures
            p1.at_top(),
    {
        assert(p0.shape().1.len() == p1.shape().1.len());
        assert(p0.shape().0.len() == p1.shape().0.len());
    }

    /// Uses resolved to globals by a first walk stay so through a second,
    /// and with those of the second make up both.
    proof fn lemma_globals_then(
        p1: Self,
        p2: Self,
        a: Seq<(int, usize)>,
        b: Seq<(int, usize)>,
        decs: Seq<(int, usize)>,
        wb: int,
    )
        requires
            p1.globals_at(a),
            p1.moved(p2, decs, wb),
            p2.globals_at(b),
        ensures
            p2.globals_at(a + b),
    {
        assert forall|i: int| 0 <= i < (a + b).len() implies #[trigger] p2.global_at((a + b)[i].1) by {
            if i < a.len() {
                assert(p1.global_at(a[i].1));
                assert(p2.cap(0) == p1.cap(0));
            } else {
                assert(p2.global_at(b[i - a.len()].1));
            }
        }
    }

    /// The pass as plain values, as far as a walk outside any function
    /// uses it.
    closed spec fn flat_view(&self) -> Flat {
        Flat {
            globals: globals_flat(self.globals@),
            scopes: scopes_flat(self.global_context.scopes@),
            count: self.global_context.local_count as int,
            res: self.resolutions.slots(),
            blocks: self.block_locals.slots().map_values(
                |o: Option<Vec<LocalDeclaration>>|
                    match o {
                        Some(v) => Some(v@),
                        None => None,
                    },
            ),
            errors: self.errors@,
        }
    }

    /// A global named `w` is known.
    closed spec fn has_global(&self, w: Seq<u8>) -> bool {
        exists|i: int| 0 <= i < self.globals@.len() && global_str((#[trigger] self.globals@[i]).0) == w
    }

    /// Every name of `ws` is a known global.
    closed spec fn words_known(&self, ws: Seq<Seq<u8>>) -> bool {
        forall|k: int| 0 <= k < ws.len() ==> self.has_global(#[trigger] ws[k])
    }

    /// `next` keeps the globals of `self`, by name, and defines no global
    /// that `self` leaves undefined but one named in `defs`.
    closed spec fn globals_kept(&self, next: Self, defs: Seq<Seq<u8>>) -> bool {
        &&& self.globals@.len() <= next.globals@.len()
        &&& forall|i: int|
            0 <= i < self.globals@.len() ==> global_str((#[trigger] next.globals@[i]).0) == global_str(
                self.globals@[i].0,
            )
        &&& forall|i: int|
            0 <= i < next.globals@.len() && (#[trigger] next.globals@[i]).1 is Resolved ==> (i
                < self.globals@.len() && self.globals@[i].1 is Resolved) || defs.contains(
                global_str(next.globals@[i].0),
            )
    }

    proof fn lemma_globals_same(p: Self, q: Self)
        requires
            q.globals@ == p.globals@,
        ensures
            p.globals_kept(q, seq![]),
    {
    }

    proof fn lemma_kept_then(p0: Self, p1: Self, p2: Self, a: Seq<Seq<u8>>, b: Seq<Seq<u8>>)
        requires
            p0.globals_kept(p1, a),
            p1.globals_kept(p2, b),
        ensures
            p0.globals_kept(p2, a + b),
    {
        assert forall|i: int| 0 <= i < p0.globals@.len() implies global_str((#[trigger] p2.globals@[i]).0)
            == global_str(p0.globals@[i].0) by {
            assert(global_str(p1.globals@[i].0) == global_str(p0.globals@[i].0));
        }
        assert forall|i: int|
            0 <= i < p2.globals@.len() && (#[trigger] p2.globals@[i]).1 is Resolved implies (i
                < p0.globals@.len() && p0.globals@[i].1 is Resolved) || (a + b).contains(
                global_str(p2.globals@[i].0),
            ) by {
            let w = global_str(p2.globals@[i].0);
            if b.contains(w) {
                let k = choose|k: int| 0 <= k < b.len() && b[k] == w;
                assert((a + b)[a.len() + k] == w);
            } else {
                assert(i < p1.globals@.len() && p1.globals@[i].1 is Resolved);
                assert(global_str(p2.globals@[i].0) == global_str(p1.globals@[i].0));
                if !(i < p0.globals@.len() && p0.globals@[i].1 is Resolved) {
                    assert(a.contains(global_str(p1.globals@[i].0)));
                    let k = choose|k: int| 0 <= k < a.len() && a[k] == w;
                    assert((a + b)[k] == w);
                }
            }
        }
    }

    proof fn lemma_known_then(p1: Self, p2: Self, a: Seq<Seq<u8>>, b: Seq<Seq<u8>>, defs: Seq<Seq<u8>>)
        requires
            p1.words_known(a),
            p1.globals_kept(p2, defs),
            p2.words_known(b),
        ensures
            p2.words_known(a + b),
    {
        assert forall|k: int| 0 <= k < (a + b).len() implies p2.has_global(#[trigger] (a + b)[k]) by {
            if k < a.len() {
                assert((a + b)[k] == a[k]);
                assert(p1.has_global(a[k]));
                let i = choose|i: int| 0 <= i < p1.globals@.len() && global_str((#[trigger] p1.globals@[i]).0) == a[k];
                assert(global_str(p2.globals@[i].0) == a[k]);
            } else {
                assert((a + b)[k] == b[k - a.len()]);
            }
        }
    }

    proof fn lemma_used(p: Self, q: Self, identifier: &'ast Identifier)
        requires
            q.globals@ == used_global(p.globals@, identifier),
        ensures
            p.globals_kept(q, seq![]),
            q.has_global(identifier.value@),
    {
        lemma_global_index_word(p.globals@, identifier.value@);
        let i = global_index(p.globals@, identifier.value@);
        if i >= 0 {
            assert(global_str(q.globals@[i].0) == identifier.value@);
        } else {
            let n = p.globals@.len() as int;
            assert(global_str(q.globals@[n].0) == identifier.value@);
            assert forall|j: int| 0 <= j < p.globals@.len() implies global_str((#[trigger] q.globals@[j]).0) == global_str(p.globals@[j].0) by {
                assert(q.globals@[j] == p.globals@[j]);
            }
            assert forall|j: int| 0 <= j < q.globals@.len() && (#[trigger] q.globals@[j]).1 is Resolved implies (j
                < p.globals@.len() && p.globals@[j].1 is Resolved) || seq![].contains(global_str(q.globals@[j].0)) by {
                if j < n {
                    assert(q.globals@[j] == p.globals@[j]);
                }
            }
        }
    }

    proof fn lemma_defined(p: Self, q: Self, identifier: &'ast Identifier)
        requires
            (q.globals@, q.errors@) == defined_global(p.globals@, p.errors@, identifier),
        ensures
            p.globals_kept(q, seq![identifier.value@]),
    {
        lemma_global_index_word(p.globals@, identifier.value@);
        let w = identifier.value@;
        let i = global_index(p.globals@, w);
        assert(seq![w][0] == w);
        if i >= 0 {
            assert forall|j: int| 0 <= j < p.globals@.len() implies global_str((#[trigger] q.globals@[j]).0) == global_str(p.globals@[j].0) by {
                if j != i {
                    assert(q.globals@[j] == p.globals@[j]);
                }
            }
            assert forall|j: int| 0 <= j < q.globals@.len() && (#[trigger] q.globals@[j]).1 is Resolved implies (j
                < p.globals@.len() && p.globals@[j].1 is Resolved) || seq![w].contains(global_str(q.globals@[j].0)) by {
                if j != i {
                    assert(q.globals@[j] == p.globals@[j]);
                } else {
                    assert(global_str(q.globals@[j].0) == w);
                }
            }
        } else {
            let n = p.globals@.len() as int;
            assert forall|j: int| 0 <= j < p.globals@.len() implies global_str((#[trigger] q.globals@[j]).0) == global_str(p.globals@[j].0) by {
                assert(q.globals@[j] == p.globals@[j]);
            }
            assert forall|j: int| 0 <= j < q.globals@.len() && (#[trigger] q.globals@[j]).1 is Resolved implies (j
                < p.globals@.len() && p.globals@[j].1 is Resolved) || seq![w].contains(global_str(q.globals@[j].0)) by {
                if j < n {
                    assert(q.globals@[j] == p.globals@[j]);
                } else {
                    assert(global_str(q.globals@[j].0) == w);
                }
            }
        }
    }

    proof fn lemma_kept_widen(p: Self, q: Self, a: Seq<Seq<u8>>, b: Seq<Seq<u8>>)
        requires
            p.globals_kept(q, a),
            forall|x: Seq<u8>| a.contains(x) ==> b.contains(x),
        ensures
            p.globals_kept(q, b),
    {
    }

    proof fn lemma_words_pair(p0: Self, p1: Self, p2: Self, wa: Seq<Seq<u8>>, wb: Seq<Seq<u8>>)
        requires
            p0.globals_kept(p1, seq![]),
            p1.globals_kept(p2, seq![]),
            p0.at_top() ==> p1.at_top() && p1.words_known(wa),
            p1.at_top() ==> p2.words_known(wb),
        ensures
            p0.globals_kept(p2, seq![]),
            p0.at_top() ==> p2.words_known(wa + wb),
    {
        Self::lemma_kept_then(p0, p1, p2, seq![], seq![]);
        assert(Seq::<Seq<u8>>::empty() + Seq::<Seq<u8>>::empty() =~= Seq::<Seq<u8>>::empty());
        if p0.at_top() {
            Self::lemma_known_then(p1, p2, wa, wb, seq![]);
        }
    }

    proof fn lemma_words_defs(
        p0: Self,
        p1: Self,
        p2: Self,
        wa: Seq<Seq<u8>>,
        wb: Seq<Seq<u8>>,
        da: Seq<Seq<u8>>,
        db: Seq<Seq<u8>>,
    )
        requires
            p0.globals_kept(p1, da),
            p1.globals_kept(p2, db),
            p0.at_top() ==> p1.at_top() && p1.words_known(wa),
            p1.at_top() ==> p2.words_known(wb),
        ensures
            p0.globals_kept(p2, da + db),
            p0.at_top() ==> p2.words_known(wa + wb),
    {
        Self::lemma_kept_then(p0, p1, p2, da, db);
        if p0.at_top() {
            Self::lemma_known_then(p1, p2, wa, wb, db);
        }
    }

    proof fn lemma_frames_len(p0: Self, p1: Self, decs: Seq<(int, usize)>, w: int)
        requires
            p0.stepped(p1, decs, w),
        ensures
            p1.frames@.len() == p0.frames@.len(),
    {
        assert(p0.shape().1.len() == p1.shape().1.len());
    }

    /// What a first walk recorded stays recorded through a second, and with
    /// what the second records makes up both.
    proof fn lemma_infos_then(
        p1: Self,
        p2: Self,
        fa: Seq<(Identifier, Function, FrameKind)>,
        ca: Seq<(usize, Identifier, Seq<(Seq<u8>, usize)>)>,
        fb: Seq<(Identifier, Function, FrameKind)>,
        cb: Seq<(usize, Identifier, Seq<(Seq<u8>, usize)>)>,
        decs: Seq<(int, usize)>,
        w: int,
    )
        requires
            p1.infos_at(fa, ca),
            p1.moved(p2, decs, w),
            p2.infos_at(fb, cb),
        ensures
            p2.infos_at(fa + fb, ca + cb),
    {
        assert(p2.cap(2) == p1.cap(2));
        assert(p2.cap(3) == p1.cap(3));
        assert forall|i: int| 0 <= i < (fa + fb).len() implies records_function(
            p2.function_infos.slots(),
            #[trigger] (fa + fb)[i],
        ) by {
            if i < fa.len() {
                assert((fa + fb)[i] == fa[i]);
                assert(records_function(p1.function_infos.slots(), fa[i]));
                let d = fa[i].1.decoration.spec_index() as int;
                assert(p2.function_infos.slots()[d] == p1.function_infos.slots()[d]);
            } else {
                assert((fa + fb)[i] == fb[i - fa.len()]);
            }
        }
        assert forall|i: int| 0 <= i < (ca + cb).len() implies records_class(
            p2.class_infos.slots(),
            #[trigger] (ca + cb)[i],
        ) by {
            if i < ca.len() {
                assert((ca + cb)[i] == ca[i]);
                assert(records_class(p1.class_infos.slots(), ca[i]));
                let d = ca[i].0 as int;
                assert(p2.class_infos.slots()[d] == p1.class_infos.slots()[d]);
            } else {
                assert((ca + cb)[i] == cb[i - ca.len()]);
            }
        }
    }

    proof fn lemma_infos_keep(
        p1: Self,
        p2: Self,
        fa: Seq<(Identifier, Function, FrameKind)>,
        ca: Seq<(usize, Identifier, Seq<(Seq<u8>, usize)>)>,
        decs: Seq<(int, usize)>,
        w: int,
    )
        requires
            p1.infos_at(fa, ca),
            p1.moved(p2, decs, w),
        ensures
            p2.infos_at(fa, ca),
    {
        assert(p2.infos_at(seq![], seq![]));
        Self::lemma_infos_then(p1, p2, fa, ca, seq![], seq![], decs, w);
        assert(fa + seq![] =~= fa);
        assert(ca + seq![] =~= ca);
    }

    /// Walking two nodes in turn: the second can be walked after the first,
    /// and together they fill both nodes' decorations.
    proof fn lemma_then(p0: Self, p1: Self, p2: Self, a: Seq<(int, usize)>, b: Seq<(int, usize)>, wa: int, wb: int)
        requires
            p0.ready(a + b, wa + wb),
            0 <= wa,
            0 <= wb,
            p0.moved(p1, a, wa),
            p1.moved(p2, b, wb),
        ensures
            p0.moved(p2, a + b, wa + wb),
    {
        Self::lemma_seq(p0, p1, p2, a, b, wa, wb);
    }

    fn visit_expr(&mut self, e: &'ast Expr)
        requires
            old(self).ready(expr_decs(*e), 0),
        ensures
            old(self).stepped(*final(self), expr_decs(*e), 0),
            old(self).at_top() ==> final(self).globals_at(expr_decs(*e)),
            old(self).globals_kept(*final(self), seq![]),
            old(self).at_top() ==> final(self).words_known(expr_words(*e)),
            old(self).frames@.len() == 0 ==> final(self).flat_view() == flat_expr(old(self).flat_view(), *e),
        decreases e,
    {
        let ghost p0 = *self;
        match e {
            Expr::Literal(_) => {
                proof {
                    Self::lemma_refl(p0);
                    Self::lemma_globals_same(p0, *self);
                }
            },
            Expr::Unary(x) => {
                self.visit_expr(&x.inner);
            },
            Expr::Binary(x) => {
                let ghost a = expr_decs(*x.left);
                let ghost b = expr_decs(*x.right);
                proof {
                    Self::lemma_split(p0, p0, a, b, 0, 0);
                }
                self.visit_expr(&x.left);
                let ghost p1 = *self;
                proof {
                    Self::lemma_split(p0, p1, a, b, 0, 0);
                    Self::lemma_frames_len(p0, p1, a, 0);
                }
                self.visit_expr(&x.right);
                proof {
                    Self::lemma_then(p0, p1, *self, a, b, 0, 0);
                    if p0.at_top() {
                        Self::lemma_stays_top(p0, p1, a, 0);
                        Self::lemma_globals_then(p1, *self, a, b, b, 0);
                    }
                    Self::lemma_words_pair(p0, p1, *self, expr_words(*x.left), expr_words(*x.right));
                }
            },
            Expr::Grouping(x) => {
                self.visit_expr(&x.inner);
            },
            Expr::Variable(x) => {
                self.resolve(Name::Ident(&x.name.identifier), x.name.decoration);
                proof {
                    assert(expr_decs(*e)[0].1 == x.name.decoration.spec_index());
                    assert(expr_words(*e)[0] == x.name.identifier.value@);
                }
            },
            Expr::Assign(x) => {
                let ghost a = expr_decs(*x.expr);
                let ghost b = seq![(0int, x.name.decoration.spec_index())];
                proof {
                    Self::lemma_split(p0, p0, a, b, 0, 0);
                }
                self.visit_expr(&x.expr);
                let ghost p1 = *self;
                proof {
                    Self::lemma_split(p0, p1, a, b, 0, 0);
                    Self::lemma_frames_len(p0, p1, a, 0);
                }
                self.resolve(Name::Ident(&x.name.identifier), x.name.decoration);
                proof {
                    Self::lemma_then(p0, p1, *self, a, b, 0, 0);
                    if p0.at_top() {
                        Self::lemma_stays_top(p0, p1, a, 0);
                        assert(b[0].1 == x.name.decoration.spec_index());
                        Self::lemma_globals_then(p1, *self, a, b, b, 0);
                    }
                    let w = seq![x.name.identifier.value@];
                    assert(w[0] == x.name.identifier.value@);
                    Self::lemma_words_pair(p0, p1, *self, expr_words(*x.expr), w);
                }
            },
            Expr::Call(x) => {
                let ghost a = expr_decs(*x.target);
                let ghost b = args_decs(x.arguments, 0);
                proof {
                    Self::lemma_split(p0, p0, a, b, 0, 0);
                }
                self.visit_expr(&x.target);
                let ghost p1 = *self;
                proof {
                    Self::lemma_split(p0, p1, a, b, 0, 0);
                    Self::lemma_frames_len(p0, p1, a, 0);
                }
                self.visit_args(&x.arguments);
                proof {
                    Self::lemma_then(p0, p1, *self, a, b, 0, 0);
                    if p0.at_top() {
                        Self::lemma_stays_top(p0, p1, a, 0);
                        Self::lemma_globals_then(p1, *self, a, b, b, 0);
                    }
                    Self::lemma_words_pair(p0, p1, *self, expr_words(*x.target), args_words(x.arguments, 0));
                }
            },
            Expr::Get(x) => {
                self.visit_expr(&x.target);
            },
            Expr::SetField(x) => {
                let ghost a = expr_decs(*x.target);
                let ghost b = expr_decs(*x.expr);
                proof {
                    Self::lemma_split(p0, p0, a, b, 0, 0);
                }
                self.visit_expr(&x.target);
                let ghost p1 = *self;
                proof {
                    Self::lemma_split(p0, p1, a, b, 0, 0);
                    Self::lemma_frames_len(p0, p1, a, 0);
                }
                self.visit_expr(&x.expr);
                proof {
                    Self::lemma_then(p0, p1, *self, a, b, 0, 0);
                    if p0.at_top() {
                        Self::lemma_stays_top(p0, p1, a, 0);
                        Self::lemma_globals_then(p1, *self, a, b, b, 0);
                    }
                    Self::lemma_words_pair(p0, p1, *self, expr_words(*x.target), expr_words(*x.expr));
                }
            },
            Expr::This(x) => {
                self.resolve(Name::This(x.this), x.decoration);
                proof {
                    assert(expr_decs(*e)[0].1 == x.decoration.spec_index());
                }
            },
            Expr::Super(_) => {
                proof {
                    Self::lemma_refl(p0);
                    Self::lemma_globals_same(p0, *self);
                }
            },
        }
    }

    /// Walks the arguments of a call, in order.
    fn visit_args(&mut self, p: &'ast Punctuated<Expr, Span>)
        requires
            old(self).ready(args_decs(*p, 0), 0),
        ensures
            old(self).stepped(*final(self), args_decs(*p, 0), 0),
            old(self).at_top() ==> final(self).globals_at(args_decs(*p, 0)),
            old(self).globals_kept(*final(self), seq![]),
            old(self).at_top() ==> final(self).words_known(args_words(*p, 0)),
            old(self).frames@.len() == 0 ==> final(self).flat_view() == flat_args(old(self).flat_view(), *p, 0),
        decreases p,
    {
        let ghost p0 = *self;
        let ghost mut consumed: Seq<(int, usize)> = seq![];
        let ghost mut done: Seq<Seq<u8>> = seq![];
        proof {
            Self::lemma_refl(p0);
            Self::lemma_globals_same(p0, p0);
            assert(args_decs(*p, 0) =~= consumed + args_decs(*p, 0));
            assert(args_words(*p, 0) =~= done + args_words(*p, 0));
        }
        let n = p.values.len();
        let mut i: usize = 0;
        while i < n
            invariant
                i <= n,
                n == p.values@.len(),
                args_decs(*p, 0) == consumed + args_decs(*p, i as int),
                p0.ready(args_decs(*p, 0), 0),
                p0.stepped(*self, consumed, 0),
                self.ready(args_decs(*p, i as int), 0),
                p0.at_top() ==> self.at_top() && self.globals_at(consumed),
                p0.globals_kept(*self, seq![]),
                p0.at_top() ==> self.words_known(done),
                args_words(*p, 0) == done + args_words(*p, i as int),
                self.frames@.len() == p0.frames@.len(),
                p0.frames@.len() == 0 ==> flat_args(self.flat_view(), *p, i as int) == flat_args(p0.flat_view(), *p, 0),
            decreases n - i,
        {
            let ghost pi = *self;
            let ghost a = expr_decs(p.values@[i as int].0);
            let ghost b = args_decs(*p, i + 1);
            proof {
                assert(args_decs(*p, i as int) == a + b);
                Self::lemma_split(pi, pi, a, b, 0, 0);
            }
            self.visit_expr(&p.values[i].0);
            proof {
                Self::lemma_frames_len(pi, *self, a, 0);
                Self::lemma_split(pi, *self, a, b, 0, 0);
                Self::lemma_seq(p0, pi, *self, consumed, a, 0, 0);
                assert(args_decs(*p, 0) =~= (consumed + a) + b);
                if p0.at_top() {
                    Self::lemma_stays_top(pi, *self, a, 0);
                    Self::lemma_globals_then(pi, *self, consumed, a, a, 0);
                }
                Self::lemma_words_pair(p0, pi, *self, done, expr_words(p.values@[i as int].0));
                assert(args_words(*p, 0) =~= (done + expr_words(p.values@[i as int].0)) + args_words(*p, i + 1));
                consumed = consumed + a;
                done = done + expr_words(p.values@[i as int].0);
            }
            i += 1;
        }
        match &p.last {
            Some(last) => {
                let ghost pi = *self;
                let ghost a = expr_decs(**last);
                proof {
                    assert(args_decs(*p, n as int) == a);
                }
                self.visit_expr(last);
                proof {
                    Self::lemma_seq(p0, pi, *self, consumed, a, 0, 0);
                    if p0.at_top() {
                        Self::lemma_globals_then(pi, *self, consumed, a, a, 0);
                        assert(consumed + a =~= args_decs(*p, 0));
                    }
                    Self::lemma_words_pair(p0, pi, *self, done, expr_words(**last));
                    assert(done + expr_words(**last) =~= args_words(*p, 0));
                }
            },
            None => {
                proof {
                    assert(args_decs(*p, n as int) == Seq::<(int, usize)>::empty());
                    assert(consumed =~= args_decs(*p, 0));
                    assert(done =~= args_words(*p, 0));
                }
            },
        }
    }
}

proof fn lemma_with_top<'ast>(
    sh: (Seq<&'ast BlockStmt>, Seq<(&'ast Function, FrameKind, Seq<&'ast BlockStmt>)>),
    b1: Seq<&'ast BlockStmt>,
    b2: Seq<&'ast BlockStmt>,
)
    ensures
        top_blocks(with_top(sh, b1)) == b1,
        with_top(with_top(sh, b1), b2) == with_top(sh, b2),
        with_top(sh, top_blocks(sh)) == sh,
        with_top(sh, b1).1.len() == sh.1.len(),
{
    if sh.1.len() > 0 {
        assert(with_top(with_top(sh, b1), b2).1 =~= with_top(sh, b2).1);
        assert(with_top(sh, top_blocks(sh)).1 =~= sh.1);
    }
}

/// The position of the first entry for `key`, or -1.
pub open spec fn key_index(entries: Seq<(Vec<u8>, usize)>, key: Seq<u8>) -> int
    decreases entries.len(),
{
    if entries.len() == 0 {
        -1
    } else if key_index(entries.drop_last(), key) >= 0 {
        key_index(entries.drop_last(), key)
    } else if entries.last().0@ == key {
        entries.len() - 1
    } else {
        -1
    }
}

proof fn lemma_key_index(entries: Seq<(Vec<u8>, usize)>, key: Seq<u8>, k: int)
    requires
        0 <= k <= entries.len(),
        forall|j: int| 0 <= j < k ==> (#[trigger] entries[j]).0@ != key,
    ensures
        key_index(entries.subrange(0, k), key) == -1,
    decreases k,
{
    if k > 0 {
        assert(entries.subrange(0, k).drop_last() =~= entries.subrange(0, k - 1));
        lemma_key_index(entries, key, k - 1);
    }
}

proof fn lemma_key_index_found(entries: Seq<(Vec<u8>, usize)>, key: Seq<u8>, i: int)
    requires
        0 <= i < entries.len(),
        entries[i].0@ == key,
        forall|j: int| 0 <= j < i ==> (#[trigger] entries[j]).0@ != key,
    ensures
        key_index(entries, key) == i,
    decreases entries.len(),
{
    if i < entries.len() - 1 {
        lemma_key_index_found(entries.drop_last(), key, i);
    } else {
        lemma_key_index(entries, key, i);
        assert(entries.subrange(0, i) =~= entries.drop_last());
    }
}

proof fn lemma_table_index(entries: Seq<(Vec<u8>, usize)>, key: Seq<u8>)
    ensures
        key_index(entries, key) == table_index(table_view(entries), key),
        table_index(table_view(entries), key) >= 0 ==> table_index(table_view(entries), key) < entries.len()
            && entries[table_index(table_view(entries), key)].0@ == key,
    decreases entries.len(),
{
    if entries.len() > 0 {
        assert(table_view(entries).drop_last() =~= table_view(entries.drop_last()));
        lemma_table_index(entries.drop_last(), key);
    }
}

/// Sets the value for `key`: a key already present keeps its entry.
pub fn map_insert(entries: &mut Vec<(Vec<u8>, usize)>, key: Vec<u8>, value: usize)
    ensures
        ({
            let i = key_index(old(entries)@, key@);
            final(entries)@ == if i >= 0 {
                old(entries)@.update(i, (old(entries)@[i].0, value))
            } else {
                old(entries)@.push((key, value))
            }
        }),
{
    let mut i: usize = 0;
    while i < entries.len()
        invariant
            i <= entries@.len(),
            *entries == *old(entries),
            forall|j: int| 0 <= j < i ==> (#[trigger] entries@[j]).0@ != key@,
        decreases entries@.len() - i,
    {
        if bytes_same(&entries[i].0, &key) {
            proof {
                lemma_key_index_found(entries@, key@, i as int);
            }
            entries[i].1 = value;
            return;
        }
        i += 1;
    }
    proof {
        lemma_key_index(entries@, key@, entries@.len() as int);
        assert(entries@.subrange(0, entries@.len() as int) =~= entries@);
    }
    entries.push((key, value));
}

impl<'ast> NameResolutionPass<'ast> {
    proof fn lemma_top_blocks(&self)
        requires
            self.wf(),
        ensures
            self.shape().1.len() == self.frames@.len(),
            self.shape().1.len() > 0 ==> top_blocks(self.shape()).len() >= 1,
    {
        if self.frames@.len() > 0 {
            let f = self.frames@.last();
            assert(self.frames@[self.frames@.len() - 1] == f);
            assert(ctx_blocks(f.context).len() == f.context.scopes@.len());
        }
    }

    /// Records what is known of a class.
    fn insert_class(&mut self, decoration: Decoration<ClassDecoration>, info: ClassInfo<'ast>)
        requires
            old(self).ready(seq![(3int, decoration.spec_index())], 0),
        ensures
            final(self).globals@ == old(self).globals@,
            old(self).stepped(*final(self), seq![(3int, decoration.spec_index())], 0),
            final(self).class_infos.slots()[decoration.spec_index() as int] == Some(info),
    {
        let ghost p0 = *self;
        let ghost d = (3int, decoration.spec_index());
        proof {
            assert(seq![d][0] == d);
            assert(seq![d].contains(d));
        }
        self.class_infos.insert(decoration, info);
        proof {
            assert forall|x: (int, usize)| #[trigger] self.filled(x) == (p0.filled(x) || seq![d].contains(x)) by {
                if seq![d].contains(x) {
                    assert(x == d);
                }
            }
        }
    }

    /// Notes a `return` in an initializer as an error.
    fn visit_return(&mut self, node: &'ast crate::ast::ReturnStmt)
        requires
            old(self).wf(),
        ensures
            old(self).frames@.len() == 0 ==> final(self).flat_view() == old(self).flat_view(),
            old(self).stepped(*final(self), seq![], 0),
            final(self).globals == old(self).globals,
            final(self).global_context == old(self).global_context,
            final(self).frames == old(self).frames,
            final(self).resolutions == old(self).resolutions,
            final(self).block_locals == old(self).block_locals,
            final(self).function_infos == old(self).function_infos,
            final(self).class_infos == old(self).class_infos,
            final(self).errors@ == if old(self).frames@.len() > 0 && old(self).frames@.last().kind
                == FrameKind::Initializer {
                old(self).errors@.push(
                    CompileError::ReturnInInitializer {
                        span: Span::spec_new(node.return_.spec_span_start(), node.semi.spec_span_end()),
                    },
                )
            } else {
                old(self).errors@
            },
    {
        let ghost p0 = *self;
        match self.frame_kind() {
            Some(FrameKind::Initializer) => {
                self.errors.push(
                    CompileError::ReturnInInitializer { span: Span::across(&node.return_, &node.semi) },
                );
            },
            _ => {},
        }
        proof {
            assert forall|x: (int, usize)| #[trigger] self.filled(x) == (p0.filled(x) || seq![].contains(x)) by {
            }
        }
    }

    /// Walks a function body in a frame of its own.
    fn visit_function(&mut self, function: &'ast Function, kind: FrameKind, identifier: &'ast Identifier)
        requires
            old(self).ready(function_decs(*function), function_weight(*function) as int),
        ensures
            old(self).stepped(*final(self), function_decs(*function), function_weight(*function) as int),
            final(self).infos_at(function_funs(*function) + seq![(*identifier, *function, kind)], function_classes(*function)),
            old(self).globals_kept(*final(self), function_defs(*function)),
        decreases function,
    {
        let ghost p0 = *self;
        let ghost s = stmts_decs(function.body.stmts, 0);
        let ghost d1 = (1int, function.body.decoration.spec_index());
        let ghost d2 = (2int, function.decoration.spec_index());
        let ghost ds = seq![d1, d2];
        let ghost rest = s + ds;
        let ghost wp = 1 + punctuated_items(function.params).len() as int;
        let ghost ws = stmts_weight(function.body.stmts, 0) as int;
        proof {
            assert(function_decs(*function) =~= seq![] + rest);
            Self::lemma_split(p0, p0, seq![], rest, wp, ws);
        }
        self.push_frame(function, kind);
        let ghost p1 = *self;
        proof {
            Self::lemma_split(p0, p1, seq![], rest, wp, ws);
            Self::lemma_split(p1, p1, s, ds, ws, 0);
        }
        self.visit_stmts(&function.body.stmts);
        let ghost p2 = *self;
        proof {
            Self::lemma_split(p1, p2, s, ds, ws, 0);
            assert(top_blocks(p2.shape()) == seq![&function.body]);
            assert(top_blocks(p2.shape())[0] == &function.body);
        }
        proof {
            assert(p2.shape().1.last().0 == function && p2.shape().1.last().1 == kind);
        }
        self.pop_frame(identifier);
        proof {
            Self::lemma_seq(p1, p2, *self, s, ds, ws, 0);
            Self::lemma_seq(p0, p1, *self, seq![], rest, wp, ws);
            assert(self.shape().1 =~= p0.shape().1);
            let own = (*identifier, *function, kind);
            assert(seq![own][0] == own);
            assert(self.infos_at(seq![own], seq![]));
            Self::lemma_infos_then(p2, *self, function_funs(*function), function_classes(*function), seq![own], seq![], ds, 0);
            assert(function_classes(*function) + seq![] =~= function_classes(*function));
            Self::lemma_globals_same(p0, p1);
            Self::lemma_globals_same(p2, *self);
            Self::lemma_kept_then(p0, p1, p2, seq![], stmts_defs(function.body.stmts, 0));
            Self::lemma_kept_then(p0, p2, *self, seq![] + stmts_defs(function.body.stmts, 0), seq![]);
            assert(seq![] + stmts_defs(function.body.stmts, 0) + seq![] =~= function_defs(*function));
        }
    }

    /// Walks statements in order.
    fn visit_stmts(&mut self, ss: &'ast Vec<Stmt>)
        requires
            old(self).ready(stmts_decs(*ss, 0), stmts_weight(*ss, 0) as int),
        ensures
            old(self).stepped(*final(self), stmts_decs(*ss, 0), stmts_weight(*ss, 0) as int),
            old(self).at_top() ==> final(self).globals_at(stmts_top_uses(*ss, 0)),
            final(self).infos_at(stmts_funs(*ss, 0), stmts_classes(*ss, 0)),
            old(self).globals_kept(*final(self), stmts_defs(*ss, 0)),
            old(self).at_top() ==> final(self).words_known(stmts_top_words(*ss, 0)),
            old(self).frames@.len() == 0 && flat_stmts(*ss, 0) ==> final(self).flat_view() == flat_walks(
                old(self).flat_view(),
                *ss,
                0,
            ),
        decreases ss,
    {
        let ghost p0 = *self;
        let ghost mut consumed: Seq<(int, usize)> = seq![];
        let ghost mut cw: int = 0;
        let ghost mut tops: Seq<(int, usize)> = seq![];
        let ghost mut fdone: Seq<(Identifier, Function, FrameKind)> = seq![];
        let ghost mut cdone: Seq<(usize, Identifier, Seq<(Seq<u8>, usize)>)> = seq![];
        let ghost mut ddone: Seq<Seq<u8>> = seq![];
        let ghost mut wdone: Seq<Seq<u8>> = seq![];
        proof {
            Self::lemma_globals_same(p0, p0);
            assert(stmts_defs(*ss, 0) =~= ddone + stmts_defs(*ss, 0));
            assert(stmts_top_words(*ss, 0) =~= wdone + stmts_top_words(*ss, 0));
            Self::lemma_refl(p0);
            assert(stmts_decs(*ss, 0) =~= consumed + stmts_decs(*ss, 0));
            assert(stmts_top_uses(*ss, 0) =~= tops + stmts_top_uses(*ss, 0));
            assert(stmts_funs(*ss, 0) =~= fdone + stmts_funs(*ss, 0));
            assert(stmts_classes(*ss, 0) =~= cdone + stmts_classes(*ss, 0));
        }
        let n = ss.len();
        let mut i: usize = 0;
        while i < n
            invariant
                i <= n,
                n == ss@.len(),
                stmts_decs(*ss, 0) == consumed + stmts_decs(*ss, i as int),
                stmts_weight(*ss, 0) == cw + stmts_weight(*ss, i as int),
                0 <= cw,
                p0.ready(stmts_decs(*ss, 0), stmts_weight(*ss, 0) as int),
                p0.stepped(*self, consumed, cw),
                self.ready(stmts_decs(*ss, i as int), stmts_weight(*ss, i as int) as int),
                stmts_top_uses(*ss, 0) == tops + stmts_top_uses(*ss, i as int),
                p0.at_top() ==> self.at_top() && self.globals_at(tops),
                stmts_funs(*ss, 0) == fdone + stmts_funs(*ss, i as int),
                stmts_classes(*ss, 0) == cdone + stmts_classes(*ss, i as int),
                self.infos_at(fdone, cdone),
                stmts_defs(*ss, 0) == ddone + stmts_defs(*ss, i as int),
                stmts_top_words(*ss, 0) == wdone + stmts_top_words(*ss, i as int),
                p0.globals_kept(*self, ddone),
                p0.at_top() ==> self.words_known(wdone),
                p0.frames@.len() == 0 && flat_stmts(*ss, 0) ==> self.frames@.len() == 0 && flat_stmts(*ss, i as int)
                    && flat_walks(self.flat_view(), *ss, i as int) == flat_walks(p0.flat_view(), *ss, 0),
            decreases n - i,
        {
            let ghost pi = *self;
            let ghost a = stmt_decs(ss@[i as int]);
            let ghost b = stmts_decs(*ss, i + 1);
            let ghost wa = stmt_weight(ss@[i as int]) as int;
            let ghost wb = stmts_weight(*ss, i + 1) as int;
            proof {
                assert(stmts_decs(*ss, i as int) == a + b);
                Self::lemma_split(pi, pi, a, b, wa, wb);
            }
            self.visit_stmt(&ss[i]);
            proof {
                Self::lemma_frames_len(pi, *self, a, wa);
                if p0.frames@.len() == 0 && flat_stmts(*ss, 0) {
                    assert(flat_stmt(ss@[i as int]) && flat_stmts(*ss, i + 1));
                    assert(flat_walks(pi.flat_view(), *ss, i as int) == flat_walks(self.flat_view(), *ss, i + 1));
                }
                Self::lemma_split(pi, *self, a, b, wa, wb);
                Self::lemma_seq(p0, pi, *self, consumed, a, cw, wa);
                assert(stmts_decs(*ss, 0) =~= (consumed + a) + b);
                if p0.at_top() {
                    Self::lemma_stays_top(pi, *self, a, wa);
                    Self::lemma_globals_then(pi, *self, tops, top_uses(ss@[i as int]), a, wa);
                }
                assert(stmts_top_uses(*ss, 0) =~= (tops + top_uses(ss@[i as int])) + stmts_top_uses(*ss, i + 1));
                Self::lemma_infos_then(pi, *self, fdone, cdone, stmt_funs(ss@[i as int]), stmt_classes(ss@[i as int]), a, wa);
                assert(stmts_funs(*ss, 0) =~= (fdone + stmt_funs(ss@[i as int])) + stmts_funs(*ss, i + 1));
                assert(stmts_classes(*ss, 0) =~= (cdone + stmt_classes(ss@[i as int])) + stmts_classes(*ss, i + 1));
                consumed = consumed + a;
                cw = cw + wa;
                tops = tops + top_uses(ss@[i as int]);
                Self::lemma_words_defs(p0, pi, *self, wdone, top_words(ss@[i as int]), ddone, stmt_defs(ss@[i as int]));
                assert(stmts_defs(*ss, 0) =~= (ddone + stmt_defs(ss@[i as int])) + stmts_defs(*ss, i + 1));
                assert(stmts_top_words(*ss, 0) =~= (wdone + top_words(ss@[i as int])) + stmts_top_words(*ss, i + 1));
                ddone = ddone + stmt_defs(ss@[i as int]);
                wdone = wdone + top_words(ss@[i as int]);
                fdone = fdone + stmt_funs(ss@[i as int]);
                cdone = cdone + stmt_classes(ss@[i as int]);
            }
            i += 1;
        }
        proof {
            assert(flat_walks(self.flat_view(), *ss, n as int) == self.flat_view());
            assert(consumed =~= stmts_decs(*ss, 0));
            assert(tops =~= stmts_top_uses(*ss, 0));
            assert(fdone =~= stmts_funs(*ss, 0));
            assert(cdone =~= stmts_classes(*ss, 0));
            assert(ddone =~= stmts_defs(*ss, 0));
            assert(wdone =~= stmts_top_words(*ss, 0));
        }
    }

    /// Walks the methods of a class, each in a frame of its own, and maps
    /// each method name to the decoration index of its function.
    fn visit_methods(&mut self, ms: &'ast Vec<Method>) -> (methods: Vec<(Vec<u8>, usize)>)
        requires
            old(self).ready(methods_decs(*ms, 0), methods_weight(*ms, 0) as int),
        ensures
            old(self).stepped(*final(self), methods_decs(*ms, 0), methods_weight(*ms, 0) as int),
            final(self).infos_at(methods_funs(*ms, 0), methods_classes(*ms, 0)),
            table_view(methods@) == method_table(ms@, ms@.len() as int),
            old(self).globals_kept(*final(self), methods_defs(*ms, 0)),
        decreases ms,
    {
        let ghost p0 = *self;
        let ghost mut consumed: Seq<(int, usize)> = seq![];
        let ghost mut cw: int = 0;
        let ghost mut fdone: Seq<(Identifier, Function, FrameKind)> = seq![];
        let ghost mut cdone: Seq<(usize, Identifier, Seq<(Seq<u8>, usize)>)> = seq![];
        proof {
            Self::lemma_refl(p0);
            assert(methods_decs(*ms, 0) =~= consumed + methods_decs(*ms, 0));
            assert(methods_funs(*ms, 0) =~= fdone + methods_funs(*ms, 0));
            assert(methods_classes(*ms, 0) =~= cdone + methods_classes(*ms, 0));
        }
        let ghost mut ddone: Seq<Seq<u8>> = seq![];
        proof {
            Self::lemma_globals_same(p0, p0);
            assert(methods_defs(*ms, 0) =~= ddone + methods_defs(*ms, 0));
        }
        let mut methods: Vec<(Vec<u8>, usize)> = Vec::new();
        let n = ms.len();
        let mut i: usize = 0;
        while i < n
            invariant
                i <= n,
                n == ms@.len(),
                methods_decs(*ms, 0) == consumed + methods_decs(*ms, i as int),
                methods_weight(*ms, 0) == cw + methods_weight(*ms, i as int),
                0 <= cw,
                p0.ready(methods_decs(*ms, 0), methods_weight(*ms, 0) as int),
                p0.stepped(*self, consumed, cw),
                self.ready(methods_decs(*ms, i as int), methods_weight(*ms, i as int) as int),
                methods_funs(*ms, 0) == fdone + methods_funs(*ms, i as int),
                methods_classes(*ms, 0) == cdone + methods_classes(*ms, i as int),
                self.infos_at(fdone, cdone),
                table_view(methods@) == method_table(ms@, i as int),
                methods_defs(*ms, 0) == ddone + methods_defs(*ms, i as int),
                p0.globals_kept(*self, ddone),
            decreases n - i,
        {
            let ghost pi = *self;
            let method = &ms[i];
            let ghost a = function_decs(method.function);
            let ghost b = methods_decs(*ms, i + 1);
            let ghost wa = function_weight(method.function) as int;
            let ghost wb = methods_weight(*ms, i + 1) as int;
            proof {
                assert(methods_decs(*ms, i as int) == a + b);
                Self::lemma_split(pi, pi, a, b, wa, wb);
            }
            let init: [u8; 4] = [105u8, 110, 105, 116];
            let is_init = word_is(
                method.identifier.value.as_slice(),
                0,
                method.identifier.value.len(),
                &init,
            );
            proof {
                assert(init@ =~= seq![105u8, 110u8, 105u8, 116u8]);
                assert(method.identifier.value@.subrange(0, method.identifier.value@.len() as int)
                    =~= method.identifier.value@);
            }
            let kind = if is_init {
                FrameKind::Initializer
            } else {
                FrameKind::Method
            };
            proof {
                assert(kind == method_kind(ms@[i as int]));
            }
            self.visit_function(&method.function, kind, &method.identifier);
            proof {
                Self::lemma_split(pi, *self, a, b, wa, wb);
                Self::lemma_seq(p0, pi, *self, consumed, a, cw, wa);
                assert(methods_decs(*ms, 0) =~= (consumed + a) + b);
                let fa = function_funs(method.function) + seq![(method.identifier, method.function, kind)];
                let ca = function_classes(method.function);
                Self::lemma_infos_then(pi, *self, fdone, cdone, fa, ca, a, wa);
                assert(methods_funs(*ms, 0) =~= (fdone + fa) + methods_funs(*ms, i + 1));
                assert(methods_classes(*ms, 0) =~= (cdone + ca) + methods_classes(*ms, i + 1));
                consumed = consumed + a;
                cw = cw + wa;
                Self::lemma_kept_then(p0, pi, *self, ddone, function_defs(method.function));
                assert(methods_defs(*ms, 0) =~= (ddone + function_defs(method.function)) + methods_defs(*ms, i + 1));
                ddone = ddone + function_defs(method.function);
                fdone = fdone + fa;
                cdone = cdone + ca;
            }
            let ghost before = methods@;
            let key = method.identifier.value.clone();
            proof {
                lemma_table_index(before, key@);
            }
            map_insert(&mut methods, key, method.function.decoration.index());
            proof {
                let t = method_table(ms@, i as int);
                let j = table_index(t, key@);
                if j >= 0 {
                    assert(table_view(methods@) =~= t.update(j, (key@, method.function.decoration.spec_index())));
                } else {
                    assert(table_view(methods@) =~= t.push((key@, method.function.decoration.spec_index())));
                }
            }
            i += 1;
        }
        proof {
            assert(consumed =~= methods_decs(*ms, 0));
            assert(fdone =~= methods_funs(*ms, 0));
            assert(cdone =~= methods_classes(*ms, 0));
            assert(ddone =~= methods_defs(*ms, 0));
        }
        methods
    }

    /// Walks one statement.
    fn visit_stmt(&mut self, s: &'ast Stmt)
        requires
            old(self).ready(stmt_decs(*s), stmt_weight(*s) as int),
        ensures
            old(self).stepped(*final(self), stmt_decs(*s), stmt_weight(*s) as int),
            old(self).at_top() ==> final(self).globals_at(top_uses(*s)),
            final(self).infos_at(stmt_funs(*s), stmt_classes(*s)),
            old(self).globals_kept(*final(self), stmt_defs(*s)),
            old(self).at_top() ==> final(self).words_known(top_words(*s)),
            old(self).frames@.len() == 0 && flat_stmt(*s) ==> final(self).flat_view() == flat_walk(
                old(self).flat_view(),
                *s,
            ),
        decreases s,
    {
        let ghost p0 = *self;
        match s {
            Stmt::VarDecl(x) => {
                let ghost a = stmt_decs(*s);
                proof {
                    assert(stmt_decs(*s) =~= a + seq![]);
                    Self::lemma_split(p0, p0, a, seq![], 0, 1);
                }
                match &x.assignment {
                    Some(assignment) => self.visit_expr(&assignment.expr),
                    None => {
                        proof {
                            Self::lemma_refl(p0);
                            Self::lemma_globals_same(p0, *self);
                        }
                    },
                }
                let ghost p1 = *self;
                proof {
                    Self::lemma_split(p0, p1, a, seq![], 0, 1);
                    if x.assignment is Some {
                        Self::lemma_frames_len(p0, p1, expr_decs(x.assignment.unwrap().expr), 0);
                    }
                }
                self.declare(Name::Ident(&x.identifier));
                proof {
                    if p0.frames@.len() == 0 {
                        assert(self.flat_view() == flat_walk(p0.flat_view(), *s));
                    }
                    Self::lemma_seq(p0, p1, *self, a, seq![], 0, 1);
                    if p0.at_top() {
                        Self::lemma_globals_then(p1, *self, a, seq![], seq![], 1);
                        assert(a + seq![] =~= top_uses(*s));
                        Self::lemma_stays_top(p0, p1, a, 0);
                    }
                    Self::lemma_words_defs(p0, p1, *self, top_words(*s), seq![], seq![], seq![x.identifier.value@]);
                    assert(top_words(*s) + seq![] =~= top_words(*s));
                    assert(Seq::<Seq<u8>>::empty() + seq![x.identifier.value@] =~= stmt_defs(*s));
                }
            },
            Stmt::FunDecl(x) => {
                let ghost f = function_decs(x.function);
                let ghost wf = function_weight(x.function) as int;
                proof {
                    assert(stmt_decs(*s) =~= seq![] + f);
                    Self::lemma_split(p0, p0, seq![], f, 1, wf);
                }
                self.declare(Name::Ident(&x.identifier));
                let ghost p1 = *self;
                proof {
                    Self::lemma_split(p0, p1, seq![], f, 1, wf);
                }
                self.visit_function(&x.function, FrameKind::Function, &x.identifier);
                proof {
                    Self::lemma_seq(p0, p1, *self, seq![], f, 1, wf);
                    Self::lemma_kept_then(p0, p1, *self, seq![x.identifier.value@], function_defs(x.function));
                }
            },
            Stmt::ClassDecl(x) => {
                let ghost m = methods_decs(x.methods, 0);
                let ghost c = seq![(3int, x.class_decoration.spec_index())];
                let ghost wm = methods_weight(x.methods, 0) as int;
                proof {
                    assert(stmt_decs(*s) =~= seq![] + (m + c));
                    Self::lemma_split(p0, p0, seq![], m + c, 1, wm);
                }
                self.declare(Name::Ident(&x.identifier));
                let ghost p1 = *self;
                proof {
                    Self::lemma_split(p0, p1, seq![], m + c, 1, wm);
                    Self::lemma_split(p1, p1, m, c, wm, 0);
                }
                let methods = self.visit_methods(&x.methods);
                let ghost p2 = *self;
                proof {
                    Self::lemma_split(p1, p2, m, c, wm, 0);
                }
                let ghost table = table_view(methods@);
                proof {
                    assert(c[0] == (3int, x.class_decoration.spec_index()));
                    assert(c.contains((3int, x.class_decoration.spec_index())));
                    assert(x.class_decoration.spec_index() < p2.cap(3));
                }
                let info = ClassInfo { identifier: &x.identifier, methods };
                proof {
                    assert(table_view(info.methods@) == method_table(x.methods@, x.methods@.len() as int));
                }
                self.insert_class(x.class_decoration, info);
                proof {
                    Self::lemma_seq(p1, p2, *self, m, c, wm, 0);
                    Self::lemma_seq(p0, p1, *self, seq![], m + c, 1, wm);
                    Self::lemma_globals_same(p2, *self);
                    Self::lemma_kept_then(p0, p1, p2, seq![x.identifier.value@], methods_defs(x.methods, 0));
                    Self::lemma_kept_then(p0, p2, *self, seq![x.identifier.value@] + methods_defs(x.methods, 0), seq![]);
                    assert(seq![x.identifier.value@] + methods_defs(x.methods, 0) + seq![] =~= stmt_defs(*s));
                    let own = (x.class_decoration.spec_index(), x.identifier, method_table(x.methods@, x.methods@.len() as int));
                    assert(seq![own][0] == own);
                    assert(self.cap(3) == p2.cap(3));
                    assert(records_class(self.class_infos.slots(), own));
                    assert(self.infos_at(seq![], seq![own]));
                    Self::lemma_infos_then(p2, *self, methods_funs(x.methods, 0), methods_classes(x.methods, 0), seq![], seq![own], c, 0);
                    assert(methods_funs(x.methods, 0) + seq![] =~= methods_funs(x.methods, 0));
                }
            },
            Stmt::Expr(x) => {
                self.visit_expr(&x.expr);
            },
            Stmt::Print(x) => {
                self.visit_expr(&x.expr);
            },
            Stmt::Block(x) => {
                let ghost st = stmts_decs(x.stmts, 0);
                let ghost b = seq![(1int, x.decoration.spec_index())];
                let ghost ws = stmts_weight(x.stmts, 0) as int;
                proof {
                    assert(stmt_decs(*s) =~= seq![] + (st + b));
                    Self::lemma_split(p0, p0, seq![], st + b, 0, ws);
                    p0.lemma_top_blocks();
                }
                self.push_scope(x);
                let ghost p1 = *self;
                proof {
                    Self::lemma_split(p0, p1, seq![], st + b, 0, ws);
                    Self::lemma_split(p1, p1, st, b, ws, 0);
                    lemma_with_top(p0.shape(), top_blocks(p0.shape()).push(x), top_blocks(p0.shape()));
                }
                proof {
                    assert(p1.shape().1.len() == p0.shape().1.len());
                }
                self.visit_stmts(&x.stmts);
                let ghost p2 = *self;
                proof {
                    Self::lemma_frames_len(p1, p2, st, ws);
                    Self::lemma_split(p1, p2, st, b, ws, 0);
                    assert(top_blocks(p2.shape()).last() == x);
                    assert(top_blocks(p2.shape()).drop_last() =~= top_blocks(p0.shape()));
                }
                self.pop_scope();
                proof {
                    if p0.frames@.len() == 0 && flat_stmt(*s) {
                        assert(self.flat_view() == flat_walk(p0.flat_view(), *s));
                    }
                    Self::lemma_seq(p1, p2, *self, st, b, ws, 0);
                    Self::lemma_seq(p0, p1, *self, seq![], st + b, 0, ws);
                    lemma_with_top(p0.shape(), top_blocks(p0.shape()).push(x), top_blocks(p0.shape()));
                    Self::lemma_infos_keep(p2, *self, stmts_funs(x.stmts, 0), stmts_classes(x.stmts, 0), b, 0);
                    Self::lemma_globals_same(p0, p1);
                    Self::lemma_globals_same(p2, *self);
                    Self::lemma_kept_then(p0, p1, p2, seq![], stmts_defs(x.stmts, 0));
                    Self::lemma_kept_then(p0, p2, *self, seq![] + stmts_defs(x.stmts, 0), seq![]);
                    assert(seq![] + stmts_defs(x.stmts, 0) + seq![] =~= stmt_defs(*s));
                }
            },
            Stmt::If(x) => {
                let ghost e = expr_decs(*x.condition.inner);
                let ghost t = stmt_decs(*x.stmt);
                let ghost wt = stmt_weight(*x.stmt) as int;
                let ghost f = else_decs(x.else_clause);
                let ghost wf = else_weight(x.else_clause) as int;
                proof {
                    assert(stmt_decs(*s) =~= e + (t + f));
                    Self::lemma_split(p0, p0, e, t + f, 0, wt + wf);
                }
                self.visit_expr(&x.condition.inner);
                let ghost p1 = *self;
                proof {
                    Self::lemma_split(p0, p1, e, t + f, 0, wt + wf);
                    Self::lemma_split(p1, p1, t, f, wt, wf);
                }
                proof {
                    Self::lemma_frames_len(p0, p1, e, 0);
                }
                self.visit_stmt(&x.stmt);
                let ghost p2 = *self;
                proof {
                    Self::lemma_frames_len(p1, p2, t, wt);
                    Self::lemma_split(p1, p2, t, f, wt, wf);
                }
                match &x.else_clause {
                    Some(else_clause) => self.visit_stmt(&else_clause.stmt),
                    None => {
                        proof {
                            Self::lemma_refl(p2);
                        }
                    },
                }
                proof {
                    if p0.frames@.len() == 0 && flat_stmt(*s) {
                        assert(self.flat_view() == flat_walk(p0.flat_view(), *s));
                    }
                    Self::lemma_seq(p1, p2, *self, t, f, wt, wf);
                    Self::lemma_seq(p0, p1, *self, e, t + f, 0, wt + wf);
                    let ef = else_funs(x.else_clause);
                    let ec = else_classes(x.else_clause);
                    assert(self.infos_at(ef, ec));
                    Self::lemma_infos_then(p2, *self, stmt_funs(*x.stmt), stmt_classes(*x.stmt), ef, ec, f, wf);
                    let edefs = else_defs(x.else_clause);
                    let ewords = else_top_words(x.else_clause);
                    if x.else_clause is None {
                        Self::lemma_globals_same(p2, *self);
                    }
                    assert(p2.globals_kept(*self, edefs));
                    assert(p2.at_top() ==> self.words_known(ewords));
                    if p0.at_top() {
                        Self::lemma_stays_top(p0, p1, e, 0);
                        Self::lemma_stays_top(p1, p2, t, wt);
                    }
                    Self::lemma_words_defs(p0, p1, p2, expr_words(*x.condition.inner), top_words(*x.stmt), seq![], stmt_defs(*x.stmt));
                    Self::lemma_words_defs(p0, p2, *self, expr_words(*x.condition.inner) + top_words(*x.stmt), ewords, seq![] + stmt_defs(*x.stmt), edefs);
                    assert(seq![] + stmt_defs(*x.stmt) + edefs =~= stmt_defs(*s));
                    assert(expr_words(*x.condition.inner) + top_words(*x.stmt) + ewords =~= top_words(*s));
                    if p0.at_top() {
                        let te = top_uses(*x.stmt);
                        let fe = else_top_uses(x.else_clause);
                        Self::lemma_stays_top(p0, p1, e, 0);
                        Self::lemma_stays_top(p1, p2, t, wt);
                        Self::lemma_globals_then(p1, p2, e, te, t, wt);
                        Self::lemma_globals_then(p2, *self, e + te, fe, f, wf);
                        assert(e + te + fe =~= top_uses(*s));
                    }
                }
            },
            Stmt::While(x) => {
                let ghost e = expr_decs(x.expr);
                let ghost b = stmt_decs(*x.body);
                let ghost wb = stmt_weight(*x.body) as int;
                proof {
                    Self::lemma_split(p0, p0, e, b, 0, wb);
                }
                self.visit_expr(&x.expr);
                let ghost p1 = *self;
                proof {
                    Self::lemma_split(p0, p1, e, b, 0, wb);
                }
                proof {
                    Self::lemma_frames_len(p0, p1, e, 0);
                }
                self.visit_stmt(&x.body);
                proof {
                    if p0.frames@.len() == 0 && flat_stmt(*s) {
                        assert(self.flat_view() == flat_walk(p0.flat_view(), *s));
                    }
                    Self::lemma_seq(p0, p1, *self, e, b, 0, wb);
                    if p0.at_top() {
                        Self::lemma_stays_top(p0, p1, e, 0);
                        Self::lemma_globals_then(p1, *self, e, top_uses(*x.body), b, wb);
                    }
                    Self::lemma_words_defs(p0, p1, *self, expr_words(x.expr), top_words(*x.body), seq![], stmt_defs(*x.body));
                    assert(seq![] + stmt_defs(*x.body) =~= stmt_defs(*s));
                }
            },
            Stmt::Return(x) => {
                self.visit_return(x);
                proof {
                    Self::lemma_globals_same(p0, *self);
                }
            },
        }
    }
}

/// The name uses of a statement that stand at the statement's own level:
/// in its expressions and in the statements it holds directly, not inside
/// a block or a function. (The expression a `return` gives is not walked.)
pub open spec fn top_uses(s: Stmt) -> Seq<(int, usize)>
    decreases s,
{
    match s {
        Stmt::VarDecl(x) => match x.assignment {
            Some(a) => expr_decs(a.expr),
            None => seq![],
        },
        Stmt::Expr(x) => expr_decs(x.expr),
        Stmt::Print(x) => expr_decs(x.expr),
        Stmt::If(x) => expr_decs(*x.condition.inner) + top_uses(*x.stmt) + else_top_uses(x.else_clause),
        Stmt::While(x) => expr_decs(x.expr) + top_uses(*x.body),
        _ => seq![],
    }
}

pub open spec fn else_top_uses(c: Option<ElseClause>) -> Seq<(int, usize)>
    decreases c,
{
    match c {
        Some(c) => top_uses(*c.stmt),
        None => seq![],
    }
}

pub open spec fn stmts_top_uses(ss: Vec<Stmt>, i: int) -> Seq<(int, usize)>
    decreases ss@.len() - i,
{
    if 0 <= i < ss@.len() {
        top_uses(ss@[i]) + stmts_top_uses(ss, i + 1)
    } else {
        seq![]
    }
}

/// The names that an expression uses as variables, in walk order.
pub open spec fn expr_words(e: Expr) -> Seq<Seq<u8>>
    decreases e, 0int,
{
    match e {
        Expr::Literal(_) => seq![],
        Expr::Unary(x) => expr_words(*x.inner),
        Expr::Binary(x) => expr_words(*x.left) + expr_words(*x.right),
        Expr::Grouping(x) => expr_words(*x.inner),
        Expr::Variable(x) => seq![x.name.identifier.value@],
        Expr::Assign(x) => expr_words(*x.expr) + seq![x.name.identifier.value@],
        Expr::Call(x) => expr_words(*x.target) + args_words(x.arguments, 0),
        Expr::Get(x) => expr_words(*x.target),
        Expr::SetField(x) => expr_words(*x.target) + expr_words(*x.expr),
        Expr::This(_) => seq![],
        Expr::Super(_) => seq![],
    }
}

pub open spec fn args_words(p: Punctuated<Expr, Span>, i: int) -> Seq<Seq<u8>>
    decreases p, p.values@.len() + 1 - i,
{
    if 0 <= i < p.values@.len() {
        expr_words(p.values@[i].0) + args_words(p, i + 1)
    } else if i == p.values@.len() {
        match p.last {
            Some(b) => expr_words(*b),
            None => seq![],
        }
    } else {
        seq![]
    }
}

/// The names that a top-level statement uses as variables outside any
/// block or function.
pub open spec fn top_words(s: Stmt) -> Seq<Seq<u8>>
    decreases s,
{
    match s {
        Stmt::VarDecl(x) => match x.assignment {
            Some(a) => expr_words(a.expr),
            None => seq![],
        },
        Stmt::Expr(x) => expr_words(x.expr),
        Stmt::Print(x) => expr_words(x.expr),
        Stmt::If(x) => expr_words(*x.condition.inner) + top_words(*x.stmt) + match x.else_clause {
            Some(c) => top_words(*c.stmt),
            None => seq![],
        },
        Stmt::While(x) => expr_words(x.expr) + top_words(*x.body),
        _ => seq![],
    }
}

pub open spec fn stmts_top_words(ss: Vec<Stmt>, i: int) -> Seq<Seq<u8>>
    decreases ss@.len() - i,
{
    if 0 <= i < ss@.len() {
        top_words(ss@[i]) + stmts_top_words(ss, i + 1)
    } else {
        seq![]
    }
}

/// The names that a statement declares as variables, functions or classes,
/// at any depth.
pub open spec fn stmt_defs(s: Stmt) -> Seq<Seq<u8>>
    decreases s, 0int,
{
    match s {
        Stmt::VarDecl(x) => seq![x.identifier.value@],
        Stmt::FunDecl(x) => seq![x.identifier.value@] + function_defs(x.function),
        Stmt::ClassDecl(x) => seq![x.identifier.value@] + methods_defs(x.methods, 0),
        Stmt::Block(x) => stmts_defs(x.stmts, 0),
        Stmt::If(x) => stmt_defs(*x.stmt) + match x.else_clause {
            Some(c) => stmt_defs(*c.stmt),
            None => seq![],
        },
        Stmt::While(x) => stmt_defs(*x.body),
        _ => seq![],
    }
}

pub open spec fn else_top_words(c: Option<ElseClause>) -> Seq<Seq<u8>> {
    match c {
        Some(c) => top_words(*c.stmt),
        None => seq![],
    }
}

pub open spec fn else_defs(c: Option<ElseClause>) -> Seq<Seq<u8>> {
    match c {
        Some(c) => stmt_defs(*c.stmt),
        None => seq![],
    }
}

pub open spec fn function_defs(f: Function) -> Seq<Seq<u8>>
    decreases f, 0int,
{
    stmts_defs(f.body.stmts, 0)
}

pub open spec fn stmts_defs(ss: Vec<Stmt>, i: int) -> Seq<Seq<u8>>
    decreases ss, ss@.len() - i,
{
    if 0 <= i < ss@.len() {
        stmt_defs(ss@[i]) + stmts_defs(ss, i + 1)
    } else {
        seq![]
    }
}

pub open spec fn methods_defs(ms: Vec<Method>, i: int) -> Seq<Seq<u8>>
    decreases ms, ms@.len() - i,
{
    if 0 <= i < ms@.len() {
        function_defs(ms@[i].function) + methods_defs(ms, i + 1)
    } else {
        seq![]
    }
}

/// The decorations that name resolution fills for a program.
pub open spec fn program_decs(ast: Ast) -> Seq<(int, usize)> {
    stmts_decs(ast.program.stmts, 0)
}

/// A program that name resolution can walk to the end: the walk fills each
/// decoration that the parser handed out exactly once, and the program
/// declares no more locals than a `usize` counts.
pub open spec fn resolvable(ast: Ast) -> bool {
    let d = program_decs(ast);
    &&& ast.decorator.wf()
    &&& no_dups(d)
    &&& forall|x: (int, usize)|
        #[trigger] d.contains(x) ==> 0 <= x.0 < 4 && x.1 < ast.decorator.counts()[x.0]
    &&& forall|k: int, i: usize|
        0 <= k < 4 && i < ast.decorator.counts()[k] ==> #[trigger] d.contains((k, i))
    &&& stmts_weight(ast.program.stmts, 0) <= usize::MAX
}

/// Some error reports an undefined item.
pub open spec fn reports_undefined(errors: Seq<CompileError>) -> bool {
    exists|j: int| 0 <= j < errors.len() && (#[trigger] errors[j]) is UndefinedItem
}

/// What resolving the names of `ast` is known to give: a table entry for
/// every decoration, the top-level name uses resolved to globals, and every
/// function and class that the program declares recorded with its name
/// (and kind, or method table).
pub open spec fn resolution_output(ast: Ast, r: NameResolutionOutput) -> bool {
    &&& r.resolutions@.len() == ast.decorator.counts()[0]
    &&& r.block_locals@.len() == ast.decorator.counts()[1]
    &&& r.function_infos@.len() == ast.decorator.counts()[2]
    &&& r.class_infos@.len() == ast.decorator.counts()[3]
    &&& forall|i: int|
        0 <= i < r.function_infos@.len() ==> (#[trigger] r.function_infos@[i]).function.decoration.spec_index() == i
    &&& forall|i: int|
        0 <= i < stmts_top_uses(ast.program.stmts, 0).len() ==> r.resolutions@[(#[trigger] stmts_top_uses(
            ast.program.stmts,
            0,
        )[i]).1 as int] == Resolution::Global
    &&& forall|i: int|
        0 <= i < stmts_funs(ast.program.stmts, 0).len() ==> {
            let f = #[trigger] stmts_funs(ast.program.stmts, 0)[i];
            let d = f.1.decoration.spec_index() as int;
            &&& 0 <= d < r.function_infos@.len()
            &&& *r.function_infos@[d].identifier == f.0
            &&& *r.function_infos@[d].function == f.1
            &&& r.function_infos@[d].kind == f.2
        }
    &&& forall|i: int|
        0 <= i < stmts_classes(ast.program.stmts, 0).len() ==> {
            let c = #[trigger] stmts_classes(ast.program.stmts, 0)[i];
            &&& c.0 < r.class_infos@.len()
            &&& *r.class_infos@[c.0 as int].identifier == c.1
            &&& table_view(r.class_infos@[c.0 as int].methods@) == c.2
        }
    &&& forall|k: int|
        0 <= k < stmts_top_words(ast.program.stmts, 0).len() && !stmts_defs(ast.program.stmts, 0).contains(
            #[trigger] stmts_top_words(ast.program.stmts, 0)[k],
        ) && stmts_top_words(ast.program.stmts, 0)[k] != clock_word() ==> reports_undefined(r.errors@)
    &&& flat_stmts(ast.program.stmts, 0) ==> {
        &&& r.errors@ == flat_errors(ast)
        &&& forall|d: int| 0 <= d < r.resolutions@.len() ==> Some(#[trigger] r.resolutions@[d]) == flat_end(ast).res[d]
        &&& forall|d: int| 0 <= d < r.block_locals@.len() ==> Some((#[trigger] r.block_locals@[d])@) == flat_end(ast).blocks[d]
    }
}

impl<'ast> NameResolutionPass<'ast> {
    /// Resolves the names of a program.
    pub fn compile(ast: &'ast Ast) -> (r: NameResolutionOutput<'ast>)
        requires
            resolvable(*ast),
        ensures
            r.resolutions@.len() == ast.decorator.counts()[0],
            r.block_locals@.len() == ast.decorator.counts()[1],
            r.function_infos@.len() == ast.decorator.counts()[2],
            r.class_infos@.len() == ast.decorator.counts()[3],
            forall|i: int|
                0 <= i < r.function_infos@.len() ==> (#[trigger] r.function_infos@[i]).function.decoration.spec_index() == i,
            forall|i: int|
                0 <= i < stmts_top_uses(ast.program.stmts, 0).len() ==> r.resolutions@[(#[trigger] stmts_top_uses(
                    ast.program.stmts,
                    0,
                )[i]).1 as int] == Resolution::Global,
            forall|i: int|
                0 <= i < stmts_funs(ast.program.stmts, 0).len() ==> {
                    let f = #[trigger] stmts_funs(ast.program.stmts, 0)[i];
                    let d = f.1.decoration.spec_index() as int;
                    &&& 0 <= d < r.function_infos@.len()
                    &&& *r.function_infos@[d].identifier == f.0
                    &&& *r.function_infos@[d].function == f.1
                    &&& r.function_infos@[d].kind == f.2
                },
            forall|i: int|
                0 <= i < stmts_classes(ast.program.stmts, 0).len() ==> {
                    let c = #[trigger] stmts_classes(ast.program.stmts, 0)[i];
                    &&& c.0 < r.class_infos@.len()
                    &&& *r.class_infos@[c.0 as int].identifier == c.1
                    &&& table_view(r.class_infos@[c.0 as int].methods@) == c.2
                },
            resolution_output(*ast, r),
    {
        let names = global_names();
        let mut globals: Vec<(GlobalIdent<'ast>, GlobalResolution)> = Vec::new();
        let mut names = names;
        let clock = names.pop().unwrap();
        globals.push((GlobalIdent::String(clock), GlobalResolution::Resolved(Span::null())));
        let mut pass = NameResolutionPass {
            globals,
            global_context: Context::empty(),
            frames: Vec::new(),
            resolutions: Dec::new(&ast.decorator),
            block_locals: Dec::new(&ast.decorator),
            function_infos: Dec::new(&ast.decorator),
            class_infos: Dec::new(&ast.decorator),
            errors: Vec::new(),
        };
        let ghost p0 = pass;
        let ghost d = program_decs(*ast);
        proof {
            assert(NameDecoration::spec_decoration_index() == 0);
            assert(BlockDecoration::spec_decoration_index() == 1);
            assert(FunctionDecoration::spec_decoration_index() == 2);
            assert(ClassDecoration::spec_decoration_index() == 3);
            assert forall|x: (int, usize)| #[trigger] d.contains(x) implies 0 <= x.0 < 4 && x.1 < p0.cap(x.0)
                && !p0.filled(x) by {
            }
            assert(p0.weight() == 0);
            assert(p0.at_top());
        }
        proof {
            assert(global_str(p0.globals@[0].0) == clock_word());
            let start = flat_start(*ast);
            assert(globals_flat(p0.globals@) =~= start.globals);
            assert(scopes_flat(p0.global_context.scopes@) =~= start.scopes);
            assert(p0.flat_view().res =~= start.res);
            assert(p0.flat_view().blocks =~= start.blocks);
            assert(p0.flat_view() =~= start);
        }
        let ghost flat = flat_stmts(ast.program.stmts, 0);
        pass.visit_stmts(&ast.program.stmts);
        let ghost walked = pass;
        let ghost gf = globals_flat(walked.globals@);
        proof {
            if flat {
                assert(walked.flat_view() == flat_end(*ast));
            }
            assert(gf.take(0) =~= seq![]);
            assert(walked.errors@ + pending_errors(gf.take(0)) =~= walked.errors@);
        }
        let ghost words = stmts_top_words(ast.program.stmts, 0);
        let ghost defs = stmts_defs(ast.program.stmts, 0);
        proof {
            assert forall|k: int|
                0 <= k < words.len() && !defs.contains(#[trigger] words[k]) && words[k] != clock_word() implies exists|j: int|
                    0 <= j < walked.globals@.len() && global_str(walked.globals@[j].0) == words[k]
                        && walked.globals@[j].1 is Pending by {
                assert(walked.has_global(words[k]));
                let j = choose|j: int| 0 <= j < walked.globals@.len() && global_str((#[trigger] walked.globals@[j]).0) == words[k];
                if walked.globals@[j].1 is Resolved {
                    if j < p0.globals@.len() {
                        assert(global_str(walked.globals@[j].0) == global_str(p0.globals@[j].0));
                    }
                }
            }
        }
        let mut i: usize = 0;
        while i < pass.globals.len()
            invariant
                i <= pass.globals@.len(),
                p0.stepped(pass, d, stmts_weight(ast.program.stmts, 0) as int),
                pass.resolutions == walked.resolutions,
                pass.block_locals == walked.block_locals,
                pass.function_infos == walked.function_infos,
                pass.class_infos == walked.class_infos,
                pass.globals@ == walked.globals@,
                (exists|j: int| 0 <= j < i && (#[trigger] walked.globals@[j]).1 is Pending) ==> reports_undefined(
                    pass.errors@,
                ),
                gf == globals_flat(walked.globals@),
                pass.errors@ == walked.errors@ + pending_errors(gf.take(i as int)),
            decreases pass.globals@.len() - i,
        {
            let ghost before = pass;
            proof {
                assert(gf.take(i + 1).drop_last() =~= gf.take(i as int));
                assert(gf.take(i + 1).last() == global_flat(walked.globals@[i as int]));
            }
            match pass.globals[i].1 {
                GlobalResolution::Pending => {
                    let span = match &pass.globals[i].0 {
                        GlobalIdent::Identifier(identifier) => identifier.span,
                        GlobalIdent::String(_) => Span::null(),
                    };
                    pass.errors.push(CompileError::UndefinedItem { span });
                    proof {
                        let last = pass.errors@.len() - 1;
                        assert(pass.errors@[last] is UndefinedItem);
                        assert(reports_undefined(pass.errors@));
                        assert forall|x: (int, usize)| #[trigger] pass.filled(x) == before.filled(x) by {
                        }
                        assert(pass.shape() == before.shape());
                        assert(pass.weight() == before.weight());
                        assert(forall|k: int| 0 <= k < 4 ==> #[trigger] pass.cap(k) == before.cap(k));
                        assert(pass.wf());
                    }
                },
                GlobalResolution::Resolved(_) => {},
            }
            proof {
                assert(pass.errors@ =~= walked.errors@ + pending_errors(gf.take(i + 1)));
                if reports_undefined(before.errors@) {
                    let j = choose|j: int| 0 <= j < before.errors@.len() && (#[trigger] before.errors@[j]) is UndefinedItem;
                    assert(pass.errors@[j] == before.errors@[j]);
                }
            }
            i += 1;
        }
        proof {
            assert forall|k: int|
                0 <= k < words.len() && !defs.contains(#[trigger] words[k]) && words[k] != clock_word() implies reports_undefined(
                pass.errors@,
            ) by {
                let j = choose|j: int|
                    0 <= j < walked.globals@.len() && global_str(walked.globals@[j].0) == words[k]
                        && walked.globals@[j].1 is Pending;
                assert(walked.globals@[j].1 is Pending);
            }
        }
        let ghost tops = stmts_top_uses(ast.program.stmts, 0);
        proof {
            assert(gf.take(gf.len() as int) =~= gf);
            if flat {
                assert(pass.errors@ == flat_errors(*ast));
            }
            assert(walked.globals_at(tops));
            assert forall|i: int| 0 <= i < tops.len() implies #[trigger] pass.global_at(tops[i].1) by {
                assert(walked.global_at(tops[i].1));
            }
        }
        let NameResolutionPass { resolutions, block_locals, function_infos, class_infos, errors, .. } = pass;
        proof {
            assert forall|j: int| 0 <= j < resolutions.slots().len() implies resolutions.slots()[j] is Some by {
                assert(pass.cap(0) == p0.cap(0));
                assert(d.contains((0int, j as usize)));
                assert(pass.filled((0int, j as usize)));
            }
            assert forall|j: int| 0 <= j < block_locals.slots().len() implies block_locals.slots()[j] is Some by {
                assert(pass.cap(1) == p0.cap(1));
                assert(d.contains((1int, j as usize)));
                assert(pass.filled((1int, j as usize)));
            }
            assert forall|j: int| 0 <= j < function_infos.slots().len() implies function_infos.slots()[j] is Some by {
                assert(pass.cap(2) == p0.cap(2));
                assert(d.contains((2int, j as usize)));
                assert(pass.filled((2int, j as usize)));
            }
            assert forall|j: int| 0 <= j < class_infos.slots().len() implies class_infos.slots()[j] is Some by {
                assert(pass.cap(3) == p0.cap(3));
                assert(d.contains((3int, j as usize)));
                assert(pass.filled((3int, j as usize)));
            }
            assert(pass.cap(0) == p0.cap(0) && pass.cap(1) == p0.cap(1));
            assert(pass.cap(2) == p0.cap(2) && pass.cap(3) == p0.cap(3));
            assert(resolutions.slots().len() == ast.decorator.counts()[0]);
            assert(block_locals.slots().len() == ast.decorator.counts()[1]);
            assert(function_infos.slots().len() == ast.decorator.counts()[2]);
            assert(class_infos.slots().len() == ast.decorator.counts()[3]);
            resolutions.lemma_full();
            block_locals.lemma_full();
            function_infos.lemma_full();
            class_infos.lemma_full();
        }
        let ghost function_slots = function_infos.slots();
        let ghost class_slots = class_infos.slots();
        let ghost funs = stmts_funs(ast.program.stmts, 0);
        let ghost classes = stmts_classes(ast.program.stmts, 0);
        proof {
            assert(walked.infos_at(funs, classes));
        }
        let function_infos = function_infos.unwrap();
        proof {
            assert forall|i: int| 0 <= i < function_infos@.len() implies (
            #[trigger] function_infos@[i]).function.decoration.spec_index() == i by {
                assert(Some(function_infos@[i]) == function_slots[i]);
                assert(function_slots[i] is Some);
            }
        }
        let ghost resolution_slots = resolutions.slots();
        let resolutions = resolutions.unwrap();
        proof {
            assert forall|i: int| 0 <= i < tops.len() implies resolutions@[(#[trigger] tops[i]).1 as int]
                == Resolution::Global by {
                assert(pass.global_at(tops[i].1));
                assert(resolution_slots[tops[i].1 as int] == Some(Resolution::Global));
            }
        }
        let class_infos = class_infos.unwrap();
        proof {
            assert forall|i: int| 0 <= i < funs.len() implies {
                let f = #[trigger] funs[i];
                let d = f.1.decoration.spec_index() as int;
                &&& 0 <= d < function_infos@.len()
                &&& *function_infos@[d].identifier == f.0
                &&& *function_infos@[d].function == f.1
                &&& function_infos@[d].kind == f.2
            } by {
                assert(records_function(function_slots, funs[i]));
                let d = funs[i].1.decoration.spec_index() as int;
                assert(Some(function_infos@[d]) == function_slots[d]);
            }
            assert forall|i: int| 0 <= i < classes.len() implies {
                let c = #[trigger] classes[i];
                &&& c.0 < class_infos@.len()
                &&& *class_infos@[c.0 as int].identifier == c.1
                &&& table_view(class_infos@[c.0 as int].methods@) == c.2
            } by {
                assert(records_class(class_slots, classes[i]));
                assert(Some(class_infos@[classes[i].0 as int]) == class_slots[classes[i].0 as int]);
            }
        }
        let ghost block_slots = block_locals.slots();
        let block_locals = block_locals.unwrap();
        proof {
            if flat {
                assert(walked.flat_view().res == resolution_slots);
                assert forall|d: int| 0 <= d < resolutions@.len() implies Some(#[trigger] resolutions@[d])
                    == flat_end(*ast).res[d] by {
                }
                assert forall|d: int| 0 <= d < block_locals@.len() implies Some((#[trigger] block_locals@[d])@)
                    == flat_end(*ast).blocks[d] by {
                    assert(Some(block_locals@[d]) == block_slots[d]);
                    assert(block_slots == walked.block_locals.slots());
                    assert(walked.flat_view().blocks[d] == Some(block_locals@[d]@));
                }
            }
        }
        NameResolutionOutput {
            resolutions,
            block_locals,
            function_infos,
            class_infos,
            errors,
        }
    }
}

} // verus!
