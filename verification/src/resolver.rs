use vstd::prelude::*;

use crate::ast::{
    BlockStmt, ClassDeclStmt, Expr, FunDeclStmt, Function, Identifier, Method, ReturnStmt, Stmt,
};
use crate::decoration::{Decoration, NameDecoration};
use crate::punctuated::{punctuated_items, Punctuated};
use crate::span::Span;
use crate::token::word_is;

verus! {

/// Why a program does not resolve.
#[derive(Clone, Copy, Debug, PartialEq, Eq)]
pub enum ResolveError {
    UndefinedVariable { span: Span },
    ReturnInInitializer { method: Span, span: Span, class: Span },
    TopLevelReturn { span: Span },
    ThisOutsideClass { span: Span },
    SuperOutsideSubclass { span: Span },
}

/// Whether a set of names, held as a sequence, holds `word`.
pub open spec fn set_has(set: Seq<Vec<u8>>, word: Seq<u8>) -> bool {
    exists|i: int| 0 <= i < set.len() && (#[trigger] set[i])@ == word
}

/// Some scope holds `word`.
pub open spec fn scopes_have(scopes: Seq<Vec<Vec<u8>>>, word: Seq<u8>) -> bool {
    exists|i: int| 0 <= i < scopes.len() && set_has((#[trigger] scopes[i])@, word)
}

/// The distance from the innermost scope, counting from `i`, of the first
/// scope that holds `word`.
pub open spec fn depth_from(scopes: Seq<Vec<Vec<u8>>>, word: Seq<u8>, i: int) -> Option<int>
    decreases scopes.len() - i,
{
    if i < 0 || i >= scopes.len() {
        None
    } else if set_has(scopes[scopes.len() - 1 - i]@, word) {
        Some(i)
    } else {
        depth_from(scopes, word, i + 1)
    }
}

/// How many scopes out `word` is declared: in the innermost scope that
/// holds it, or past all of them among the globals.
pub open spec fn depth_of(scopes: Seq<Vec<Vec<u8>>>, globals: Seq<Vec<u8>>, word: Seq<u8>) -> Option<usize> {
    match depth_from(scopes, word, 0) {
        Some(d) => Some(d as usize),
        None => if set_has(globals, word) {
            Some(scopes.len() as usize)
        } else {
            None
        },
    }
}

/// The bytes of `this`.
pub open spec fn this_bytes() -> Seq<u8> {
    seq![116u8, 104u8, 105u8, 115u8]
}

/// The bytes of `super`.
pub open spec fn super_bytes() -> Seq<u8> {
    seq![115u8, 117u8, 112u8, 101u8, 114u8]
}

proof fn lemma_depth_from(scopes: Seq<Vec<Vec<u8>>>, word: Seq<u8>, i: int)
    requires
        0 <= i <= scopes.len(),
    ensures
        match depth_from(scopes, word, i) {
            Some(d) => i <= d < scopes.len() && set_has(scopes[scopes.len() - 1 - d]@, word),
            None => forall|j: int|
                i <= j < scopes.len() ==> !set_has((#[trigger] scopes[scopes.len() - 1 - j])@, word),
        },
    decreases scopes.len() - i,
{
    if i < scopes.len() {
        lemma_depth_from(scopes, word, i + 1);
    }
}

proof fn lemma_has_words(set: Seq<Vec<u8>>, word: Seq<u8>)
    ensures
        set_has(set, word) == words(set).contains(word),
{
    if set_has(set, word) {
        let i = choose|i: int| 0 <= i < set.len() && (#[trigger] set[i])@ == word;
        assert(words(set)[i] == word);
    }
    if words(set).contains(word) {
        let i = choose|i: int| 0 <= i < words(set).len() && words(set)[i] == word;
        assert(set[i]@ == word);
    }
}

proof fn lemma_scope_depth(locals: Seq<Vec<Vec<u8>>>, scopes: Seq<Seq<Seq<u8>>>, word: Seq<u8>, i: int)
    requires
        0 <= i,
        scopes.len() == locals.len(),
        forall|j: int| 0 <= j < locals.len() ==> scopes[j] == words((#[trigger] locals[j])@),
    ensures
        depth_from(locals, word, i) == scope_depth(scopes, word, i),
    decreases locals.len() - i,
{
    if i < locals.len() {
        lemma_has_words(locals[locals.len() - 1 - i]@, word);
        lemma_scope_depth(locals, scopes, word, i + 1);
    }
}

pub(crate) fn bytes_equal(a: &[u8], b: &[u8]) -> (r: bool)
    ensures
        r == (a@ == b@),
{
    let r = word_is(a, 0, a.len(), b);
    proof {
        assert(a@.subrange(0, a@.len() as int) =~= a@);
    }
    r
}

/// Whether `set` holds `word`.
fn contains_word(set: &Vec<Vec<u8>>, word: &[u8]) -> (r: bool)
    ensures
        r == set_has(set@, word@),
{
    let mut i: usize = 0;
    while i < set.len()
        invariant
            i <= set@.len(),
            forall|j: int| 0 <= j < i ==> (#[trigger] set@[j])@ != word@,
        decreases set@.len() - i,
    {
        if bytes_equal(set[i].as_slice(), word) {
            return true;
        }
        i += 1;
    }
    false
}

/// Adds `word` to `set`, unless it holds it.
fn insert_word(set: &mut Vec<Vec<u8>>, word: Vec<u8>)
    ensures
        forall|w: Seq<u8>| set_has(final(set)@, w) <==> (set_has(old(set)@, w) || w == word@),
        words(final(set)@) == add_word(words(old(set)@), word@),
{
    proof {
        lemma_has_words(set@, word@);
    }
    if !contains_word(set, word.as_slice()) {
        let ghost before = set@;
        let ghost added = word@;
        set.push(word);
        proof {
            assert(words(set@) =~= words(before).push(added));
            assert forall|w: Seq<u8>| set_has(set@, w) <==> (set_has(before, w) || w == added) by {
                if set_has(before, w) {
                    let i = choose|i: int| 0 <= i < before.len() && (#[trigger] before[i])@ == w;
                    assert(set@[i] == before[i]);
                }
                if w == added {
                    assert(set@[before.len() as int]@ == w);
                }
                if set_has(set@, w) {
                    let i = choose|i: int| 0 <= i < set@.len() && (#[trigger] set@[i])@ == w;
                    if i < before.len() {
                        assert(before[i] == set@[i]);
                    }
                }
            }
        }
    }
}

/// The depth of each resolved name use, by its decoration index.
pub struct NameResolution {
    resolutions: Vec<(usize, usize)>,
}

/// The value recorded last for `key`.
pub open spec fn recorded(entries: Seq<(usize, usize)>, key: usize) -> Option<usize>
    decreases entries.len(),
{
    if entries.len() == 0 {
        None
    } else if entries.last().0 == key {
        Some(entries.last().1)
    } else {
        recorded(entries.drop_last(), key)
    }
}

impl NameResolution {
    /// The depth recorded for the name use with decoration index `index`.
    pub closed spec fn resolved(&self, index: usize) -> Option<usize> {
        recorded(self.resolutions@, index)
    }

    pub fn new() -> (r: Self)
        ensures
            forall|i: usize| r.resolved(i) is None,
    {
        NameResolution { resolutions: Vec::new() }
    }

    /// The depth recorded for `decoration`, if any.
    pub fn get(&self, decoration: Decoration<NameDecoration>) -> (r: Option<usize>)
        ensures
            r == self.resolved(decoration.spec_index()),
            r == recorded(self.entries(), decoration.spec_index()),
    {
        let key = decoration.index();
        let mut k = self.resolutions.len();
        proof {
            assert(self.resolutions@.subrange(0, k as int) =~= self.resolutions@);
        }
        while k > 0
            invariant
                k <= self.resolutions@.len(),
                key == decoration.spec_index(),
                recorded(self.resolutions@, key) == recorded(self.resolutions@.subrange(0, k as int), key),
            decreases k,
        {
            proof {
                assert(self.resolutions@.subrange(0, k as int).drop_last() =~= self.resolutions@.subrange(0, k - 1));
            }
            if self.resolutions[k - 1].0 == key {
                proof {
                    let e = self.resolutions@.subrange(0, k as int);
                    assert(e.last() == self.resolutions@[k - 1]);
                    assert(e.len() > 0);
                    assert(recorded(e, key) == Some(e.last().1));
                    assert(self.resolved(key) == recorded(self.resolutions@, key));
                }
                return Some(self.resolutions[k - 1].1);
            }
            k -= 1;
        }
        None
    }

    /// The depths recorded so far, by decoration index, in order.
    pub closed spec fn entries(&self) -> Seq<(usize, usize)> {
        self.resolutions@
    }

    fn insert(&mut self, decoration: Decoration<NameDecoration>, depth: usize)
        ensures
            final(self).resolutions@ == old(self).resolutions@.push((decoration.spec_index(), depth)),
            forall|i: usize| #[trigger] final(self).resolved(i) == if i == decoration.spec_index() {
                Some(depth)
            } else {
                old(self).resolved(i)
            },
    {
        let ghost before = self.resolutions@;
        self.resolutions.push((decoration.index(), depth));
        proof {
            assert(self.resolutions@.drop_last() =~= before);
        }
    }

    /// A pass that resolves names into this table, with `globals` as the
    /// names defined at top level.
    pub fn pass(self, globals: Vec<Vec<u8>>) -> (r: NameResolutionPass)
        ensures
            r.resolution().resolved_all() == self.resolved_all(),
            r.globals() == globals@,
            r.scopes().len() == 0,
            r.errors().len() == 0,
            r.kind() == FunctionKind::Free,
            !r.in_subclass(),
            r.state() == (Resolving {
                entries: self.entries(),
                globals: words(globals@),
                scopes: seq![],
                errors: seq![],
                kind: FunctionKind::Free,
                subclass: false,
            }),
    {
        let r = NameResolutionPass {
            resolution: self,
            globals,
            locals: Vec::new(),
            errors: Vec::new(),
            function_kind: FunctionKind::Free,
            is_subclass: false,
        };
        proof {
            assert(r.state().scopes =~= Seq::<Seq<Seq<u8>>>::empty());
            assert(r.state().errors =~= Seq::<ResolveError>::empty());
        }
        r
    }

    /// The whole table, as a map from decoration index to depth.
    pub closed spec fn resolved_all(&self) -> spec_fn(usize) -> Option<usize> {
        |i: usize| recorded(self.resolutions@, i)
    }
}

impl Default for NameResolution {
    fn default() -> (r: Self)
        ensures
            forall|i: usize| r.resolved(i) is None,
    {
        Self::new()
    }
}

/// The kind of function whose body is being resolved.
#[derive(Clone, Copy, Debug)]
pub enum FunctionKind {
    Free,
    Method,
    Initializer { method: Span, class: Span },
}

/// The words of a set of names held as a sequence.
pub open spec fn words(set: Seq<Vec<u8>>) -> Seq<Seq<u8>> {
    set.map_values(|v: Vec<u8>| v@)
}

/// `set` with `word` added at its end, unless it holds it already.
pub open spec fn add_word(set: Seq<Seq<u8>>, word: Seq<u8>) -> Seq<Seq<u8>> {
    if set.contains(word) {
        set
    } else {
        set.push(word)
    }
}

#[verifier::ext_equal]
/// A resolution pass as plain values: the depths recorded so far (the
/// latest entry for a decoration counts), the global names, the local
/// scopes innermost last, the errors found, the kind of function being
/// resolved and whether it belongs to a subclass.
pub struct Resolving {
    pub entries: Seq<(usize, usize)>,
    pub globals: Seq<Seq<u8>>,
    pub scopes: Seq<Seq<Seq<u8>>>,
    pub errors: Seq<ResolveError>,
    pub kind: FunctionKind,
    pub subclass: bool,
}

/// The distance from the innermost scope, counting from `i`, of the first
/// scope that holds `word`.
pub open spec fn scope_depth(scopes: Seq<Seq<Seq<u8>>>, word: Seq<u8>, i: int) -> Option<int>
    decreases scopes.len() - i,
{
    if i < 0 || i >= scopes.len() {
        None
    } else if scopes[scopes.len() - 1 - i].contains(word) {
        Some(i)
    } else {
        scope_depth(scopes, word, i + 1)
    }
}

/// How many scopes out `word` is declared: in the innermost scope that
/// holds it, or past all of them among the globals.
pub open spec fn depth(st: Resolving, word: Seq<u8>) -> Option<usize> {
    match scope_depth(st.scopes, word, 0) {
        Some(d) => Some(d as usize),
        None => if st.globals.contains(word) {
            Some(st.scopes.len() as usize)
        } else {
            None
        },
    }
}

/// Defines `word` in the innermost scope, or as a global at top level.
pub open spec fn define_word(st: Resolving, word: Seq<u8>) -> Resolving {
    if st.scopes.len() > 0 {
        Resolving { scopes: st.scopes.update(st.scopes.len() - 1, add_word(st.scopes.last(), word)), ..st }
    } else {
        Resolving { globals: add_word(st.globals, word), ..st }
    }
}

pub open spec fn record(st: Resolving, decoration: usize, d: usize) -> Resolving {
    Resolving { entries: st.entries.push((decoration, d)), ..st }
}

pub open spec fn fail(st: Resolving, error: ResolveError) -> Resolving {
    Resolving { errors: st.errors.push(error), ..st }
}

pub open spec fn enter(st: Resolving, scope: Seq<Seq<u8>>) -> Resolving {
    Resolving { scopes: st.scopes.push(scope), ..st }
}

pub open spec fn leave(st: Resolving) -> Resolving {
    Resolving { scopes: st.scopes.drop_last(), ..st }
}

pub open spec fn with_kind(st: Resolving, kind: FunctionKind) -> Resolving {
    Resolving { kind, ..st }
}

/// Records the depth of a name use, or an undefined variable.
pub open spec fn use_name(st: Resolving, decoration: usize, identifier: Identifier) -> Resolving {
    match depth(st, identifier.value@) {
        Some(d) => record(st, decoration, d),
        None => fail(st, ResolveError::UndefinedVariable { span: identifier.span }),
    }
}

/// Resolving the names an expression uses.
pub open spec fn r_expr(st: Resolving, e: Expr) -> Resolving
    decreases e, 0int,
{
    match e {
        Expr::Literal(_) => st,
        Expr::Unary(x) => r_expr(st, *x.inner),
        Expr::Binary(x) => r_expr(r_expr(st, *x.left), *x.right),
        Expr::Grouping(x) => r_expr(st, *x.inner),
        Expr::Variable(x) => use_name(st, x.name.decoration.spec_index(), x.name.identifier),
        Expr::Assign(x) => match depth(st, x.name.identifier.value@) {
            Some(d) => r_expr(record(st, x.name.decoration.spec_index(), d), *x.expr),
            None => fail(st, ResolveError::UndefinedVariable { span: x.name.identifier.span }),
        },
        Expr::Call(x) => r_args(r_expr(st, *x.target), x.arguments, 0),
        Expr::Get(x) => r_expr(st, *x.target),
        Expr::SetField(x) => r_expr(r_expr(st, *x.target), *x.expr),
        Expr::This(x) => if st.kind == FunctionKind::Method {
            match depth(st, this_bytes()) {
                Some(d) => record(st, x.decoration.spec_index(), d),
                None => st,
            }
        } else {
            fail(st, ResolveError::ThisOutsideClass { span: x.this })
        },
        Expr::Super(x) => if st.kind is Free || !st.subclass {
            fail(st, ResolveError::SuperOutsideSubclass { span: x.super_ })
        } else {
            match depth(st, super_bytes()) {
                Some(d) => record(st, x.decoration.spec_index(), d),
                None => st,
            }
        },
    }
}

/// Resolving call arguments from the `i`-th on.
pub open spec fn r_args(st: Resolving, p: Punctuated<Expr, Span>, i: int) -> Resolving
    decreases p, p.values@.len() + 1 - i,
{
    if 0 <= i < p.values@.len() {
        r_args(r_expr(st, p.values@[i].0), p, i + 1)
    } else if i == p.values@.len() {
        match p.last {
            Some(b) => r_expr(st, *b),
            None => st,
        }
    } else {
        st
    }
}

/// The names of the first `k` parameters, as a set.
pub open spec fn param_words(items: Seq<Identifier>, k: int) -> Seq<Seq<u8>>
    decreases k,
{
    if k <= 0 {
        seq![]
    } else {
        add_word(param_words(items, k - 1), items[k - 1].value@)
    }
}

/// Resolving a return statement.
pub open spec fn r_return(st: Resolving, x: ReturnStmt) -> Resolving {
    let s1 = match st.kind {
        FunctionKind::Initializer { method, class } => fail(
            st,
            ResolveError::ReturnInInitializer { method, span: x.return_, class },
        ),
        _ => st,
    };
    match x.expr {
        Some(e) => r_expr(
            if s1.scopes.len() == 0 {
                fail(s1, ResolveError::TopLevelReturn { span: x.return_ })
            } else {
                s1
            },
            e,
        ),
        None => s1,
    }
}

/// Resolving one statement.
pub open spec fn r_stmt(st: Resolving, s: Stmt) -> Resolving
    decreases s, 0int,
{
    match s {
        Stmt::VarDecl(x) => define_word(
            match x.assignment {
                Some(a) => r_expr(st, a.expr),
                None => st,
            },
            x.identifier.value@,
        ),
        Stmt::FunDecl(x) => {
            let s1 = define_word(st, x.identifier.value@);
            with_kind(r_body(with_kind(s1, FunctionKind::Free), x.function), s1.kind)
        },
        Stmt::ClassDecl(x) => r_class(st, x),
        Stmt::Expr(x) => r_expr(st, x.expr),
        Stmt::Print(x) => r_expr(st, x.expr),
        Stmt::Block(x) => leave(r_stmts(enter(st, seq![]), x.stmts, 0)),
        Stmt::If(x) => {
            let s1 = r_stmt(r_expr(st, *x.condition.inner), *x.stmt);
            match x.else_clause {
                Some(c) => r_stmt(s1, *c.stmt),
                None => s1,
            }
        },
        Stmt::While(x) => r_stmt(r_expr(st, x.expr), *x.body),
        Stmt::Return(x) => r_return(st, x),
    }
}

/// Resolving statements from the `i`-th on.
pub open spec fn r_stmts(st: Resolving, ss: Vec<Stmt>, i: int) -> Resolving
    decreases ss, ss@.len() - i,
{
    if 0 <= i < ss@.len() {
        r_stmts(r_stmt(st, ss@[i]), ss, i + 1)
    } else {
        st
    }
}

/// Resolving a function body in a scope that holds its parameters.
pub open spec fn r_body(st: Resolving, f: Function) -> Resolving
    decreases f, 0int,
{
    let items = punctuated_items(f.params);
    leave(r_stmts(enter(st, param_words(items, items.len() as int)), f.body.stmts, 0))
}

/// The bytes of `init`.
pub open spec fn init_bytes() -> Seq<u8> {
    seq![105u8, 110u8, 105u8, 116u8]
}

/// Resolving the bodies of methods from the `k`-th on, each as an
/// initializer or a method by its name.
pub open spec fn r_methods(st: Resolving, ms: Vec<Method>, k: int, class: Span) -> Resolving
    decreases ms, ms@.len() - k,
{
    if 0 <= k < ms@.len() {
        let m = ms@[k];
        let kind = if m.identifier.value@ == init_bytes() {
            FunctionKind::Initializer { method: m.identifier.span, class }
        } else {
            FunctionKind::Method
        };
        r_methods(r_body(with_kind(st, kind), m.function), ms, k + 1, class)
    } else {
        st
    }
}

/// Resolving a class declaration after its superclass: its name, then its
/// methods inside a scope for `super` (in a subclass) and one for `this`;
/// the function kind and the subclass flag of `outer` come back.
pub open spec fn r_class_body(outer: Resolving, s0: Resolving, x: ClassDeclStmt, has_super: bool) -> Resolving
    decreases x, 1int,
{
    let s1 = define_word(s0, x.identifier.value@);
    let s2 = if has_super {
        enter(s1, seq![super_bytes()])
    } else {
        s1
    };
    let s3 = r_methods(enter(s2, seq![this_bytes()]), x.methods, 0, x.identifier.span);
    let s4 = if has_super {
        leave(leave(s3))
    } else {
        leave(s3)
    };
    Resolving { kind: outer.kind, subclass: outer.subclass, ..s4 }
}

/// Resolving a class declaration: its superclass, then the rest.
pub open spec fn r_class(st: Resolving, x: ClassDeclStmt) -> Resolving
    decreases x, 2int,
{
    match x.inheritance {
        Some(inh) => match depth(st, inh.superclass.identifier.value@) {
            Some(d) => r_class_body(
                st,
                Resolving { subclass: true, ..record(st, inh.superclass.decoration.spec_index(), d) },
                x,
                true,
            ),
            None => fail(st, ResolveError::UndefinedVariable { span: inh.superclass.identifier.span }),
        },
        None => r_class_body(st, st, x, false),
    }
}

/// Resolves each name use to the number of scopes between it and the
/// declaration it refers to.
pub struct NameResolutionPass {
    resolution: NameResolution,
    globals: Vec<Vec<u8>>,
    locals: Vec<Vec<Vec<u8>>>,
    errors: Vec<ResolveError>,
    function_kind: FunctionKind,
    is_subclass: bool,
}

impl NameResolutionPass {
    /// The pass as plain values.
    pub closed spec fn state(&self) -> Resolving {
        Resolving {
            entries: self.resolution.resolutions@,
            globals: words(self.globals@),
            scopes: self.locals@.map_values(|v: Vec<Vec<u8>>| words(v@)),
            errors: self.errors@,
            kind: self.function_kind,
            subclass: self.is_subclass,
        }
    }

    pub closed spec fn resolution(&self) -> NameResolution {
        self.resolution
    }

    pub closed spec fn globals(&self) -> Seq<Vec<u8>> {
        self.globals@
    }

    /// The local scopes, innermost last, each a set of names.
    pub closed spec fn scopes(&self) -> Seq<Vec<Vec<u8>>> {
        self.locals@
    }

    pub closed spec fn errors(&self) -> Seq<ResolveError> {
        self.errors@
    }

    pub closed spec fn kind(&self) -> FunctionKind {
        self.function_kind
    }

    pub closed spec fn in_subclass(&self) -> bool {
        self.is_subclass
    }

    /// `this` is in scope inside a method, and `super` inside a subclass.
    pub open spec fn wf(&self) -> bool {
        &&& self.kind() == FunctionKind::Method ==> scopes_have(self.scopes(), this_bytes())
        &&& self.in_subclass() ==> scopes_have(self.scopes(), super_bytes())
    }

    /// Ends the pass: its table and globals, and the errors found, if any.
    pub fn finish(self) -> (r: (NameResolution, Vec<Vec<u8>>, Result<(), Vec<ResolveError>>))
        ensures
            r.0 == self.resolution(),
            r.1@ == self.globals(),
            r.2 is Ok <==> self.errors().len() == 0,
            r.2 matches Err(e) ==> e@ == self.errors(),
            r.0.entries() == self.state().entries,
            words(r.1@) == self.state().globals,
    {
        let NameResolutionPass { resolution, globals, errors, .. } = self;
        if errors.len() == 0 {
            (resolution, globals, Ok(()))
        } else {
            (resolution, globals, Err(errors))
        }
    }

    /// Defines `name` in the innermost scope, or as a global at top level.
    fn define(&mut self, name: Vec<u8>)
        ensures
            final(self).locals@.len() == old(self).locals@.len(),
            old(self).locals@.len() > 0 ==> {
                let top = old(self).locals@.len() - 1;
                &&& forall|i: int|
                    0 <= i < top ==> (#[trigger] final(self).locals@[i]) == old(self).locals@[i]
                &&& forall|w: Seq<u8>|
                    set_has(final(self).locals@[top]@, w) <==> (set_has(old(self).locals@[top]@, w)
                        || w == name@)
                &&& final(self).globals@ == old(self).globals@
            },
            old(self).locals@.len() == 0 ==> forall|w: Seq<u8>|
                set_has(final(self).globals@, w) <==> (set_has(old(self).globals@, w) || w
                    == name@),
            final(self).resolution == old(self).resolution,
            final(self).errors@ == old(self).errors@,
            final(self).function_kind == old(self).function_kind,
            final(self).is_subclass == old(self).is_subclass,
            final(self).state() == define_word(old(self).state(), name@),
    {
        let n = self.locals.len();
        let ghost word = name@;
        if n > 0 {
            insert_word(&mut self.locals[n - 1], name);
            proof {
                assert(self.state().scopes =~= old(self).state().scopes.update(
                    n - 1,
                    add_word(old(self).state().scopes.last(), word),
                ));
                assert(self.state() =~= define_word(old(self).state(), word));
            }
        } else {
            insert_word(&mut self.globals, name);
            proof {
                assert(self.state().scopes =~= old(self).state().scopes);
                assert(self.state() =~= define_word(old(self).state(), word));
            }
        }
    }

    /// How many scopes out `name` is declared, if it is.
    fn resolve(&self, name: &[u8]) -> (r: Option<usize>)
        ensures
            r == depth_of(self.locals@, self.globals@, name@),
            r == depth(self.state(), name@),
    {
        proof {
            lemma_scope_depth(self.locals@, self.state().scopes, name@, 0);
            lemma_has_words(self.globals@, name@);
        }
        let n = self.locals.len();
        let mut i: usize = 0;
        proof {
            lemma_depth_from(self.locals@, name@, 0);
        }
        while i < n
            invariant
                i <= n,
                n == self.locals@.len(),
                depth_from(self.locals@, name@, 0) == depth_from(self.locals@, name@, i as int),
                depth_from(self.locals@, name@, 0) == scope_depth(self.state().scopes, name@, 0),
            decreases n - i,
        {
            if contains_word(&self.locals[n - 1 - i], name) {
                return Some(i);
            }
            i += 1;
        }
        if contains_word(&self.globals, name) {
            Some(n)
        } else {
            None
        }
    }
}

proof fn lemma_scopes_have_depth(scopes: Seq<Vec<Vec<u8>>>, word: Seq<u8>)
    requires
        scopes_have(scopes, word),
    ensures
        depth_from(scopes, word, 0) is Some,
{
    lemma_depth_from(scopes, word, 0);
    let i = choose|i: int| 0 <= i < scopes.len() && set_has((#[trigger] scopes[i])@, word);
    if depth_from(scopes, word, 0) is None {
        let j = scopes.len() - 1 - i;
        assert(scopes[scopes.len() - 1 - j] == scopes[i]);
    }
}

/// A set of one word.
fn singleton(word: Vec<u8>) -> (r: Vec<Vec<u8>>)
    ensures
        forall|w: Seq<u8>| set_has(r@, w) <==> w == word@,
        words(r@) == seq![word@],
{
    let mut set: Vec<Vec<u8>> = Vec::new();
    let ghost w = word@;
    proof {
        assert(words(set@) =~= Seq::<Seq<u8>>::empty());
    }
    insert_word(&mut set, word);
    proof {
        assert(add_word(Seq::<Seq<u8>>::empty(), w) =~= seq![w]);
    }
    set
}

fn this_word() -> (r: Vec<u8>)
    ensures
        r@ == this_bytes(),
{
    let r = vec![116u8, 104, 105, 115];
    proof {
        assert(r@ =~= this_bytes());
    }
    r
}

fn super_word() -> (r: Vec<u8>)
    ensures
        r@ == super_bytes(),
{
    let r = vec![115u8, 117, 112, 101, 114];
    proof {
        assert(r@ =~= super_bytes());
    }
    r
}

/// The names of a function's parameters, as a set.
fn param_set(params: &Punctuated<Identifier, Span>) -> (r: Vec<Vec<u8>>)
    ensures
        forall|w: Seq<u8>|
            set_has(r@, w) <==> exists|i: int|
                0 <= i < punctuated_items(*params).len() && (#[trigger] punctuated_items(
                    *params,
                )[i]).value@ == w,
        words(r@) == param_words(punctuated_items(*params), punctuated_items(*params).len() as int),
{
    let items = params.iter();
    let mut set: Vec<Vec<u8>> = Vec::new();
    let mut i: usize = 0;
    proof {
        assert(words(set@) =~= param_words(punctuated_items(*params), 0));
    }
    while i < items.len()
        invariant
            i <= items@.len(),
            words(set@) == param_words(punctuated_items(*params), i as int),
            items@.len() == punctuated_items(*params).len(),
            forall|j: int| 0 <= j < items@.len() ==> *items@[j] == punctuated_items(*params)[j],
            forall|w: Seq<u8>|
                set_has(set@, w) <==> exists|j: int|
                    0 <= j < i && (#[trigger] punctuated_items(*params)[j]).value@ == w,
        decreases items@.len() - i,
    {
        let ghost before = set@;
        let word = items[i].value.clone();
        proof {
            assert(word@ == items@[i as int].value@);
        }
        insert_word(&mut set, word);
        proof {
            assert forall|w: Seq<u8>| set_has(set@, w) <==> exists|j: int|
                0 <= j < i + 1 && (#[trigger] punctuated_items(*params)[j]).value@ == w by {
                if w == punctuated_items(*params)[i as int].value@ {
                }
                if exists|j: int| 0 <= j < i + 1 && (#[trigger] punctuated_items(*params)[j]).value@ == w {
                    let j = choose|j: int| 0 <= j < i + 1 && (#[trigger] punctuated_items(*params)[j]).value@ == w;
                    if j < i {
                        assert(set_has(before, w));
                    }
                }
            }
        }
        i += 1;
    }
    set
}

impl NameResolutionPass {
    /// `next` has the scopes of `self`, save that the innermost scope (or
    /// the globals, at top level) may have gained names; the function kind,
    /// the subclass flag and the errors found so far are kept.
    pub closed spec fn kept(&self, next: Self) -> bool {
        &&& next.locals@.len() == self.locals@.len()
        &&& forall|i: int|
            0 <= i < self.locals@.len() - 1 ==> (#[trigger] next.locals@[i]) == self.locals@[i]
        &&& self.locals@.len() > 0 ==> forall|w: Seq<u8>|
            set_has(self.locals@.last()@, w) ==> set_has(next.locals@.last()@, w)
        &&& forall|w: Seq<u8>| set_has(self.globals@, w) ==> set_has(next.globals@, w)
        &&& next.function_kind == self.function_kind
        &&& next.is_subclass == self.is_subclass
        &&& self.errors@.is_prefix_of(next.errors@)
    }

    /// `next` has the scopes and globals of `self`; only the table and the
    /// errors may have grown.
    pub closed spec fn same_scopes(&self, next: Self) -> bool {
        &&& next.locals@ == self.locals@
        &&& next.globals@ == self.globals@
        &&& next.function_kind == self.function_kind
        &&& next.is_subclass == self.is_subclass
        &&& self.errors@.is_prefix_of(next.errors@)
    }

    proof fn lemma_same_kept(p: Self, q: Self)
        requires
            p.same_scopes(q),
        ensures
            p.kept(q),
    {
    }

    proof fn lemma_kept_trans(p: Self, q: Self, r: Self)
        requires
            p.kept(q),
            q.kept(r),
        ensures
            p.kept(r),
    {
        assert forall|w: Seq<u8>| set_has(p.globals@, w) implies set_has(r.globals@, w) by {
            assert(set_has(q.globals@, w));
        }
        if p.locals@.len() > 0 {
            assert forall|w: Seq<u8>| set_has(p.locals@.last()@, w) implies set_has(r.locals@.last()@, w) by {
                assert(set_has(q.locals@.last()@, w));
            }
        }
    }

    proof fn lemma_kept_wf(p: Self, q: Self)
        requires
            p.wf(),
            p.kept(q),
        ensures
            q.wf(),
    {
        assert forall|w: Seq<u8>| scopes_have(p.locals@, w) implies scopes_have(q.locals@, w) by {
            let i = choose|i: int| 0 <= i < p.locals@.len() && set_has((#[trigger] p.locals@[i])@, w);
            if i < p.locals@.len() - 1 {
                assert(q.locals@[i] == p.locals@[i]);
            } else {
                assert(p.locals@.last() == p.locals@[i]);
                assert(q.locals@.last() == q.locals@[i]);
                assert(set_has(q.locals@[i]@, w));
            }
        }
    }

    fn push_error(&mut self, error: ResolveError)
        ensures
            old(self).same_scopes(*final(self)),
            final(self).resolution == old(self).resolution,
            final(self).errors@ == old(self).errors@.push(error),
            final(self).state() == fail(old(self).state(), error),
    {
        self.errors.push(error);
        proof {
            assert(old(self).errors@.is_prefix_of(self.errors@));
            assert(self.state() =~= fail(old(self).state(), error));
        }
    }

    fn visit_args(&mut self, p: &Punctuated<Expr, Span>)
        requires
            old(self).wf(),
        ensures
            final(self).wf(),
            old(self).same_scopes(*final(self)),
            final(self).state() == r_args(old(self).state(), *p, 0),
        decreases p,
    {
        let ghost p0 = *self;
        let n = p.values.len();
        let mut i: usize = 0;
        while i < n
            invariant
                i <= n,
                n == p.values@.len(),
                self.wf(),
                p0.same_scopes(*self),
                r_args(self.state(), *p, i as int) == r_args(p0.state(), *p, 0),
            decreases n - i,
        {
            self.visit_expr(&p.values[i].0);
            proof {
                assert(p0.errors@.is_prefix_of(self.errors@));
            }
            i += 1;
        }
        match &p.last {
            Some(last) => {
                self.visit_expr(last);
                proof {
                    assert(p0.errors@.is_prefix_of(self.errors@));
                }
            },
            None => {},
        }
    }

    /// Resolves the names an expression uses; a variable resolves to the
    /// innermost scope that declares it.
    pub fn visit_expr(&mut self, e: &Expr)
        requires
            old(self).wf(),
        ensures
            final(self).wf(),
            old(self).same_scopes(*final(self)),
            e matches Expr::Variable(x) ==> match depth_of(
                old(self).scopes(),
                old(self).globals(),
                x.name.identifier.value@,
            ) {
                Some(depth) => {
                    &&& final(self).errors() == old(self).errors()
                    &&& forall|i: usize| #[trigger] final(self).resolution().resolved(i) == if i
                        == x.name.decoration.spec_index() {
                        Some(depth)
                    } else {
                        old(self).resolution().resolved(i)
                    }
                },
                None => {
                    &&& final(self).errors() == old(self).errors().push(
                        ResolveError::UndefinedVariable { span: x.name.identifier.span },
                    )
                    &&& final(self).resolution() == old(self).resolution()
                },
            },
            final(self).state() == r_expr(old(self).state(), *e),
        decreases e,
    {
        let ghost p0 = *self;
        match e {
            Expr::Literal(_) => {
                proof {
                    assert(p0.errors@.is_prefix_of(self.errors@));
                }
            },
            Expr::Unary(x) => self.visit_expr(&x.inner),
            Expr::Binary(x) => {
                self.visit_expr(&x.left);
                self.visit_expr(&x.right);
                proof {
                    assert(p0.errors@.is_prefix_of(self.errors@));
                }
            },
            Expr::Grouping(x) => self.visit_expr(&x.inner),
            Expr::Variable(x) => {
                match self.resolve(x.name.identifier.value.as_slice()) {
                    None => {
                        self.push_error(ResolveError::UndefinedVariable { span: x.name.identifier.span });
                    },
                    Some(depth) => {
                        self.resolution.insert(x.name.decoration, depth);
                        proof {
                            assert(p0.errors@.is_prefix_of(self.errors@));
                            assert(self.state() =~= record(p0.state(), x.name.decoration.spec_index(), depth));
                        }
                    },
                }
            },
            Expr::Assign(x) => {
                match self.resolve(x.name.identifier.value.as_slice()) {
                    None => {
                        self.push_error(ResolveError::UndefinedVariable { span: x.name.identifier.span });
                    },
                    Some(depth) => {
                        self.resolution.insert(x.name.decoration, depth);
                        proof {
                            assert(self.state() =~= record(p0.state(), x.name.decoration.spec_index(), depth));
                        }
                        self.visit_expr(&x.expr);
                        proof {
                            assert(p0.errors@.is_prefix_of(self.errors@));
                        }
                    },
                }
            },
            Expr::Call(x) => {
                self.visit_expr(&x.target);
                self.visit_args(&x.arguments);
                proof {
                    assert(p0.errors@.is_prefix_of(self.errors@));
                }
            },
            Expr::Get(x) => self.visit_expr(&x.target),
            Expr::SetField(x) => {
                self.visit_expr(&x.target);
                self.visit_expr(&x.expr);
                proof {
                    assert(p0.errors@.is_prefix_of(self.errors@));
                }
            },
            Expr::This(x) => {
                match self.function_kind {
                    FunctionKind::Method => {
                        proof {
                            lemma_scopes_have_depth(self.locals@, this_bytes());
                        }
                        let this = this_word();
                        let depth = self.resolve(this.as_slice()).unwrap();
                        self.resolution.insert(x.decoration, depth);
                        proof {
                            assert(p0.errors@.is_prefix_of(self.errors@));
                            assert(self.state() =~= record(p0.state(), x.decoration.spec_index(), depth));
                        }
                    },
                    _ => {
                        self.push_error(ResolveError::ThisOutsideClass { span: x.this });
                    },
                }
            },
            Expr::Super(x) => {
                let free = match self.function_kind {
                    FunctionKind::Free => true,
                    _ => false,
                };
                if free || !self.is_subclass {
                    self.push_error(ResolveError::SuperOutsideSubclass { span: x.super_ });
                } else {
                    proof {
                        lemma_scopes_have_depth(self.locals@, super_bytes());
                    }
                    let word = super_word();
                    let depth = self.resolve(word.as_slice()).unwrap();
                    self.resolution.insert(x.decoration, depth);
                    proof {
                        assert(p0.errors@.is_prefix_of(self.errors@));
                        assert(self.state() =~= record(p0.state(), x.decoration.spec_index(), depth));
                    }
                }
            },
        }
    }
}

impl NameResolutionPass {
    /// Resolves the statements of a block in a scope of their own.
    fn visit_block(&mut self, block: &BlockStmt)
        requires
            old(self).wf(),
        ensures
            final(self).wf(),
            old(self).kept(*final(self)),
            final(self).locals@ == old(self).locals@,
            final(self).globals@ == old(self).globals@,
            final(self).state() == leave(r_stmts(enter(old(self).state(), seq![]), block.stmts, 0)),
        decreases block,
    {
        let ghost p0 = *self;
        let empty: Vec<Vec<u8>> = Vec::new();
        proof {
            assert(words(empty@) =~= Seq::<Seq<u8>>::empty());
        }
        self.locals.push(empty);
        proof {
            Self::lemma_push_wf(p0, *self);
            assert(self.state().scopes =~= p0.state().scopes.push(seq![]));
            assert(self.state() =~= enter(p0.state(), seq![]));
        }
        let ghost p1 = *self;
        self.visit_stmts(&block.stmts);
        let ghost p2 = *self;
        proof {
            Self::lemma_kept_globals_inner(p1, *self);
        }
        self.locals.pop();
        proof {
            assert(self.locals@ =~= p0.locals@);
            assert(p0.errors@.is_prefix_of(self.errors@));
            assert(self.state() =~= leave(p2.state()));
        }
    }

    proof fn lemma_push_wf(p: Self, q: Self)
        requires
            p.wf(),
            q.locals@.len() == p.locals@.len() + 1,
            forall|i: int| 0 <= i < p.locals@.len() ==> #[trigger] q.locals@[i] == p.locals@[i],
            q.function_kind == p.function_kind,
            q.is_subclass == p.is_subclass,
        ensures
            q.wf(),
    {
        assert forall|w: Seq<u8>| scopes_have(p.locals@, w) implies scopes_have(q.locals@, w) by {
            let i = choose|i: int| 0 <= i < p.locals@.len() && set_has((#[trigger] p.locals@[i])@, w);
            assert(q.locals@[i] == p.locals@[i]);
        }
    }

    /// Walking inside a scope of its own keeps the globals.
    proof fn lemma_kept_globals_inner(p: Self, q: Self)
        requires
            p.kept(q),
            p.locals@.len() > 0,
        ensures
            forall|i: int| 0 <= i < p.locals@.len() - 1 ==> #[trigger] q.locals@[i] == p.locals@[i],
    {
    }

    /// Resolves statements in turn.
    fn visit_stmts(&mut self, stmts: &Vec<Stmt>)
        requires
            old(self).wf(),
        ensures
            final(self).wf(),
            old(self).kept(*final(self)),
            old(self).locals@.len() > 0 ==> final(self).globals@ == old(self).globals@,
            final(self).state() == r_stmts(old(self).state(), *stmts, 0),
        decreases stmts,
    {
        let ghost p0 = *self;
        let n = stmts.len();
        let mut i: usize = 0;
        proof {
            assert(p0.errors@.is_prefix_of(p0.errors@));
        }
        while i < n
            invariant
                i <= n,
                n == stmts@.len(),
                self.wf(),
                p0.kept(*self),
                p0.locals@.len() > 0 ==> self.globals@ == p0.globals@,
                r_stmts(self.state(), *stmts, i as int) == r_stmts(p0.state(), *stmts, 0),
            decreases n - i,
        {
            let ghost pi = *self;
            self.visit_stmt(&stmts[i]);
            proof {
                Self::lemma_kept_trans(p0, pi, *self);
            }
            i += 1;
        }
    }

    /// Resolves one statement.
    pub fn visit_stmt(&mut self, stmt: &Stmt)
        requires
            old(self).wf(),
        ensures
            final(self).wf(),
            old(self).kept(*final(self)),
            old(self).scopes().len() > 0 ==> final(self).globals() == old(self).globals(),
            final(self).state() == r_stmt(old(self).state(), *stmt),
        decreases stmt,
    {
        let ghost p0 = *self;
        match stmt {
            Stmt::VarDecl(x) => {
                match &x.assignment {
                    Some(assignment) => self.visit_expr(&assignment.expr),
                    None => {
                        proof {
                            assert(p0.errors@.is_prefix_of(self.errors@));
                        }
                    },
                }
                let ghost p1 = *self;
                self.define(x.identifier.value.clone());
                proof {
                    Self::lemma_define_kept(p1, *self);
                    Self::lemma_same_kept(p0, p1);
                    Self::lemma_kept_trans(p0, p1, *self);
                    Self::lemma_kept_wf(p0, *self);
                }
            },
            Stmt::FunDecl(x) => {
                self.visit_fun_decl(x);
            },
            Stmt::ClassDecl(x) => {
                self.visit_class_decl(x);
            },
            Stmt::Expr(x) => {
                self.visit_expr(&x.expr);
            },
            Stmt::Print(x) => {
                self.visit_expr(&x.expr);
            },
            Stmt::Block(x) => {
                self.visit_block(x);
            },
            Stmt::If(x) => {
                self.visit_expr(&x.condition.inner);
                let ghost p1 = *self;
                self.visit_stmt(&x.stmt);
                let ghost p2 = *self;
                proof {
                    Self::lemma_same_kept(p0, p1);
                    Self::lemma_kept_trans(p0, p1, p2);
                }
                match &x.else_clause {
                    Some(else_clause) => {
                        self.visit_stmt(&else_clause.stmt);
                        proof {
                            Self::lemma_kept_trans(p0, p2, *self);
                        }
                    },
                    None => {},
                }
            },
            Stmt::While(x) => {
                self.visit_expr(&x.expr);
                let ghost p1 = *self;
                self.visit_stmt(&x.body);
                proof {
                    Self::lemma_same_kept(p0, p1);
                    Self::lemma_kept_trans(p0, p1, *self);
                }
            },
            Stmt::Return(x) => {
                self.visit_return(x);
            },
        }
    }

    proof fn lemma_define_kept(p: Self, q: Self)
        requires
            q.locals@.len() == p.locals@.len(),
            p.locals@.len() > 0 ==> {
                let top = p.locals@.len() - 1;
                &&& forall|i: int| 0 <= i < top ==> (#[trigger] q.locals@[i]) == p.locals@[i]
                &&& forall|w: Seq<u8>| set_has(p.locals@[top]@, w) ==> set_has(q.locals@[top]@, w)
                &&& q.globals@ == p.globals@
            },
            p.locals@.len() == 0 ==> forall|w: Seq<u8>| set_has(p.globals@, w) ==> set_has(q.globals@, w),
            q.errors@ == p.errors@,
            q.function_kind == p.function_kind,
            q.is_subclass == p.is_subclass,
        ensures
            p.kept(q),
            p.locals@.len() > 0 ==> q.globals@ == p.globals@,
    {
        assert(p.errors@.is_prefix_of(q.errors@));
        if p.locals@.len() > 0 {
            let top = p.locals@.len() - 1;
            assert(p.locals@.last() == p.locals@[top]);
            assert(q.locals@.last() == q.locals@[top]);
        }
    }

    fn visit_return(&mut self, node: &ReturnStmt)
        requires
            old(self).wf(),
        ensures
            final(self).wf(),
            old(self).same_scopes(*final(self)),
            final(self).state() == r_return(old(self).state(), *node),
    {
        let ghost p0 = *self;
        match self.function_kind {
            FunctionKind::Initializer { method, class } => {
                self.push_error(ResolveError::ReturnInInitializer { method, span: node.return_, class });
            },
            _ => {},
        }
        match &node.expr {
            Some(expr) => {
                if self.locals.len() == 0 {
                    self.push_error(ResolveError::TopLevelReturn { span: node.return_ });
                }
                self.visit_expr(expr);
            },
            None => {},
        }
        proof {
            assert(p0.errors@.is_prefix_of(self.errors@));
        }
    }

    /// Resolves a function body in a scope that holds its parameters.
    fn visit_body(&mut self, function: &Function)
        requires
            old(self).wf(),
        ensures
            final(self).wf(),
            final(self).locals@ == old(self).locals@,
            final(self).globals@ == old(self).globals@,
            final(self).function_kind == old(self).function_kind,
            final(self).is_subclass == old(self).is_subclass,
            old(self).errors@.is_prefix_of(final(self).errors@),
            final(self).state() == r_body(old(self).state(), *function),
        decreases function,
    {
        let ghost p0 = *self;
        let params = param_set(&function.params);
        let ghost items = punctuated_items(function.params);
        self.locals.push(params);
        proof {
            Self::lemma_push_wf(p0, *self);
            assert(self.state() =~= enter(p0.state(), param_words(items, items.len() as int)));
        }
        let ghost p1 = *self;
        self.visit_stmts(&function.body.stmts);
        let ghost p2 = *self;
        proof {
            Self::lemma_kept_globals_inner(p1, *self);
        }
        self.locals.pop();
        proof {
            assert(self.locals@ =~= p0.locals@);
            assert(self.state() =~= leave(p2.state()));
        }
    }

    fn visit_fun_decl(&mut self, node: &FunDeclStmt)
        requires
            old(self).wf(),
        ensures
            final(self).wf(),
            old(self).kept(*final(self)),
            old(self).scopes().len() > 0 ==> final(self).globals() == old(self).globals(),
            final(self).state() == ({
                let s1 = define_word(old(self).state(), node.identifier.value@);
                with_kind(r_body(with_kind(s1, FunctionKind::Free), node.function), s1.kind)
            }),
        decreases node,
    {
        let ghost p0 = *self;
        self.define(node.identifier.value.clone());
        let ghost p1 = *self;
        proof {
            Self::lemma_define_kept(p0, p1);
            Self::lemma_kept_wf(p0, p1);
        }
        let prev_function_kind = self.function_kind;
        self.function_kind = FunctionKind::Free;
        proof {
            assert(self.state() =~= with_kind(p1.state(), FunctionKind::Free));
        }
        self.visit_body(&node.function);
        let ghost p2 = *self;
        self.function_kind = prev_function_kind;
        proof {
            assert(self.state() =~= with_kind(p2.state(), p1.state().kind));
            assert(p1.errors@.is_prefix_of(self.errors@));
            assert(p1.kept(*self));
            Self::lemma_kept_trans(p0, p1, *self);
        }
    }

    fn visit_class_decl(&mut self, node: &ClassDeclStmt)
        requires
            old(self).wf(),
        ensures
            final(self).wf(),
            old(self).kept(*final(self)),
            old(self).scopes().len() > 0 ==> final(self).globals() == old(self).globals(),
            final(self).state() == r_class(old(self).state(), *node),
        decreases node,
    {
        let ghost p0 = *self;
        let was_subclass = self.is_subclass;
        let has_superclass;
        match &node.inheritance {
            Some(inheritance) => {
                match self.resolve(inheritance.superclass.identifier.value.as_slice()) {
                    None => {
                        self.push_error(
                            ResolveError::UndefinedVariable { span: inheritance.superclass.identifier.span },
                        );
                        return;
                    },
                    Some(depth) => {
                        self.resolution.insert(inheritance.superclass.decoration, depth);
                        self.is_subclass = true;
                        proof {
                            assert(self.state() =~= Resolving {
                                subclass: true,
                                ..record(p0.state(), inheritance.superclass.decoration.spec_index(), depth)
                            });
                        }
                    },
                }
                has_superclass = true;
            },
            None => {
                has_superclass = false;
            },
        }
        let ghost pa = *self;
        self.define(node.identifier.value.clone());
        let ghost pb = *self;
        let prev_function_kind = self.function_kind;
        if has_superclass {
            self.locals.push(singleton(super_word()));
            proof {
                assert(self.state() =~= enter(pb.state(), seq![super_bytes()]));
            }
        }
        let ghost pm = *self;
        self.locals.push(singleton(this_word()));
        let ghost pc = *self;
        proof {
            assert(self.state() =~= enter(pm.state(), seq![this_bytes()]));
        }
        proof {
            assert forall|i: int| 0 <= i < pb.locals@.len() implies #[trigger] pc.locals@[i] == pb.locals@[i] by {
            }
            assert(scopes_have(pc.locals@, this_bytes())) by {
                assert(set_has(pc.locals@[pc.locals@.len() - 1]@, this_bytes()));
            }
            if has_superclass {
                assert(set_has(pc.locals@[pb.locals@.len() as int]@, super_bytes()));
            }
            if was_subclass {
                let i = choose|i: int| 0 <= i < p0.locals@.len() && set_has((#[trigger] p0.locals@[i])@, super_bytes());
                if i < p0.locals@.len() - 1 {
                    assert(pc.locals@[i] == p0.locals@[i]);
                } else {
                    assert(p0.locals@.last() == p0.locals@[i]);
                    assert(pb.locals@.last() == pb.locals@[i]);
                    assert(set_has(pc.locals@[i]@, super_bytes()));
                }
            }
        }
        let n = node.methods.len();
        let mut k: usize = 0;
        while k < n
            invariant
                k <= n,
                n == node.methods@.len(),
                self.locals@ == pc.locals@,
                self.globals@ == pc.globals@,
                self.is_subclass == pc.is_subclass,
                scopes_have(self.locals@, this_bytes()),
                self.is_subclass ==> scopes_have(self.locals@, super_bytes()),
                pc.errors@.is_prefix_of(self.errors@),
                r_methods(self.state(), node.methods, k as int, node.identifier.span) == r_methods(
                    pc.state(),
                    node.methods,
                    0,
                    node.identifier.span,
                ),
            decreases n - k,
        {
            let method = &node.methods[k];
            let init: [u8; 4] = [105u8, 110, 105, 116];
            let is_init = word_is(
                method.identifier.value.as_slice(),
                0,
                method.identifier.value.len(),
                &init,
            );
            proof {
                assert(init@ =~= init_bytes());
                assert(method.identifier.value@.subrange(0, method.identifier.value@.len() as int)
                    =~= method.identifier.value@);
            }
            let ghost pk = *self;
            self.function_kind = if is_init {
                FunctionKind::Initializer { method: method.identifier.span, class: node.identifier.span }
            } else {
                FunctionKind::Method
            };
            proof {
                assert(self.state() =~= with_kind(pk.state(), self.function_kind));
            }
            self.visit_body(&method.function);
            k += 1;
        }
        let ghost p3 = *self;
        self.locals.pop();
        proof {
            assert(self.state() =~= leave(p3.state()));
        }
        if has_superclass {
            let ghost p4 = *self;
            self.locals.pop();
            proof {
                assert(self.state() =~= leave(p4.state()));
            }
        }
        let ghost p5 = *self;
        self.function_kind = prev_function_kind;
        self.is_subclass = was_subclass;
        proof {
            assert(self.state() =~= Resolving { kind: p0.state().kind, subclass: p0.state().subclass, ..p5.state() });
            assert(self.locals@ =~= pb.locals@);
            assert(pa.errors@.is_prefix_of(self.errors@));
            assert(p0.errors@.is_prefix_of(self.errors@));
            Self::lemma_define_kept(pa, pb);
            assert(pa.locals@ == p0.locals@);
            assert(pa.globals@ == p0.globals@);
            if p0.locals@.len() > 0 {
                assert forall|w: Seq<u8>| set_has(p0.locals@.last()@, w) implies set_has(self.locals@.last()@, w) by {
                    assert(set_has(pb.locals@.last()@, w));
                }
            }
            assert forall|w: Seq<u8>| set_has(p0.globals@, w) implies set_has(self.globals@, w) by {
                assert(set_has(pb.globals@, w));
            }
            assert(p0.kept(*self));
            Self::lemma_kept_wf(p0, *self);
        }
    }
}

} // verus!
