use vstd::prelude::*;

use crate::ast::{BlockStmt, Function, Identifier};
use crate::executable::Place;
use crate::span::Span;
use crate::token::word_is;

verus! {

/// Why a program does not compile.
#[derive(Clone, Copy, Debug, PartialEq, Eq)]
pub enum CompileError {
    UndefinedItem { span: Span },
    ItemRedefined { original: Span, redefinition: Span },
    ReturnInInitializer { span: Span },
}

/// What a name use refers to.
#[derive(Clone, Copy, Debug, PartialEq, Eq, Structural)]
pub enum Resolution {
    /// A local variable of the current function.
    Local { local_index: usize },
    /// An upvalue of the current closure.
    Upvalue { upvalue_index: usize },
    /// A global variable.
    Global,
}

pub open spec fn resolution_of(place: Place) -> Resolution {
    match place {
        Place::Local { local_index } => Resolution::Local { local_index },
        Place::Upvalue { upvalue_index } => Resolution::Upvalue { upvalue_index },
    }
}

impl From<Place> for Resolution {
    fn from(value: Place) -> (r: Self) {
        match value {
            Place::Local { local_index } => Resolution::Local { local_index },
            Place::Upvalue { upvalue_index } => Resolution::Upvalue { upvalue_index },
        }
    }
}

impl vstd::std_specs::convert::FromSpecImpl<Place> for Resolution {
    open spec fn obeys_from_spec() -> bool {
        true
    }

    open spec fn from_spec(v: Place) -> Resolution {
        resolution_of(v)
    }
}

/// How a block-local variable is used.
#[derive(Clone, Copy, Debug, PartialEq, Eq, Structural)]
pub enum LocalDeclaration {
    /// Only by the function that declares it.
    Local,
    /// Also by a closure, which captures it.
    Capture,
}

/// The kind of function whose body is being resolved.
#[derive(Clone, Copy, Debug, PartialEq, Eq, Structural)]
pub enum FrameKind {
    Function,
    Method,
    Initializer,
}

impl FrameKind {
    /// The local slots that a frame of this kind reserves without naming
    /// them: a function's own slot; a method names its slot `this`.
    pub open spec fn spec_unused_reserved_names(self) -> usize {
        match self {
            FrameKind::Function => 1,
            FrameKind::Method => 0,
            FrameKind::Initializer => 0,
        }
    }

    pub(crate) fn unused_reserved_names(&self) -> (r: usize)
        ensures
            r == self.spec_unused_reserved_names(),
    {
        match self {
            FrameKind::Function => 1,
            FrameKind::Method => 0,
            FrameKind::Initializer => 0,
        }
    }
}

/// A name that can be declared or used: an identifier, or `this`.
#[derive(Clone, Copy)]
pub(crate) enum Name<'ast> {
    Ident(&'ast Identifier),
    This(Span),
}

/// The bytes of `this`.
pub open spec fn this_word() -> Seq<u8> {
    seq![116u8, 104u8, 105u8, 115u8]
}

pub(crate) open spec fn name_str(n: Name) -> Seq<u8> {
    match n {
        Name::Ident(identifier) => identifier.value@,
        Name::This(_) => this_word(),
    }
}

pub(crate) open spec fn name_span(n: Name) -> Span {
    match n {
        Name::Ident(identifier) => identifier.span,
        Name::This(span) => span,
    }
}

fn is_this(bytes: &Vec<u8>) -> (r: bool)
    ensures
        r == (bytes@ == this_word()),
{
    let r = word_is(bytes.as_slice(), 0, bytes.len(), &[116u8, 104, 105, 115]);
    proof {
        assert(bytes@.subrange(0, bytes@.len() as int) =~= bytes@);
    }
    r
}

impl<'ast> Name<'ast> {
    pub(crate) fn span(&self) -> (r: Span)
        ensures
            r == name_span(*self),
    {
        match self {
            Name::Ident(identifier) => identifier.span,
            Name::This(span) => *span,
        }
    }

    /// Whether two names spell the same word.
    pub(crate) fn same(&self, other: &Name<'ast>) -> (r: bool)
        ensures
            r == (name_str(*self) == name_str(*other)),
    {
        match (self, other) {
            (Name::Ident(a), Name::Ident(b)) => {
                let r = word_is(a.value.as_slice(), 0, a.value.len(), b.value.as_slice());
                proof {
                    assert(a.value@.subrange(0, a.value@.len() as int) =~= a.value@);
                }
                r
            },
            (Name::Ident(a), Name::This(_)) => is_this(&a.value),
            (Name::This(_), Name::Ident(b)) => is_this(&b.value),
            (Name::This(_), Name::This(_)) => true,
        }
    }
}

/// The words of a sequence of names.
pub(crate) open spec fn words(names: Seq<Name>) -> Seq<Seq<u8>> {
    names.map_values(|n: Name| name_str(n))
}

pub(crate) open spec fn distinct_words(names: Seq<Name>) -> bool {
    forall|i: int, j: int|
        0 <= i < j < names.len() ==> name_str(#[trigger] names[i]) != name_str(#[trigger] names[j])
}

/// The names declared in one block, in order of declaration: the name at
/// position `i` is the block's `i`-th local.
pub(crate) struct Scope<'ast> {
    pub(crate) block: &'ast BlockStmt,
    pub(crate) names: Vec<Name<'ast>>,
    pub(crate) local_decls: Vec<LocalDeclaration>,
}

impl<'ast> Scope<'ast> {
    pub(crate) open spec fn wf(&self) -> bool {
        &&& self.names@.len() == self.local_decls@.len()
        &&& distinct_words(self.names@)
    }

    pub(crate) open spec fn holds(&self, word: Seq<u8>) -> bool {
        exists|i: int| 0 <= i < self.names@.len() && name_str(#[trigger] self.names@[i]) == word
    }

    pub(crate) fn new(block: &'ast BlockStmt) -> (r: Self)
        ensures
            r.wf(),
            r.block == block,
            r.names@.len() == 0,
            r.local_decls@.len() == 0,
    {
        Scope { block, names: Vec::new(), local_decls: Vec::new() }
    }

    /// The position of `name` among the declared names; with `and_capture`
    /// the local is marked as captured.
    pub(crate) fn resolve(&mut self, name: Name<'ast>, and_capture: bool) -> (r: Option<usize>)
        requires
            old(self).wf(),
        ensures
            final(self).wf(),
            final(self).block == old(self).block,
            final(self).names@ == old(self).names@,
            match r {
                Some(i) => {
                    &&& i < old(self).names@.len()
                    &&& name_str(old(self).names@[i as int]) == name_str(name)
                    &&& final(self).local_decls@ == if and_capture {
                        old(self).local_decls@.update(i as int, LocalDeclaration::Capture)
                    } else {
                        old(self).local_decls@
                    }
                },
                None => {
                    &&& !old(self).holds(name_str(name))
                    &&& final(self).local_decls@ == old(self).local_decls@
                },
            },
    {
        let mut i: usize = 0;
        while i < self.names.len()
            invariant
                i <= self.names@.len(),
                *self == *old(self),
                old(self).wf(),
                forall|j: int| 0 <= j < i ==> name_str(self.names@[j]) != name_str(name),
            decreases self.names@.len() - i,
        {
            if self.names[i].same(&name) {
                if and_capture {
                    self.local_decls.set(i, LocalDeclaration::Capture);
                }
                return Some(i);
            }
            i += 1;
        }
        None
    }

    /// Declares `name` as the next local, unless the block already declares
    /// it.
    pub(crate) fn declare(&mut self, name: Name<'ast>) -> (r: Result<usize, CompileError>)
        requires
            old(self).wf(),
        ensures
            final(self).wf(),
            final(self).block == old(self).block,
            match r {
                Ok(i) => {
                    &&& i == old(self).names@.len()
                    &&& !old(self).holds(name_str(name))
                    &&& final(self).names@ == old(self).names@.push(name)
                    &&& final(self).local_decls@ == old(self).local_decls@.push(
                        LocalDeclaration::Local,
                    )
                },
                Err(e) => {
                    &&& final(self).names@ == old(self).names@
                    &&& final(self).local_decls@ == old(self).local_decls@
                    &&& exists|j: int|
                        0 <= j < old(self).names@.len() && name_str(#[trigger] old(self).names@[j])
                            == name_str(name) && e == CompileError::ItemRedefined {
                            original: name_span(old(self).names@[j]),
                            redefinition: name_span(name),
                        }
                },
            },
    {
        let mut i: usize = 0;
        while i < self.names.len()
            invariant
                i <= self.names@.len(),
                *self == *old(self),
                old(self).wf(),
                forall|j: int| 0 <= j < i ==> name_str(self.names@[j]) != name_str(name),
            decreases self.names@.len() - i,
        {
            if self.names[i].same(&name) {
                return Err(
                    CompileError::ItemRedefined {
                        original: self.names[i].span(),
                        redefinition: name.span(),
                    },
                );
            }
            i += 1;
        }
        let index = self.local_decls.len();
        self.names.push(name);
        self.local_decls.push(LocalDeclaration::Local);
        Ok(index)
    }
}


/// The number of locals declared in the first `k` scopes.
pub(crate) open spec fn sum_lens(scopes: Seq<Scope>, k: int) -> int
    decreases k,
{
    if k <= 0 {
        0
    } else {
        sum_lens(scopes, k - 1) + scopes[k - 1].names@.len()
    }
}

/// The innermost of the first `k` scopes that declares `word`, or -1.
pub(crate) open spec fn innermost(scopes: Seq<Scope>, word: Seq<u8>, k: int) -> int
    decreases k,
{
    if k <= 0 {
        -1
    } else if scopes[k - 1].holds(word) {
        k - 1
    } else {
        innermost(scopes, word, k - 1)
    }
}

proof fn lemma_sum_lens_mono(scopes: Seq<Scope>, j: int, k: int)
    requires
        0 <= j <= k <= scopes.len(),
    ensures
        sum_lens(scopes, j) <= sum_lens(scopes, k),
    decreases k - j,
{
    if j < k {
        lemma_sum_lens_mono(scopes, j, k - 1);
    }
}

proof fn lemma_sum_lens_same(a: Seq<Scope>, b: Seq<Scope>, k: int)
    requires
        0 <= k <= a.len(),
        k <= b.len(),
        forall|j: int| 0 <= j < k ==> a[j].names@.len() == b[j].names@.len(),
    ensures
        sum_lens(a, k) == sum_lens(b, k),
    decreases k,
{
    if k > 0 {
        lemma_sum_lens_same(a, b, k - 1);
    }
}

pub(crate) proof fn lemma_innermost_range(scopes: Seq<Scope>, word: Seq<u8>, k: int)
    requires
        0 <= k <= scopes.len(),
    ensures
        -1 <= innermost(scopes, word, k) < k,
        innermost(scopes, word, k) >= 0 ==> scopes[innermost(scopes, word, k)].holds(word),
        innermost(scopes, word, k) == -1 ==> forall|j: int| 0 <= j < k ==> !(#[trigger] scopes[j].holds(word)),
    decreases k,
{
    if k > 0 {
        lemma_innermost_range(scopes, word, k - 1);
    }
}

/// Two scope stacks with the same names in the same blocks.
pub(crate) open spec fn same_names(a: Seq<Scope>, b: Seq<Scope>) -> bool {
    &&& a.len() == b.len()
    &&& forall|j: int|
        0 <= j < a.len() ==> (#[trigger] a[j]).names@ == b[j].names@ && a[j].block == b[j].block
            && a[j].local_decls@.len() == b[j].local_decls@.len()
}

/// Two scope stacks that agree everywhere.
pub(crate) open spec fn same_scopes(a: Seq<Scope>, b: Seq<Scope>) -> bool {
    &&& same_names(a, b)
    &&& forall|j: int| 0 <= j < a.len() ==> (#[trigger] a[j]).local_decls@ == b[j].local_decls@
}

/// The scopes of one function body (or of the top level), innermost last,
/// and the number of local slots in use.
pub(crate) struct Context<'ast> {
    pub(crate) scopes: Vec<Scope<'ast>>,
    pub(crate) local_count: usize,
}

/// What declaring `name` in `old` gives: `new`, and the outcome `r`.
pub(crate) open spec fn declared_as(old: Context, new: Context, name: Name, r: Option<Result<(), CompileError>>) -> bool {
    &&& new.wf()
    &&& (old.scopes@.len() == 0 ==> r is None && new.scopes@ == old.scopes@
                && new.local_count == old.local_count)
    &&& (old.scopes@.len() > 0 ==> {
                let last = old.scopes@.len() - 1;
                &&& r is Some
                &&& new.scopes@.len() == old.scopes@.len()
                &&& forall|k: int|
                    0 <= k < last ==> (#[trigger] new.scopes@[k]) == old.scopes@[k]
                &&& new.scopes@[last].block == old.scopes@[last].block
                &&& match r.unwrap() {
                    Ok(()) => {
                        &&& !old.scopes@[last].holds(name_str(name))
                        &&& new.scopes@[last].names@ == old.scopes@[last].names@.push(
                            name,
                        )
                        &&& new.scopes@[last].local_decls@ == old.scopes@[last].local_decls@.push(LocalDeclaration::Local)
                        &&& new.local_count == old.local_count + 1
                    },
                    Err(e) => {
                        &&& new.scopes@[last].names@ == old.scopes@[last].names@
                        &&& new.scopes@[last].local_decls@ == old.scopes@[last].local_decls@
                        &&& new.local_count == old.local_count
                        &&& exists|i: int|
                            0 <= i < old.scopes@[last].names@.len() && name_str(
                                #[trigger] old.scopes@[last].names@[i],
                            ) == name_str(name) && e == CompileError::ItemRedefined {
                                original: name_span(old.scopes@[last].names@[i]),
                                redefinition: name_span(name),
                            }
                    },
                }
            })
}

impl<'ast> Context<'ast> {
    pub(crate) open spec fn wf(&self) -> bool {
        &&& forall|j: int| 0 <= j < self.scopes@.len() ==> (#[trigger] self.scopes@[j]).wf()
        &&& self.local_count >= sum_lens(self.scopes@, self.scopes@.len() as int)
    }

    /// The blocks of the scopes, innermost last.
    pub(crate) open spec fn blocks(&self) -> Seq<&'ast BlockStmt> {
        self.scopes@.map_values(|sc: Scope<'ast>| sc.block)
    }

    /// The slots in use that no scope names.
    pub(crate) open spec fn reserved(&self) -> int {
        self.local_count - sum_lens(self.scopes@, self.scopes@.len() as int)
    }

    /// The slot of the `i`-th local of scope `j`.
    pub(crate) open spec fn slot(&self, j: int, i: int) -> int {
        self.reserved() + sum_lens(self.scopes@, j) + i
    }

    pub(crate) fn empty() -> (r: Self)
        ensures
            r.wf(),
            r.scopes@.len() == 0,
            r.local_count == 0,
    {
        Self::with_reserved(0)
    }

    pub(crate) fn with_reserved(local_count: usize) -> (r: Self)
        ensures
            r.wf(),
            r.scopes@.len() == 0,
            r.local_count == local_count,
    {
        Context { scopes: Vec::new(), local_count }
    }

    pub(crate) fn push_scope(&mut self, block: &'ast BlockStmt)
        requires
            old(self).wf(),
        ensures
            final(self).wf(),
            final(self).local_count == old(self).local_count,
            final(self).scopes@.len() == old(self).scopes@.len() + 1,
            same_scopes(final(self).scopes@.drop_last(), old(self).scopes@),
            final(self).scopes@.last().block == block,
            final(self).scopes@.last().names@.len() == 0,
            final(self).scopes@.last().local_decls@.len() == 0,
            final(self).blocks() == old(self).blocks().push(block),
    {
        let ghost before = self.scopes@;
        self.scopes.push(Scope::new(block));
        proof {
            assert(self.scopes@.drop_last() =~= before);
            assert(self.blocks() =~= old(self).blocks().push(block));
            lemma_sum_lens_same(self.scopes@, before, before.len() as int);
        }
    }

    pub(crate) fn pop_scope(&mut self) -> (r: Option<Scope<'ast>>)
        requires
            old(self).wf(),
        ensures
            final(self).wf(),
            old(self).scopes@.len() == 0 ==> r is None && final(self).scopes@ == old(self).scopes@
                && final(self).local_count == old(self).local_count,
            old(self).scopes@.len() > 0 ==> {
                &&& r == Some(old(self).scopes@.last())
                &&& final(self).scopes@ == old(self).scopes@.drop_last()
                &&& final(self).local_count == old(self).local_count - old(
                    self,
                ).scopes@.last().names@.len()
                &&& final(self).blocks() == old(self).blocks().drop_last()
            },
    {
        let ghost before = self.scopes@;
        match self.scopes.pop() {
            Some(scope) => {
                proof {
                    assert(self.scopes@ =~= before.drop_last());
                    assert(self.blocks() =~= old(self).blocks().drop_last());
                    lemma_sum_lens_same(self.scopes@, before, self.scopes@.len() as int);
                    assert(before[before.len() - 1].wf());
                    lemma_sum_lens_mono(before, 0, before.len() - 1);
                }
                self.local_count = self.local_count - scope.local_decls.len();
                Some(scope)
            },
            None => None,
        }
    }

    /// The slot of the innermost declaration of `name`; with `and_capture`
    /// that local is marked as captured.
    pub(crate) fn resolve(&mut self, name: Name<'ast>, and_capture: bool) -> (r: Option<usize>)
        requires
            old(self).wf(),
        ensures
            final(self).wf(),
            final(self).local_count == old(self).local_count,
            same_names(final(self).scopes@, old(self).scopes@),
            ({
                let j = innermost(old(self).scopes@, name_str(name), old(self).scopes@.len() as int);
                match r {
                    Some(slot) => {
                        let i = slot - old(self).slot(j, 0);
                        &&& 0 <= j < old(self).scopes@.len()
                        &&& 0 <= i < old(self).scopes@[j].names@.len()
                        &&& name_str(old(self).scopes@[j].names@[i]) == name_str(name)
                        &&& forall|k: int|
                            0 <= k < old(self).scopes@.len() && k != j
                                ==> (#[trigger] final(self).scopes@[k]).local_decls@ == old(
                                self,
                            ).scopes@[k].local_decls@
                        &&& final(self).scopes@[j].local_decls@ == if and_capture {
                            old(self).scopes@[j].local_decls@.update(i, LocalDeclaration::Capture)
                        } else {
                            old(self).scopes@[j].local_decls@
                        }
                    },
                    None => j == -1 && same_scopes(final(self).scopes@, old(self).scopes@),
                }
            }),
    {
        let ghost word = name_str(name);
        let ghost n = self.scopes@.len() as int;
        proof {
            lemma_sum_lens_mono(self.scopes@, n, n);
        }
        let mut base_index = self.local_count;
        let mut k = self.scopes.len();
        while k > 0
            invariant
                k <= n,
                n == self.scopes@.len(),
                self.local_count == old(self).local_count,
                same_scopes(self.scopes@, old(self).scopes@),
                old(self).wf(),
                self.wf(),
                base_index == old(self).slot(k as int, 0),
                innermost(old(self).scopes@, word, n) == innermost(old(self).scopes@, word, k as int),
                word == name_str(name),
            decreases k,
        {
            k -= 1;
            proof {
                lemma_sum_lens_mono(old(self).scopes@, k as int, n);
                lemma_sum_lens_mono(old(self).scopes@, 0, k as int);
                lemma_sum_lens_same(self.scopes@, old(self).scopes@, n);
                assert(self.scopes@[k as int].wf());
            }
            base_index = base_index - self.scopes[k].local_decls.len();
            let ghost scopes_before = self.scopes@;
            let found = self.scopes[k].resolve(name, and_capture);
            proof {
                lemma_sum_lens_same(self.scopes@, scopes_before, n);
            }
            match found {
                Some(local_index) => {
                    proof {
                        assert(old(self).scopes@[k as int].holds(word));
                        lemma_sum_lens_mono(old(self).scopes@, k + 1, n);
                    }
                    return Some(base_index + local_index);
                },
                None => {
                    proof {
                        assert(self.scopes@[k as int].local_decls@ =~= scopes_before[k as int].local_decls@);
                    }
                },
            }
        }
        None
    }

    /// Declares `name` in the innermost scope; `None` when there is no
    /// scope.
    pub(crate) fn declare(&mut self, name: Name<'ast>) -> (r: Option<Result<(), CompileError>>)
        requires
            old(self).wf(),
            old(self).local_count < usize::MAX,
        ensures
            declared_as(*old(self), *final(self), name, r),
    {
        let n = self.scopes.len();
        if n > 0 {
            let ghost before = self.scopes@;
            let declared = self.scopes[n - 1].declare(name);
            proof {
                lemma_sum_lens_same(self.scopes@, before, n - 1);
            }
            match declared {
                Err(error) => Some(Err(error)),
                Ok(_) => {
                    self.local_count = self.local_count + 1;
                    Some(Ok(()))
                },
            }
        } else {
            None
        }
    }
}


/// The upvalue index recorded for `word`: the latest entry for it.
pub(crate) open spec fn captured(entries: Seq<(Name, usize)>, word: Seq<u8>) -> Option<usize>
    decreases entries.len(),
{
    if entries.len() == 0 {
        None
    } else if name_str(entries.last().0) == word {
        Some(entries.last().1)
    } else {
        captured(entries.drop_last(), word)
    }
}

/// The state of one function being resolved: its scopes and what it
/// captures from enclosing functions.
pub(crate) struct Frame<'ast> {
    pub(crate) function: &'ast Function,
    pub(crate) context: Context<'ast>,
    pub(crate) capture_names: Vec<(Name<'ast>, usize)>,
    pub(crate) captures: Vec<Place>,
    pub(crate) kind: FrameKind,
}

impl<'ast> Frame<'ast> {
    pub(crate) open spec fn wf(&self) -> bool {
        &&& self.context.wf()
        &&& forall|i: int|
            0 <= i < self.capture_names@.len() ==> (#[trigger] self.capture_names@[i]).1
                < self.captures@.len()
    }

    pub(crate) open spec fn upvalue(&self, word: Seq<u8>) -> Option<usize> {
        captured(self.capture_names@, word)
    }

    pub(crate) fn new(function: &'ast Function, kind: FrameKind) -> (r: Self)
        ensures
            r.wf(),
            r.function == function,
            r.kind == kind,
            r.context.scopes@.len() == 0,
            r.context.local_count == kind.spec_unused_reserved_names(),
            r.capture_names@.len() == 0,
            r.captures@.len() == 0,
    {
        Frame {
            function,
            context: Context::with_reserved(kind.unused_reserved_names()),
            capture_names: Vec::new(),
            captures: Vec::new(),
            kind,
        }
    }

    /// `name` as a local of this function, else as one of its upvalues.
    pub(crate) fn resolve(&mut self, name: Name<'ast>, and_capture: bool) -> (r: Option<Place>)
        requires
            old(self).wf(),
        ensures
            final(self).wf(),
            final(self).function == old(self).function,
            final(self).kind == old(self).kind,
            final(self).capture_names@ == old(self).capture_names@,
            final(self).captures@ == old(self).captures@,
            final(self).context.local_count == old(self).context.local_count,
            same_names(final(self).context.scopes@, old(self).context.scopes@),
            ({
                let ctx = old(self).context;
                let word = name_str(name);
                let j = innermost(ctx.scopes@, word, ctx.scopes@.len() as int);
                if j >= 0 {
                    exists|i: int|
                        0 <= i < ctx.scopes@[j].names@.len() && name_str(
                            #[trigger] ctx.scopes@[j].names@[i],
                        ) == word && r == Some(
                            Place::Local { local_index: ctx.slot(j, i) as usize },
                        ) && final(self).context.scopes@[j].local_decls@ == (if and_capture {
                            ctx.scopes@[j].local_decls@.update(i, LocalDeclaration::Capture)
                        } else {
                            ctx.scopes@[j].local_decls@
                        }) && forall|k: int|
                            0 <= k < ctx.scopes@.len() && k != j
                                ==> (#[trigger] final(self).context.scopes@[k]).local_decls@
                                == ctx.scopes@[k].local_decls@
                } else {
                    &&& same_scopes(final(self).context.scopes@, ctx.scopes@)
                    &&& r == match old(self).upvalue(word) {
                        Some(u) => Some(Place::Upvalue { upvalue_index: u }),
                        None => None::<Place>,
                    }
                }
            }),
    {
        match self.context.resolve(name, and_capture) {
            Some(local_index) => Some(Place::Local { local_index }),
            None => {
                match self.find_capture(&name) {
                    Some(upvalue_index) => Some(Place::Upvalue { upvalue_index }),
                    None => None,
                }
            },
        }
    }

    pub(crate) fn find_capture(&self, name: &Name<'ast>) -> (r: Option<usize>)
        ensures
            r == self.upvalue(name_str(*name)),
    {
        let mut k = self.capture_names.len();
        proof {
            assert(self.capture_names@.subrange(0, k as int) =~= self.capture_names@);
        }
        while k > 0
            invariant
                k <= self.capture_names@.len(),
                self.upvalue(name_str(*name)) == captured(
                    self.capture_names@.subrange(0, k as int),
                    name_str(*name),
                ),
            decreases k,
        {
            proof {
                let e = self.capture_names@.subrange(0, k as int);
                assert(e.drop_last() =~= self.capture_names@.subrange(0, k - 1));
            }
            if self.capture_names[k - 1].0.same(name) {
                return Some(self.capture_names[k - 1].1);
            }
            k -= 1;
        }
        None
    }

    /// Records that `name` is captured from `place`, as the next upvalue.
    pub(crate) fn add_capture(&mut self, name: Name<'ast>, place: Place) -> (r: usize)
        requires
            old(self).wf(),
        ensures
            final(self).wf(),
            r == old(self).captures@.len(),
            final(self).captures@ == old(self).captures@.push(place),
            final(self).capture_names@ == old(self).capture_names@.push((name, r)),
            final(self).function == old(self).function,
            final(self).kind == old(self).kind,
            final(self).context == old(self).context,
    {
        let upvalue_index = self.captures.len();
        self.capture_names.push((name, upvalue_index));
        self.captures.push(place);
        upvalue_index
    }

    /// Declares `name` in the innermost scope of this function.
    pub(crate) fn declare(&mut self, name: Name<'ast>) -> (r: Result<(), CompileError>)
        requires
            old(self).wf(),
            old(self).context.scopes@.len() > 0,
            old(self).context.local_count < usize::MAX,
        ensures
            final(self).wf(),
            final(self).function == old(self).function,
            final(self).kind == old(self).kind,
            final(self).capture_names@ == old(self).capture_names@,
            final(self).captures@ == old(self).captures@,
            declared_as(old(self).context, final(self).context, name, Some(r)),
    {
        let r = self.context.declare(name);
        match r {
            Some(result) => result,
            None => Ok(()),
        }
    }
}

} // verus!
