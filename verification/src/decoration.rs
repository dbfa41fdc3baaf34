use vstd::prelude::*;

use core::marker::PhantomData;

verus! {

/// The number of kinds of decoration.
pub const DECORATIONS_MAX: usize = 4;

/// A kind of decoration: each kind is counted separately.
pub trait DecorationKind {
    spec fn spec_decoration_index() -> nat;

    /// Every kind is one of the counted kinds.
    proof fn lemma_decoration_index_bound()
        ensures
            Self::spec_decoration_index() < DECORATIONS_MAX,
    ;

    fn decoration_index() -> (r: usize)
        ensures
            r == Self::spec_decoration_index(),
            r < DECORATIONS_MAX,
    ;
}

/// Decorates a name use (a variable, `this` or `super`) with its resolution.
pub struct NameDecoration;

/// Decorates a block with the locals it declares.
pub struct BlockDecoration;

/// Decorates a function with what it captures.
pub struct FunctionDecoration;

/// Decorates a class declaration.
pub struct ClassDecoration;

impl DecorationKind for NameDecoration {
    open spec fn spec_decoration_index() -> nat {
        0
    }

    proof fn lemma_decoration_index_bound() {
    }

    fn decoration_index() -> (r: usize) {
        0
    }
}

impl DecorationKind for BlockDecoration {
    open spec fn spec_decoration_index() -> nat {
        1
    }

    proof fn lemma_decoration_index_bound() {
    }

    fn decoration_index() -> (r: usize) {
        1
    }
}

impl DecorationKind for FunctionDecoration {
    open spec fn spec_decoration_index() -> nat {
        2
    }

    proof fn lemma_decoration_index_bound() {
    }

    fn decoration_index() -> (r: usize) {
        2
    }
}

impl DecorationKind for ClassDecoration {
    open spec fn spec_decoration_index() -> nat {
        3
    }

    proof fn lemma_decoration_index_bound() {
    }

    fn decoration_index() -> (r: usize) {
        3
    }
}

/// A handle that identifies one syntax node among those of its kind.
pub struct Decoration<D> {
    index: usize,
    _phantom: PhantomData<D>,
}

impl<D> Decoration<D> {
    pub closed spec fn spec_index(self) -> usize {
        self.index
    }

    pub fn index(&self) -> (r: usize)
        ensures
            r == self.spec_index(),
    {
        self.index
    }
}

impl<D> Clone for Decoration<D> {
    fn clone(&self) -> (r: Self)
        ensures
            r == *self,
    {
        Decoration { index: self.index, _phantom: PhantomData }
    }
}

impl<D> Copy for Decoration<D> {

}

/// Hands out decorations, counting them by kind.
pub struct Decorator {
    counters: Vec<usize>,
}

impl Decorator {
    /// How many decorations of each kind have been handed out.
    pub closed spec fn counts(&self) -> Seq<usize> {
        self.counters@
    }

    pub open spec fn wf(&self) -> bool {
        self.counts().len() == DECORATIONS_MAX
    }

    /// How many decorations there are in all.
    pub open spec fn total(&self) -> int {
        self.counts()[0] + self.counts()[1] + self.counts()[2] + self.counts()[3]
    }

    pub fn new() -> (r: Self)
        ensures
            r.wf(),
            forall|k: int| 0 <= k < DECORATIONS_MAX ==> r.counts()[k] == 0,
    {
        Decorator { counters: vec![0usize; DECORATIONS_MAX] }
    }

    /// Hands out the next decoration of kind `T`.
    pub fn decorate<T: DecorationKind>(&mut self) -> (r: Decoration<T>)
        requires
            old(self).wf(),
            old(self).total() < usize::MAX,
        ensures
            final(self).wf(),
            r.spec_index() == old(self).counts()[T::spec_decoration_index() as int],
            final(self).counts() == old(self).counts().update(
                T::spec_decoration_index() as int,
                (old(self).counts()[T::spec_decoration_index() as int] + 1) as usize,
            ),
            final(self).total() == old(self).total() + 1,
            forall|k: int|
                0 <= k < DECORATIONS_MAX ==> old(self).counts()[k] <= #[trigger] final(self).counts()[k],
    {
        let k = T::decoration_index();
        let index = self.counters[k];
        self.counters.set(k, index + 1);
        Decoration { index, _phantom: PhantomData }
    }

    /// How many kinds of decoration are counted.
    pub(crate) fn kinds(&self) -> (r: usize)
        ensures
            r == self.counts().len(),
    {
        self.counters.len()
    }

    /// How many decorations of the `k`-th kind have been handed out.
    pub(crate) fn count_at(&self, k: usize) -> (r: usize)
        requires
            k < self.counts().len(),
        ensures
            r == self.counts()[k as int],
    {
        self.counters[k]
    }

    /// How many decorations of kind `T` have been handed out.
    pub fn count<T: DecorationKind>(&self) -> (r: usize)
        requires
            self.wf(),
        ensures
            r == self.counts()[T::spec_decoration_index() as int],
    {
        self.counters[T::decoration_index()]
    }
}

/// How many times `k` occurs in `kinds`.
pub open spec fn occurrences(kinds: Seq<int>, k: int) -> nat
    decreases kinds.len(),
{
    if kinds.len() == 0 {
        0
    } else {
        occurrences(kinds.drop_last(), k) + if kinds.last() == k {
            1nat
        } else {
            0nat
        }
    }
}

/// Counting decorations: starting from a new decorator, after handing out
/// decorations of the kinds `kinds` in turn (`counts[i]` being the counts
/// before the `i`-th, which got `indices[i]`), the count of each kind is the
/// number of decorations of that kind handed out, and the decorations of one
/// kind got the indices 0, 1, 2, ... in order.
pub proof fn lemma_decorate_counts(counts: Seq<Seq<usize>>, kinds: Seq<int>, indices: Seq<usize>)
    requires
        counts.len() == kinds.len() + 1,
        indices.len() == kinds.len(),
        counts[0].len() == DECORATIONS_MAX,
        forall|k: int| 0 <= k < DECORATIONS_MAX ==> counts[0][k] == 0,
        forall|i: int| 0 <= i < kinds.len() ==> 0 <= #[trigger] kinds[i] < DECORATIONS_MAX,
        forall|i: int|
            0 <= i < kinds.len() ==> {
                &&& #[trigger] indices[i] == counts[i][kinds[i]]
                &&& counts[i][kinds[i]] < usize::MAX
                &&& counts[i + 1] == counts[i].update(kinds[i], (counts[i][kinds[i]] + 1) as usize)
            },
    ensures
        counts.last().len() == DECORATIONS_MAX,
        forall|k: int| 0 <= k < DECORATIONS_MAX ==> #[trigger] counts.last()[k] == occurrences(kinds, k),
        forall|i: int| 0 <= i < kinds.len() ==> #[trigger] indices[i] == occurrences(kinds.take(i), kinds[i]),
    decreases kinds.len(),
{
    if kinds.len() > 0 {
        let n = kinds.len() - 1;
        let c = counts.drop_last();
        let ks = kinds.drop_last();
        let is = indices.drop_last();
        assert forall|i: int| 0 <= i < ks.len() implies {
            &&& #[trigger] is[i] == c[i][ks[i]]
            &&& c[i][ks[i]] < usize::MAX
            &&& c[i + 1] == c[i].update(ks[i], (c[i][ks[i]] + 1) as usize)
        } by {
            assert(is[i] == indices[i] && ks[i] == kinds[i] && c[i] == counts[i] && c[i + 1] == counts[i + 1]);
        }
        assert forall|i: int| 0 <= i < ks.len() implies 0 <= #[trigger] ks[i] < DECORATIONS_MAX by {
            assert(ks[i] == kinds[i]);
        }
        lemma_decorate_counts(c, ks, is);
        assert(c.last() == counts[n]);
        assert(kinds.take(n) =~= ks);
        assert(indices[n] == counts[n][kinds[n]]);
        assert(counts[n + 1] == counts[n].update(kinds[n], (counts[n][kinds[n]] + 1) as usize));
        assert(counts.last() == counts[n + 1]);
        assert(counts[n][kinds[n]] < usize::MAX);
        assert forall|k: int| 0 <= k < DECORATIONS_MAX implies #[trigger] counts.last()[k] == occurrences(kinds, k) by {
            assert(kinds.drop_last() == ks);
            assert(kinds.last() == kinds[n]);
            assert(c.last()[k] == occurrences(ks, k));
            assert(occurrences(kinds, k) == occurrences(ks, k) + if kinds[n] == k { 1nat } else { 0nat });
        }
        assert forall|i: int| 0 <= i < kinds.len() implies #[trigger] indices[i] == occurrences(kinds.take(i), kinds[i]) by {
            if i < n {
                assert(kinds.take(i) =~= ks.take(i));
                assert(is[i] == indices[i] && ks[i] == kinds[i]);
            } else {
                assert(c.last()[kinds[n]] == occurrences(ks, kinds[n]));
            }
        }
    }
}

/// A table holding one value for each decoration of kind `D`.
pub struct Dec<D, T> {
    elements: Vec<Option<T>>,
    len: usize,
    _phantom: PhantomData<D>,
}

impl<D, T> Dec<D, T> {
    /// The slots of the table, by decoration index.
    pub closed spec fn slots(&self) -> Seq<Option<T>> {
        self.elements@
    }

    /// How many slots are filled.
    pub closed spec fn filled(&self) -> nat {
        self.len as nat
    }

    pub closed spec fn wf(&self) -> bool {
        &&& self.len as int == filled_count(self.elements@)
        &&& self.elements@.len() <= usize::MAX
    }

    /// A table with an empty slot for every decoration of kind `D` that
    /// `decorator` has handed out.
    pub fn new(decorator: &Decorator) -> (r: Self) where D: DecorationKind
        requires
            decorator.wf(),
        ensures
            r.wf(),
            r.slots().len() == decorator.counts()[D::spec_decoration_index() as int],
            forall|i: int| 0 <= i < r.slots().len() ==> r.slots()[i] is None,
    {
        let cap = decorator.count::<D>();
        let mut elements: Vec<Option<T>> = Vec::new();
        let mut i: usize = 0;
        while i < cap
            invariant
                i <= cap,
                elements@.len() == i,
                forall|j: int| 0 <= j < i ==> elements@[j] is None,
            decreases cap - i,
        {
            elements.push(None);
            i += 1;
        }
        proof {
            lemma_filled_count_none(elements@);
        }
        let _ = elements.len();
        Dec { elements, len: 0, _phantom: PhantomData }
    }

    /// Fills the slot of `decoration`, which must exist and be empty.
    pub fn insert(&mut self, decoration: Decoration<D>, value: T)
        requires
            old(self).wf(),
            decoration.spec_index() < old(self).slots().len(),
            old(self).slots()[decoration.spec_index() as int] is None,
        ensures
            final(self).wf(),
            final(self).slots() == old(self).slots().update(decoration.spec_index() as int, Some(value)),
    {
        let index = decoration.index();
        proof {
            lemma_filled_count_update(self.elements@, index as int, Some(value));
            lemma_filled_count_bound(self.elements@);
        }
        self.elements.set(index, Some(value));
        self.len += 1;
    }

    /// The value in the slot of `decoration`, which must be filled.
    pub fn get(&self, decoration: Decoration<D>) -> (r: Option<&T>)
        requires
            decoration.spec_index() < self.slots().len(),
            self.slots()[decoration.spec_index() as int] is Some,
        ensures
            r == Some(&self.slots()[decoration.spec_index() as int].unwrap()),
    {
        let index = decoration.index();
        match &self.elements[index] {
            Some(value) => Some(value),
            None => None,
        }
    }

    /// A table whose slots are all filled counts every slot as filled.
    pub proof fn lemma_full(&self)
        requires
            self.wf(),
            forall|i: int| 0 <= i < self.slots().len() ==> self.slots()[i] is Some,
        ensures
            self.filled() == self.slots().len(),
    {
        assert forall|i: int| 0 <= i < self.elements@.len() implies self.elements@[i] is Some by {
            assert(self.slots()[i] is Some);
        }
        lemma_filled_count_some(self.elements@);
    }

    /// All the values, by decoration index; every slot must be filled.
    pub fn unwrap(self) -> (r: Vec<T>)
        requires
            self.wf(),
            self.filled() == self.slots().len(),
        ensures
            r@.len() == self.slots().len(),
            forall|i: int| 0 <= i < r@.len() ==> Some(r@[i]) == self.slots()[i],
    {
        let ghost slots = self.elements@;
        proof {
            lemma_filled_count_all(slots);
        }
        let mut elements = self.elements;
        let mut r: Vec<T> = Vec::new();
        while elements.len() > 0
            invariant
                elements@.len() + r@.len() == slots.len(),
                forall|i: int| 0 <= i < elements@.len() ==> elements@[i] == slots[i],
                forall|i: int| 0 <= i < slots.len() ==> slots[i] is Some,
                forall|i: int|
                    0 <= i < r@.len() ==> Some(r@[i]) == slots[slots.len() - 1 - i],
            decreases elements@.len(),
        {
            assert(slots[elements@.len() - 1] is Some);
            assert(elements@[elements@.len() - 1] is Some);
            let e = elements.pop();
            match e {
                Some(Some(value)) => r.push(value),
                _ => {
                    assert(false);
                },
            }
        }
        reverse(&mut r);
        r
    }
}

/// Reverses a vector in place.
fn reverse<T>(v: &mut Vec<T>)
    ensures
        final(v)@.len() == old(v)@.len(),
        forall|i: int| 0 <= i < old(v)@.len() ==> final(v)@[i] == old(v)@[old(v)@.len() - 1 - i],
{
    let ghost orig = v@;
    let mut out: Vec<T> = Vec::new();
    while v.len() > 0
        invariant
            v@.len() + out@.len() == orig.len(),
            forall|i: int| 0 <= i < v@.len() ==> v@[i] == orig[i],
            forall|i: int| 0 <= i < out@.len() ==> out@[i] == orig[orig.len() - 1 - i],
        decreases v@.len(),
    {
        let e = v.pop();
        match e {
            Some(x) => out.push(x),
            None => {},
        }
    }
    *v = out;
}

/// How many slots of `s` are filled.
pub open spec fn filled_count<T>(s: Seq<Option<T>>) -> int
    decreases s.len(),
{
    if s.len() == 0 {
        0
    } else {
        filled_count(s.drop_last()) + if s.last() is Some {
            1int
        } else {
            0
        }
    }
}

proof fn lemma_filled_count_none<T>(s: Seq<Option<T>>)
    requires
        forall|i: int| 0 <= i < s.len() ==> s[i] is None,
    ensures
        filled_count(s) == 0,
    decreases s.len(),
{
    if s.len() > 0 {
        lemma_filled_count_none(s.drop_last());
    }
}

proof fn lemma_filled_count_bound<T>(s: Seq<Option<T>>)
    ensures
        0 <= filled_count(s) <= s.len(),
        filled_count(s) == s.len() ==> forall|i: int| 0 <= i < s.len() ==> s[i] is Some,
    decreases s.len(),
{
    if s.len() > 0 {
        lemma_filled_count_bound(s.drop_last());
        if filled_count(s) == s.len() {
            assert forall|i: int| 0 <= i < s.len() implies s[i] is Some by {
                if i < s.len() - 1 {
                    assert(s[i] == s.drop_last()[i]);
                }
            }
        }
    }
}

proof fn lemma_filled_count_all<T>(s: Seq<Option<T>>)
    requires
        filled_count(s) == s.len(),
    ensures
        forall|i: int| 0 <= i < s.len() ==> s[i] is Some,
{
    lemma_filled_count_bound(s);
}

proof fn lemma_filled_count_some<T>(s: Seq<Option<T>>)
    requires
        forall|i: int| 0 <= i < s.len() ==> s[i] is Some,
    ensures
        filled_count(s) == s.len(),
    decreases s.len(),
{
    if s.len() > 0 {
        lemma_filled_count_some(s.drop_last());
    }
}

proof fn lemma_filled_count_update<T>(s: Seq<Option<T>>, i: int, v: Option<T>)
    requires
        0 <= i < s.len(),
        s[i] is None,
        v is Some,
    ensures
        filled_count(s.update(i, v)) == filled_count(s) + 1,
    decreases s.len(),
{
    if i == s.len() - 1 {
        assert(s.update(i, v).drop_last() =~= s.drop_last());
    } else {
        lemma_filled_count_update(s.drop_last(), i, v);
        assert(s.update(i, v).drop_last() =~= s.drop_last().update(i, v));
    }
}

} // verus!
