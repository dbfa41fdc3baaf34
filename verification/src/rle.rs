use vstd::laws_eq::obeys_concrete_eq;
use vstd::prelude::*;

verus! {

/// A run of `count` copies of `value`.
struct Run<T> {
    value: T,
    count: usize,
}

/// A run-length encoded sequence.
pub struct Rle<T> {
    runs: Vec<Run<T>>,
    len: usize,
}

/// `count` copies of `value`.
pub open spec fn repeat<T>(value: T, count: nat) -> Seq<T> {
    Seq::new(count, |_i: int| value)
}

/// The elements of the first `k` runs, in order.
spec fn flatten<T>(runs: Seq<Run<T>>, k: int) -> Seq<T>
    decreases k,
{
    if k <= 0 {
        Seq::empty()
    } else {
        flatten(runs, k - 1) + repeat(runs[k - 1].value, runs[k - 1].count as nat)
    }
}

proof fn lemma_flatten_prefix<T>(runs: Seq<Run<T>>, k: int, n: int)
    requires
        0 <= k <= n,
    ensures
        flatten(runs, k).len() <= flatten(runs, n).len(),
        forall|i: int|
            0 <= i < flatten(runs, k).len() ==> #[trigger] flatten(runs, n)[i] == flatten(
                runs,
                k,
            )[i],
    decreases n - k,
{
    if k < n {
        lemma_flatten_prefix(runs, k, n - 1);
    }
}

/// `new_view` is `old_view` followed by `len` copies of one value `v`, which
/// the last run now holds: `value`, or the value of the last run before,
/// which `==` found equal to `value` and which is kept.
pub open spec fn appended<T>(
    old_view: Seq<T>,
    old_last: Option<T>,
    new_view: Seq<T>,
    new_last: Option<T>,
    value: T,
    len: nat,
) -> bool {
    exists|v: T|
        (v == value || old_last == Some(v)) && new_last == Some(v) && new_view == old_view + #[trigger] repeat(v, len)
}

/// The sequence that a run of `extend` calls builds from an empty one:
/// `calls[j].1` copies of `calls[j].0`, for each call in turn.
pub open spec fn expand<T>(calls: Seq<(T, nat)>) -> Seq<T>
    decreases calls.len(),
{
    if calls.len() == 0 {
        seq![]
    } else {
        expand(calls.drop_last()) + repeat(calls.last().0, calls.last().1)
    }
}

/// Where the copies of the `j`-th call begin.
pub open spec fn call_start<T>(calls: Seq<(T, nat)>, j: int) -> nat
    decreases j,
{
    if j <= 0 {
        0
    } else {
        call_start(calls, j - 1) + calls[j - 1].1
    }
}

/// The elements after a run of `extend` (and `push`, which extends by one)
/// calls on a new sequence, where `==` is equality: as many as the calls
/// added together, and each the value of the call whose copies cover it.
pub proof fn lemma_expand<T>(calls: Seq<(T, nat)>)
    ensures
        expand(calls).len() == call_start(calls, calls.len() as int),
        forall|j: int, i: int|
            0 <= j < calls.len() && call_start(calls, j) <= i < call_start(calls, j + 1) ==> #[trigger] expand(
                calls,
            )[i] == #[trigger] calls[j].0,
    decreases calls.len(),
{
    if calls.len() > 0 {
        let n = calls.len() - 1;
        let c = calls.drop_last();
        lemma_expand(c);
        assert forall|j: int| 0 <= j <= n implies call_start(c, j) == #[trigger] call_start(calls, j) by {
            lemma_call_start_same(c, calls, j);
        }
        assert(call_start(calls, n) == call_start(c, n));
        assert(calls.last() == calls[n]);
        assert forall|j: int, i: int|
            0 <= j < calls.len() && call_start(calls, j) <= i < call_start(calls, j + 1) implies #[trigger] expand(
                calls,
            )[i] == #[trigger] calls[j].0 by {
            if j < n {
                assert(call_start(c, j) == call_start(calls, j));
                assert(call_start(c, j + 1) == call_start(calls, j + 1));
                lemma_call_start_mono(c, j + 1, n);
                assert(expand(c)[i] == c[j].0);
            }
        }
    }
}

/// A run of `extend` calls from a new sequence (`views[i]` being the
/// elements before the `i`-th call, which appends `calls[i].1` copies of
/// `calls[i].0`, as it does where `==` is equality) builds `expand(calls)`.
pub proof fn lemma_extends<T>(views: Seq<Seq<T>>, calls: Seq<(T, nat)>)
    requires
        views.len() == calls.len() + 1,
        views[0] == Seq::<T>::empty(),
        forall|i: int| 0 <= i < calls.len() ==> #[trigger] views[i + 1] == views[i] + repeat(calls[i].0, calls[i].1),
    ensures
        views.last() == expand(calls),
    decreases calls.len(),
{
    if calls.len() > 0 {
        let n = calls.len() - 1;
        assert forall|i: int| 0 <= i < calls.drop_last().len() implies #[trigger] views.drop_last()[i + 1]
            == views.drop_last()[i] + repeat(calls.drop_last()[i].0, calls.drop_last()[i].1) by {
            assert(views.drop_last()[i + 1] == views[i + 1]);
            assert(views[i + 1] == views[i] + repeat(calls[i].0, calls[i].1));
        }
        lemma_extends(views.drop_last(), calls.drop_last());
        assert(views[n + 1] == views[n] + repeat(calls[n].0, calls[n].1));
        assert(views.last() == views[n + 1]);
        assert(calls.last() == calls[n]);
    } else {
        assert(expand(calls) =~= Seq::<T>::empty());
    }
}

/// The run-length law: after `new` and a run of `extend` calls (a `push`
/// being an `extend` by one), where `==` is equality, the sequence has as
/// many elements as the calls added together, and each element is the
/// value of the call whose copies cover its index. (`views[i]` is the
/// sequence before the `i`-th call, as `new` and `extend` state it.)
pub proof fn lemma_run_length<T>(views: Seq<Seq<T>>, calls: Seq<(T, nat)>)
    requires
        views.len() == calls.len() + 1,
        views[0] == Seq::<T>::empty(),
        forall|i: int| 0 <= i < calls.len() ==> #[trigger] views[i + 1] == views[i] + repeat(calls[i].0, calls[i].1),
    ensures
        views.last().len() == call_start(calls, calls.len() as int),
        forall|j: int, i: int|
            0 <= j < calls.len() && call_start(calls, j) <= i < call_start(calls, j + 1) ==> #[trigger] views.last()[i]
                == #[trigger] calls[j].0,
{
    lemma_extends(views, calls);
    lemma_expand(calls);
}

proof fn lemma_call_start_same<T>(a: Seq<(T, nat)>, b: Seq<(T, nat)>, j: int)
    requires
        j <= a.len(),
        j <= b.len(),
        forall|k: int| 0 <= k < j ==> a[k].1 == b[k].1,
    ensures
        call_start(a, j) == call_start(b, j),
    decreases j,
{
    if j > 0 {
        lemma_call_start_same(a, b, j - 1);
    }
}

proof fn lemma_call_start_mono<T>(calls: Seq<(T, nat)>, j: int, k: int)
    requires
        0 <= j <= k,
    ensures
        call_start(calls, j) <= call_start(calls, k),
    decreases k - j,
{
    if j < k {
        lemma_call_start_mono(calls, j, k - 1);
    }
}

impl<T> Rle<T> {
    /// The value of the last run, if there is one.
    pub closed spec fn last_value(&self) -> Option<T> {
        if self.runs@.len() == 0 {
            None
        } else {
            Some(self.runs@.last().value)
        }
    }

    /// The encoded sequence, element by element.
    pub closed spec fn view(&self) -> Seq<T> {
        flatten(self.runs@, self.runs@.len() as int)
    }

    pub closed spec fn wf(&self) -> bool {
        self.len == self.view().len()
    }

    /// An empty sequence.
    pub fn new() -> (r: Self)
        ensures
            r.wf(),
            r.view() == Seq::<T>::empty(),
            r.last_value() is None,
    {
        Rle { runs: Vec::new(), len: 0 }
    }

    /// The number of elements.
    pub fn len(&self) -> (r: usize)
        requires
            self.wf(),
        ensures
            r == self.view().len(),
    {
        self.len
    }

    /// Whether there are no elements.
    pub fn is_empty(&self) -> (r: bool)
        requires
            self.wf(),
        ensures
            r == (self.view().len() == 0),
    {
        self.len == 0
    }

    /// Appends one `value`.
    pub fn push(&mut self, value: T) where T: PartialEq
        requires
            old(self).wf(),
            old(self).view().len() < usize::MAX,
        ensures
            final(self).wf(),
            final(self).view().len() == old(self).view().len() + 1,
            appended(old(self).view(), old(self).last_value(), final(self).view(), final(self).last_value(), value, 1),
            obeys_concrete_eq::<T>() ==> final(self).view() == old(self).view().push(value),
    {
        self.extend(value, 1);
        proof {
            assert(repeat(value, 1) =~= seq![value]);
        }
    }

    /// Appends `len` copies of `value`, growing the last run when it holds
    /// an equal value.
    pub fn extend(&mut self, value: T, len: usize) where T: PartialEq
        requires
            old(self).wf(),
            old(self).view().len() + len <= usize::MAX,
        ensures
            final(self).wf(),
            final(self).view().len() == old(self).view().len() + len,
            appended(
                old(self).view(),
                old(self).last_value(),
                final(self).view(),
                final(self).last_value(),
                value,
                len as nat,
            ),
            obeys_concrete_eq::<T>() ==> final(self).view() == old(self).view() + repeat(
                value,
                len as nat,
            ),
    {
        let ghost old_runs = self.runs@;
        let n = self.runs.len();
        self.len = self.len + len;
        if n > 0 {
            let same = self.runs[n - 1].value == value;
            if same {
                let ghost last_value = self.runs@[n - 1].value;
                proof {
                    reveal(obeys_concrete_eq);
                }
                let count = self.runs[n - 1].count;
                assert(count <= flatten(old_runs, n as int).len()) by {
                    lemma_flatten_prefix(old_runs, n - 1, n as int);
                }
                let mut last = self.runs.pop().unwrap();
                last.count = count + len;
                self.runs.push(last);
                proof {
                    assert(self.runs@.subrange(0, n - 1) =~= old_runs.subrange(0, n - 1));
                    lemma_flatten_same(self.runs@, old_runs, n - 1);
                    assert(repeat(last_value, (count + len) as nat) =~= repeat(
                        last_value,
                        count as nat,
                    ) + repeat(last_value, len as nat));
                    assert(self.view() =~= old(self).view() + repeat(last_value, len as nat));
                    assert(self.runs@.last().value == last_value);
                    assert(appended(
                        old(self).view(),
                        old(self).last_value(),
                        self.view(),
                        self.last_value(),
                        value,
                        len as nat,
                    ));
                    if obeys_concrete_eq::<T>() {
                        assert(last_value == value);
                    }
                    assert(repeat(last_value, (count + len) as nat).len() == repeat(
                        last_value,
                        count as nat,
                    ).len() + len);
                }
                return;
            }
        }
        let ghost v = value;
        self.runs.push(Run { value, count: len });
        proof {
            lemma_flatten_same(self.runs@, old_runs, n as int);
            assert(self.runs@.last().value == v);
            assert(self.view() =~= old(self).view() + repeat(v, len as nat));
            assert(appended(old(self).view(), old(self).last_value(), self.view(), self.last_value(), v, len as nat));
        }
    }

    /// The element at `index`.
    pub fn index(&self, index: usize) -> (r: &T)
        requires
            self.wf(),
            index < self.view().len(),
        ensures
            *r == self.view()[index as int],
    {
        let n = self.runs.len();
        let mut current: usize = 0;
        let mut k: usize = 0;
        while k < n
            invariant
                n == self.runs@.len(),
                k <= n,
                current == flatten(self.runs@, k as int).len(),
                current <= index,
                index < self.view().len(),
                self.len == self.view().len(),
            decreases n - k,
        {
            proof {
                lemma_flatten_prefix(self.runs@, k + 1, n as int);
            }
            let count = self.runs[k].count;
            if index - current < count {
                proof {
                    assert(flatten(self.runs@, k + 1 as int)[index as int] == self.runs@[k as int].value);
                }
                return &self.runs[k].value;
            }
            current = current + count;
            k = k + 1;
        }
        assert(false);
        &self.runs[0].value
    }
}

proof fn lemma_flatten_same<T>(a: Seq<Run<T>>, b: Seq<Run<T>>, k: int)
    requires
        0 <= k <= a.len(),
        k <= b.len(),
        forall|i: int| 0 <= i < k ==> a[i] == b[i],
    ensures
        flatten(a, k) == flatten(b, k),
    decreases k,
{
    if k > 0 {
        lemma_flatten_same(a, b, k - 1);
    }
}

impl<T> Default for Rle<T> {
    fn default() -> (r: Self)
        ensures
            r.wf(),
            r.view() == Seq::<T>::empty(),
            r.last_value() is None,
    {
        Self::new()
    }
}

} // verus!
