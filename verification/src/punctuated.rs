use vstd::prelude::*;

use crate::span::Spanned;

verus! {

/// A sequence of values separated by punctuation, possibly with a trailing
/// value that has no punctuation after it.
pub struct Punctuated<T, P> {
    pub values: Vec<(T, P)>,
    pub last: Option<Box<T>>,
}

/// The values of a punctuated sequence, in order.
pub open spec fn punctuated_items<T, P>(p: Punctuated<T, P>) -> Seq<T> {
    p.values@.map_values(|v: (T, P)| v.0) + match p.last {
        Some(b) => seq![*b],
        None => seq![],
    }
}

/// The values pushed by a run of calls: `Some(v)` stands for pushing `v`,
/// `None` for pushing punctuation.
pub open spec fn pushed<T>(ops: Seq<Option<T>>) -> Seq<T>
    decreases ops.len(),
{
    if ops.len() == 0 {
        seq![]
    } else {
        match ops.last() {
            Some(v) => pushed(ops.drop_last()).push(v),
            None => pushed(ops.drop_last()),
        }
    }
}

/// Building a punctuated sequence: from a new one (`states[0]`), after each
/// call of a run (`ops[i]` taking `states[i]` to `states[i + 1]` as `push`
/// and `push_punct` do), it holds exactly the values pushed, in order, so
/// its `len` is the number of pushes and it is empty when there were none.
pub proof fn lemma_built<T, P>(states: Seq<Punctuated<T, P>>, ops: Seq<Option<T>>)
    requires
        states.len() == ops.len() + 1,
        punctuated_items(states[0]) == Seq::<T>::empty(),
        forall|i: int|
            0 <= i < ops.len() ==> punctuated_items(#[trigger] states[i + 1]) == match ops[i] {
                Some(v) => punctuated_items(states[i]).push(v),
                None => punctuated_items(states[i]),
            },
    ensures
        punctuated_items(states.last()) == pushed(ops),
        punctuated_items(states.last()).len() == pushed(ops).len(),
    decreases ops.len(),
{
    if ops.len() > 0 {
        let n = ops.len() - 1;
        assert forall|i: int| 0 <= i < ops.drop_last().len() implies punctuated_items(
            #[trigger] states.drop_last()[i + 1],
        ) == match ops.drop_last()[i] {
            Some(v) => punctuated_items(states.drop_last()[i]).push(v),
            None => punctuated_items(states.drop_last()[i]),
        } by {
            assert(states.drop_last()[i + 1] == states[i + 1]);
            assert(states.drop_last()[i] == states[i]);
            assert(ops.drop_last()[i] == ops[i]);
        }
        lemma_built(states.drop_last(), ops.drop_last());
        assert(states.drop_last().last() == states[n]);
        assert(punctuated_items(states[n + 1]) == match ops[n] {
            Some(v) => punctuated_items(states[n]).push(v),
            None => punctuated_items(states[n]),
        });
        assert(states.last() == states[n + 1]);
        assert(ops.last() == ops[n]);
    }
}

impl<T, P> Punctuated<T, P> {
    pub fn new() -> (r: Self)
        ensures
            r.values@.len() == 0,
            r.last is None,
            punctuated_items(r) == Seq::<T>::empty(),
    {
        let r = Punctuated { values: Vec::new(), last: None };
        proof {
            assert(punctuated_items(r) =~= Seq::<T>::empty());
        }
        r
    }

    /// Appends a value; the sequence must not already end in a value.
    pub fn push(&mut self, value: T)
        requires
            old(self).last is None,
        ensures
            final(self).values@ == old(self).values@,
            final(self).last == Some(Box::new(value)),
            punctuated_items(*final(self)) == punctuated_items(*old(self)).push(value),
    {
        self.last = Some(Box::new(value));
        proof {
            assert(punctuated_items(*self) =~= punctuated_items(*old(self)).push(value));
        }
    }

    /// Appends punctuation after the trailing value, which must exist.
    pub fn push_punct(&mut self, punct: P)
        requires
            old(self).last is Some,
        ensures
            final(self).values@ == old(self).values@.push((*old(self).last.unwrap(), punct)),
            final(self).last is None,
            punctuated_items(*final(self)) == punctuated_items(*old(self)),
    {
        let last = self.last.take();
        match last {
            Some(value) => self.values.push((*value, punct)),
            None => {},
        }
        proof {
            assert(punctuated_items(*self) =~= punctuated_items(*old(self)));
        }
    }

    pub fn is_empty(&self) -> (r: bool)
        ensures
            r == (punctuated_items(*self).len() == 0),
    {
        self.values.len() == 0 && self.last.is_none()
    }

    pub fn len(&self) -> (r: usize)
        requires
            self.values@.len() < usize::MAX,
        ensures
            r == punctuated_items(*self).len(),
    {
        self.values.len() + if self.last.is_some() {
            1
        } else {
            0
        }
    }

    /// References to the values, in order.
    pub fn iter(&self) -> (r: Vec<&T>)
        ensures
            r@.len() == punctuated_items(*self).len(),
            forall|i: int| 0 <= i < r@.len() ==> *r@[i] == punctuated_items(*self)[i],
    {
        let mut r: Vec<&T> = Vec::new();
        let mut i: usize = 0;
        while i < self.values.len()
            invariant
                i <= self.values@.len(),
                r@.len() == i,
                forall|j: int| 0 <= j < i ==> *r@[j] == self.values@[j].0,
            decreases self.values@.len() - i,
        {
            r.push(&self.values[i].0);
            i += 1;
        }
        match &self.last {
            Some(last) => r.push(&**last),
            None => {},
        }
        r
    }

    /// Where the first value starts, if there is one.
    pub fn span_start(&self) -> (r: Option<usize>) where T: Spanned
        ensures
            r == if punctuated_items(*self).len() == 0 {
                None::<usize>
            } else {
                Some(punctuated_items(*self)[0].spec_span_start())
            },
    {
        if self.values.len() > 0 {
            Some(self.values[0].0.span_start())
        } else {
            match &self.last {
                Some(last) => Some(last.span_start()),
                None => None,
            }
        }
    }

    /// Where the sequence ends: the trailing value if there is one, else the
    /// last punctuation.
    pub fn span_end(&self) -> (r: Option<usize>) where T: Spanned, P: Spanned
        ensures
            r == match self.last {
                Some(b) => Some(b.spec_span_end()),
                None => if self.values@.len() == 0 {
                    None::<usize>
                } else {
                    Some(self.values@.last().1.spec_span_end())
                },
            },
    {
        match &self.last {
            Some(last) => Some(last.span_end()),
            None => {
                if self.values.len() > 0 {
                    Some(self.values[self.values.len() - 1].1.span_end())
                } else {
                    None
                }
            },
        }
    }
}

} // verus!
