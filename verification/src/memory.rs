//! Producers whose items lie ready in memory.

use vstd::prelude::*;
use crate::dyn_iter::{LazyIter, StreamingIter};

verus! {

/// The items of `items` in the opposite order.
fn reversed<T>(items: Vec<T>) -> (out: Vec<T>)
    ensures
        out@ == items@.reverse(),
{
    let ghost orig = items@;
    let mut items = items;
    let mut out: Vec<T> = Vec::new();
    while items.len() > 0
        invariant
            items@.len() + out@.len() == orig.len(),
            forall|i: int| 0 <= i < items@.len() ==> items@[i] == orig[i],
            forall|i: int| 0 <= i < out@.len() ==> out@[i] == orig[orig.len() - 1 - i],
        decreases items@.len(),
    {
        match items.pop() {
            Some(x) => {
                out.push(x);
            },
            None => {},
        }
    }
    assert(out@ =~= orig.reverse());
    out
}

/// Yields the items of a vector, first to last.
pub struct VecIter<V> {
    // The items that are yet to come, last to first.
    stack: Vec<V>,
}

impl<V> VecIter<V> {
    /// A sequence that yields `items`, first to last.
    pub fn new(items: Vec<V>) -> (iter: Self)
        ensures
            iter.remaining() == items@,
    {
        let iter = VecIter { stack: reversed(items) };
        assert(items@.reverse().reverse() =~= items@);
        iter
    }
}

impl<V> LazyIter for VecIter<V> {
    type Item = V;

    closed spec fn remaining(&self) -> Seq<V> {
        self.stack@.reverse()
    }

    fn next(&mut self) -> (item: Option<V>) {
        let item = self.stack.pop();
        assert(item is Some ==> self.stack@.reverse() =~= old(self).stack@.reverse().skip(1));
        item
    }
}

/// The view of one outcome of a stream: the view of the item, or the error
/// as it is.
pub open spec fn outcome_view<V: View, E>(outcome: Result<V, E>) -> Result<V::V, E> {
    match outcome {
        Ok(item) => Ok(item@),
        Err(e) => Err(e),
    }
}

/// The views of the outcomes `outcomes`.
pub open spec fn outcome_views<V: View, E>(outcomes: Seq<Result<V, E>>) -> Seq<Result<V::V, E>> {
    outcomes.map_values(|outcome: Result<V, E>| outcome_view(outcome))
}

/// Lends the `Ok` items of a vector, first to last, and fails where the
/// vector holds an `Err`.
pub struct VecStreamingIter<V, E> {
    current: Option<V>,
    // The outcomes that are yet to come, last to first.
    stack: Vec<Result<V, E>>,
}

impl<V: View, E> VecStreamingIter<V, E> {
    /// A sequence whose advances have the outcomes `items`, first to last.
    pub fn new(items: Vec<Result<V, E>>) -> (iter: Self)
        ensures
            iter.remaining() == outcome_views(items@),
            iter.current() is None,
    {
        let iter = VecStreamingIter { current: None, stack: reversed(items) };
        assert(items@.reverse().reverse() =~= items@);
        iter
    }
}

impl<V: View, E> StreamingIter for VecStreamingIter<V, E> {
    type Item = V;

    type Error = E;

    closed spec fn current(&self) -> Option<V::V> {
        match self.current {
            Some(item) => Some(item@),
            None => None,
        }
    }

    closed spec fn remaining(&self) -> Seq<Result<V::V, E>> {
        outcome_views(self.stack@.reverse())
    }

    fn advance(&mut self) -> (outcome: Result<(), E>) {
        let next = self.stack.pop();
        assert(next is Some ==> outcome_views(self.stack@.reverse()) =~= outcome_views(
            old(self).stack@.reverse(),
        ).skip(1));
        match next {
            None => {
                self.current = None;
                Ok(())
            },
            Some(Ok(item)) => {
                self.current = Some(item);
                Ok(())
            },
            Some(Err(e)) => {
                self.current = None;
                Err(e)
            },
        }
    }

    fn get(&self) -> (item: Option<&V>) {
        self.current.as_ref()
    }
}

} // verus!
