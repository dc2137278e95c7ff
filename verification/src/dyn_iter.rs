//! Lazy, single-pass, fallible sequences, and their type-erased forms.
//!
//! A producer of pages computes its items while it is advanced: it may
//! fail, and it cannot be restarted. Two interfaces cover the producers
//! the writer meets. [`LazyIter`] hands out items that the caller owns;
//! [`StreamingIter`] lends one item at a time, until the next advance, so
//! that a producer can reuse its buffer.
//!
//! The model of either is the sequence of items it has yet to yield. An
//! implementation outside verified code keeps the default bodies of the
//! spec functions; nothing is then proved about it.

use vstd::prelude::*;
use crate::page::CompressedPage;

verus! {

/// A lazy, single-pass sequence of owned items.
pub trait LazyIter {
    type Item;

    /// The items that are yet to come, in order.
    open spec fn remaining(&self) -> Seq<Self::Item> {
        Seq::empty()
    }

    /// Yields the next item, or `None` when the sequence is exhausted.
    fn next(&mut self) -> (item: Option<Self::Item>)
        ensures
            match item {
                Some(x) => {
                    &&& old(self).remaining().len() > 0
                    &&& x == old(self).remaining()[0]
                    &&& final(self).remaining() == old(self).remaining().skip(1)
                },
                None => {
                    &&& old(self).remaining().len() == 0
                    &&& final(self).remaining().len() == 0
                },
            },
    ;
}

/// A lazy, single-pass, fallible sequence that lends its current item.
///
/// Its model speaks of the views of the items, so that a stream may compute
/// its items from those of another.
pub trait StreamingIter {
    type Item: View;

    type Error;

    /// The view of the item that `get` lends, if the last advance produced
    /// one.
    open spec fn current(&self) -> Option<<Self::Item as View>::V> {
        None
    }

    /// The outcomes of the advances that are yet to come, in order.
    open spec fn remaining(&self) -> Seq<Result<<Self::Item as View>::V, Self::Error>> {
        Seq::empty()
    }

    /// Moves to the next item. `Ok` with no current item afterwards means
    /// that the sequence is exhausted. After an error nothing is known
    /// about the sequence.
    fn advance(&mut self) -> (outcome: Result<(), Self::Error>)
        ensures
            match outcome {
                Ok(()) => if old(self).remaining().len() == 0 {
                    &&& final(self).current() is None
                    &&& final(self).remaining().len() == 0
                } else {
                    &&& final(self).current() is Some
                    &&& old(self).remaining()[0] == Ok::<<Self::Item as View>::V, Self::Error>(
                        final(self).current().unwrap(),
                    )
                    &&& final(self).remaining() == old(self).remaining().skip(1)
                },
                Err(e) => {
                    &&& old(self).remaining().len() > 0
                    &&& old(self).remaining()[0] == Err::<<Self::Item as View>::V, Self::Error>(e)
                },
            },
    ;

    /// The current item.
    fn get(&self) -> (item: Option<&Self::Item>)
        ensures
            match item {
                Some(x) => self.current() == Some(x@),
                None => self.current() is None,
            },
    ;
}

impl<T: LazyIter + ?Sized> LazyIter for Box<T> {
    type Item = T::Item;

    open spec fn remaining(&self) -> Seq<Self::Item> {
        (**self).remaining()
    }

    fn next(&mut self) -> (item: Option<Self::Item>) {
        (**self).next()
    }
}

impl<T: StreamingIter + ?Sized> StreamingIter for Box<T> {
    type Item = T::Item;

    type Error = T::Error;

    open spec fn current(&self) -> Option<<Self::Item as View>::V> {
        (**self).current()
    }

    open spec fn remaining(&self) -> Seq<Result<<Self::Item as View>::V, Self::Error>> {
        (**self).remaining()
    }

    fn advance(&mut self) -> (outcome: Result<(), Self::Error>) {
        (**self).advance()
    }

    fn get(&self) -> (item: Option<&Self::Item>) {
        (**self).get()
    }
}

/// A [`LazyIter`] of any type behind one interface.
pub type DynIter<'a, V> = Box<dyn LazyIter<Item = V> + 'a>;

/// A [`StreamingIter`] of any type behind one interface.
pub type DynStreamingIterator<'a, V, E> = Box<dyn StreamingIter<Item = V, Error = E> + 'a>;

/// One row group as its producers present it: the columns in order, each
/// either a failure to open the column or the stream of its pages.
pub type RowGroupIter<'a, E> = DynIter<
    'a,
    Result<DynStreamingIterator<'a, CompressedPage, E>, E>,
>;

} // verus!
