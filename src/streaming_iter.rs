//! Streaming key-value iterators: each step hands out references into the
//! iterator, valid until it moves again.
use vstd::prelude::*;
use std::marker::PhantomData;

verus! {

/// A cursor over key-value pairs that can be moved and read.
pub trait StreamingKVIter {
    type K: ?Sized;

    type V: ?Sized;

    type E;

    /// Moves to the first pair whose key is at least `key`.
    fn seek(&mut self, key: &Self::K) -> Result<(), Self::E>;

    /// Moves to the next pair; a new iterator must advance before `get`.
    fn advance(&mut self) -> Result<(), Self::E>;

    /// The pair at the current position, if any.
    fn get(&self) -> Option<(&Self::K, &Self::V)>;

    /// Advances, then reads.
    fn next(&mut self) -> Result<Option<(&Self::K, &Self::V)>, Self::E> {
        match self.advance() {
            Ok(()) => Ok(self.get()),
            Err(e) => Err(e),
        }
    }
}

/// An iterator over nothing.
pub struct EmptyIter<K: ?Sized, V: ?Sized, E> {
    _p1: PhantomData<(E, K)>,
    _p2: PhantomData<V>,
}

/// Returns an iterator over nothing.
pub fn empty<K: ?Sized, V: ?Sized, E>() -> (r: EmptyIter<K, V, E>) {
    EmptyIter { _p1: PhantomData, _p2: PhantomData }
}

impl<K: ?Sized, V: ?Sized, E> StreamingKVIter for EmptyIter<K, V, E> {
    type K = K;

    type V = V;

    type E = E;

    fn seek(&mut self, _key: &K) -> (r: Result<(), E>)
        ensures
            r is Ok,
    {
        Ok(())
    }

    fn advance(&mut self) -> (r: Result<(), E>)
        ensures
            r is Ok,
    {
        Ok(())
    }

    fn get(&self) -> (r: Option<(&K, &V)>)
        ensures
            r is None,
    {
        None
    }

    /// There is never a next pair.
    fn next(&mut self) -> (r: Result<Option<(&K, &V)>, E>)
        ensures
            r matches Ok(x) && x is None,
    {
        Ok(None)
    }
}

/// An iterator over a list of borrowed pairs, in order.
pub struct WrappingIter<'a, K: ?Sized + 'a, V: ?Sized + 'a, E> {
    inner: Vec<(&'a K, &'a V)>,
    // The index of the next pair.
    pos: usize,
    item: Option<(&'a K, &'a V)>,
    _p: PhantomData<E>,
}

/// Returns an iterator over `items`, in order.
pub fn wrap<'a, K: ?Sized + 'a, V: ?Sized + 'a, E>(items: Vec<(&'a K, &'a V)>) -> (r: WrappingIter<'a, K, V, E>)
    ensures
        r.items() == items@,
        r.position() == 0,
        r.current() is None,
{
    WrappingIter { inner: items, pos: 0, item: None, _p: PhantomData }
}

impl<'a, K: ?Sized + 'a, V: ?Sized + 'a, E> WrappingIter<'a, K, V, E> {
    /// The pairs iterated over.
    pub closed spec fn items(&self) -> Seq<(&'a K, &'a V)> {
        self.inner@
    }

    /// The index of the next pair.
    pub closed spec fn position(&self) -> int {
        self.pos as int
    }

    /// The pair at the current position.
    pub closed spec fn current(&self) -> Option<(&'a K, &'a V)> {
        self.item
    }
}

impl<'a, K: ?Sized + 'a, V: ?Sized + 'a, E> StreamingKVIter for WrappingIter<'a, K, V, E> {
    type K = K;

    type V = V;

    type E = E;

    /// A list cannot be searched by key: the position stays where it is.
    fn seek(&mut self, _key: &K) -> (r: Result<(), E>)
        ensures
            r is Ok,
            *final(self) == *old(self),
    {
        Ok(())
    }

    /// Moves to the next pair of the list; past its end there is none.
    fn advance(&mut self) -> (r: Result<(), E>)
        ensures
            r is Ok,
            final(self).items() == old(self).items(),
            old(self).position() < old(self).items().len() ==> final(self).current() == Some(
                old(self).items()[old(self).position()],
            ) && final(self).position() == old(self).position() + 1,
            old(self).position() >= old(self).items().len() ==> final(self).current() is None
                && final(self).position() == old(self).position(),
    {
        if self.pos < self.inner.len() {
            self.item = Some(self.inner[self.pos]);
            self.pos = self.pos + 1;
        } else {
            self.item = None;
        }
        Ok(())
    }

    fn get(&self) -> (r: Option<(&K, &V)>)
        ensures
            r == self.current(),
    {
        self.item
    }

    /// Moves to the next pair of the list and returns it; past its end,
    /// `None`.
    fn next(&mut self) -> (r: Result<Option<(&K, &V)>, E>)
        ensures
            final(self).items() == old(self).items(),
            old(self).position() < old(self).items().len() ==> r == Ok::<Option<(&K, &V)>, E>(
                Some(old(self).items()[old(self).position()]),
            ) && final(self).position() == old(self).position() + 1,
            old(self).position() >= old(self).items().len() ==> r == Ok::<Option<(&K, &V)>, E>(None)
                && final(self).position() == old(self).position(),
    {
        if self.pos < self.inner.len() {
            self.item = Some(self.inner[self.pos]);
            self.pos = self.pos + 1;
        } else {
            self.item = None;
        }
        Ok(self.item)
    }
}

} // verus!
