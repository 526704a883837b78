use vstd::prelude::*;
use crate::model::lemma_first_and_rest;
use core::ops::Deref;
use crate::traits::lending_iterator::LendingIterator;

verus! {

/// A lending iterator that clones the elements of an underlying lending
/// iterator: each element of `iter` is dereferenced, and a clone of what it
/// points to is lent.
pub struct Cloned<I> {
    pub iter: I,
}

impl<I> Cloned<I> {
    pub fn new(iter: I) -> (r: Cloned<I>)
        ensures
            r.iter == iter,
    {
        Cloned { iter }
    }
}

/// Whether `y` can be a clone of what `x` points to.
pub open spec fn clones_to<X: Deref<Target = T>, T: Clone>(x: X, y: T) -> bool {
    exists|r: &T| #[trigger] call_ensures(X::deref, (&x,), r) && cloned(*r, y)
}

/// Whether what `x` points to has one clone only.
pub open spec fn clone_decides<X: Deref<Target = T>, T: Clone>(x: X) -> bool {
    forall|y1: T, y2: T| clones_to(x, y1) && clones_to(x, y2) ==> y1 == y2
}

/// A clone of what `x` points to: the clone, where there is one only.
pub open spec fn clone_of<X: Deref<Target = T>, T: Clone>(x: X) -> T {
    choose|y: T| clones_to(x, y)
}

impl<I> LendingIterator for Cloned<I> where
    I: LendingIterator + 'static,
    for <'a>I::Item<'a>: Deref,
    for <'a><I::Item<'a> as Deref>::Target: Clone + Sized,
 {
    type Item<'a> = <I::Item<'a> as Deref>::Target;

    open spec fn wf(&self) -> bool {
        self.iter.wf()
    }

    open spec fn bound(&self) -> nat {
        self.iter.bound()
    }

    /// Each element to come must have one clone only.
    open spec fn lawful(&self) -> bool {
        &&& self.iter.lawful()
        &&& forall|i: int|
            0 <= i < self.iter.remaining().len() ==> clone_decides(
                #[trigger] self.iter.remaining()[i],
            )
    }

    open spec fn remaining<'a>(&'a self) -> Seq<Self::Item<'a>> {
        Seq::new(self.iter.remaining().len(), |i: int| clone_of(self.iter.remaining()[i]))
    }

    /// Lends a clone of what the next element of `iter` points to; lends
    /// nothing if `iter` lends nothing.
    fn next(&mut self) -> (ret: Option<Self::Item<'_>>)
        ensures
            exists|m: &mut I, inner: Option<I::Item<'_>>|
                *m == old(self).iter && *final(m) == final(self).iter && #[trigger] call_ensures(
                    I::next,
                    (m,),
                    inner,
                ) && match inner {
                    Some(x) => ret is Some && clones_to(x, ret->0),
                    None => ret is None,
                },
    {
        proof {
            let rem = self.iter.remaining();
            if rem.len() > 0 {
                lemma_first_and_rest(rem, |x: I::Item<'_>| clone_decides(x));
            }
            if self.lawful() && rem.len() > 0 {
                assert(self.remaining().drop_first() =~= Seq::new(
                    rem.drop_first().len(),
                    |i: int| clone_of(rem.drop_first()[i]),
                ));
            }
        }
        match self.iter.next() {
            Some(item) => {
                let y = item.deref().clone();
                proof {
                    assert(clones_to(item, y));
                    assert(clones_to(item, clone_of(item)));
                }
                Some(y)
            },
            None => None,
        }
    }
}

/// A plain iterator that clones the elements of an underlying lending
/// iterator: what `next` returns can be kept while the iterator is advanced.
/// It holds the lending iterator that it was made from, and hands on what
/// that lends.
///
/// This `struct` is created by [`Cloned::into_iter`].
pub struct IntoIter<I> {
    pub lender: Cloned<I>,
}

impl<I, T> IntoIter<I> where
    I: LendingIterator + 'static,
    for <'a>I::Item<'a>: Deref<Target = T>,
    T: Clone + 'static,
 {
    /// What the lending iterator lends next: a clone of what the next
    /// element of the iterator below points to, and nothing if that lends
    /// nothing.
    pub fn next(&mut self) -> (ret: Option<T>)
        requires
            old(self).lender.wf(),
        ensures
            ret is Some ==> final(self).lender.wf(),
            exists|m: &mut I, inner: Option<I::Item<'_>>|
                *m == old(self).lender.iter && *final(m) == final(self).lender.iter
                    && #[trigger] call_ensures(I::next, (m,), inner) && match inner {
                    Some(x) => ret is Some && clones_to(x, ret->0),
                    None => ret is None,
                },
    {
        match self.lender.iter.next() {
            Some(item) => {
                let y = item.deref().clone();
                proof {
                    assert(clones_to(item, y));
                }
                Some(y)
            },
            None => None,
        }
    }
}

impl<I, T> Cloned<I> where
    I: LendingIterator + 'static,
    for <'a>I::Item<'a>: Deref<Target = T>,
    T: Clone + 'static,
 {
    /// Turns the lending iterator into a plain iterator: a clone does not
    /// borrow from what it was cloned from.
    pub fn into_iter(self) -> (r: IntoIter<I>)
        ensures
            r.lender == self,
    {
        IntoIter { lender: self }
    }
}

} // verus!
