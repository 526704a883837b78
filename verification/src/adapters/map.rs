use vstd::prelude::*;
use crate::model::{lemma_drop_first_contains, lemma_first_and_rest};
use crate::traits::functions::{SingleArgFnMut, SingleArgFnOnce};
use crate::traits::lending_iterator::LendingIterator;

verus! {

/// A lending iterator that maps the elements of `iter` with `f`. What `f`
/// returns may borrow from the element that it was given.
#[derive(Clone)]
pub struct Mapped<I, F> {
    pub iter: I,
    pub f: F,
}

impl<I, F> Mapped<I, F> {
    pub fn new(iter: I, f: F) -> (r: Self)
        ensures
            r.iter == iter,
            r.f == f,
    {
        Self { iter, f }
    }
}

impl<I, F> Mapped<I, F> where
    I: LendingIterator + 'static,
    F: for <'a>SingleArgFnMut<I::Item<'a>> + 'static,
 {
    /// Whether `f` has one result only for `x`.
    pub open spec fn decides(&self, x: I::Item<'_>) -> bool {
        forall|
            y1: <F as SingleArgFnOnce<I::Item<'_>>>::Output,
            y2: <F as SingleArgFnOnce<I::Item<'_>>>::Output,
        |
            call_ensures(self.f, (x,), y1) && call_ensures(self.f, (x,), y2) ==> y1 == y2
    }

    /// A result of `f` for `x`: the result, where `f` has one only.
    pub open spec fn image(&self, x: I::Item<'_>) -> <F as SingleArgFnOnce<I::Item<'_>>>::Output {
        choose|y: <F as SingleArgFnOnce<I::Item<'_>>>::Output| call_ensures(self.f, (x,), y)
    }
}

impl<I, F> LendingIterator for Mapped<I, F> where
    I: LendingIterator + 'static,
    F: for <'a>SingleArgFnMut<I::Item<'a>> + 'static,
 {
    type Item<'a> = <F as SingleArgFnOnce<I::Item<'a>>>::Output;

    /// `f` has to take every element that `iter` may lend.
    open spec fn wf(&self) -> bool {
        &&& self.iter.wf()
        &&& forall|x: I::Item<'_>|
            (self.iter.lawful() ==> self.iter.remaining().contains(x)) && self.iter.lends(x)
                ==> #[trigger] call_requires(
                self.f,
                (x,),
            )
    }

    open spec fn bound(&self) -> nat {
        self.iter.bound()
    }

    /// `f` must have one result for each element to come.
    open spec fn lawful(&self) -> bool {
        &&& self.iter.lawful()
        &&& forall|i: int|
            0 <= i < self.iter.remaining().len() ==> self.decides(
                #[trigger] self.iter.remaining()[i],
            )
    }

    open spec fn remaining<'a>(&'a self) -> Seq<Self::Item<'a>> {
        Seq::new(self.iter.remaining().len(), |i: int| self.image(self.iter.remaining()[i]))
    }

    /// Lends what `f` makes of the next element of `iter`; lends nothing, and
    /// does not ask `f`, if `iter` lends nothing.
    fn next(&mut self) -> (ret: Option<Self::Item<'_>>)
        ensures
            final(self).f == old(self).f,
            exists|m: &mut I, inner: Option<I::Item<'_>>|
                *m == old(self).iter && *final(m) == final(self).iter && #[trigger] call_ensures(
                    I::next,
                    (m,),
                    inner,
                ) && match inner {
                    Some(x) => ret is Some && call_ensures(old(self).f, (x,), ret->0),
                    None => ret is None,
                },
    {
        proof {
            let rem = self.iter.remaining();
            if rem.len() > 0 {
                lemma_first_and_rest(rem, |x: I::Item<'_>| self.decides(x));
            }
            if self.lawful() && rem.len() > 0 {
                assert(self.remaining().drop_first() =~= Seq::new(
                    rem.drop_first().len(),
                    |i: int| self.image(rem.drop_first()[i]),
                ));
            }
        }
        match self.iter.next() {
            Some(item) => Some((self.f)(item)),
            None => None,
        }
    }
}

/// A plain iterator that maps the elements of an iterator with a function
/// whose result does not borrow from its argument: what `next` returns can be
/// kept while the iterator is advanced. It holds the lending iterator that it
/// was made from, and hands on what that lends.
///
/// This `struct` is created by [`Mapped::into_iter`].
pub struct IntoIter<I, F> {
    pub lender: Mapped<I, F>,
}

impl<I, F, O> IntoIter<I, F> where
    I: LendingIterator + 'static,
    F: for <'a>FnMut(I::Item<'a>) -> O + 'static,
 {
    /// What the lending iterator lends next: what `f` makes of the next
    /// element of the iterator below, and nothing if that lends nothing.
    pub fn next(&mut self) -> (ret: Option<O>)
        requires
            old(self).lender.wf(),
        ensures
            final(self).lender.f == old(self).lender.f,
            ret is Some ==> final(self).lender.wf(),
            exists|m: &mut I, inner: Option<I::Item<'_>>|
                *m == old(self).lender.iter && *final(m) == final(self).lender.iter
                    && #[trigger] call_ensures(I::next, (m,), inner) && match inner {
                    Some(x) => ret is Some && call_ensures(old(self).lender.f, (x,), ret->0),
                    None => ret is None,
                },
    {
        proof {
            lemma_mapped_model(self.lender);
            let rem = self.lender.iter.remaining();
            if self.lender.iter.lawful() && rem.len() > 0 {
                lemma_drop_first_contains(rem);
                assert(rem.contains(rem[0]));
            }
        }
        let ret = match self.lender.iter.next() {
            Some(item) => Some((self.lender.f)(item)),
            None => None,
        };
        proof {
            lemma_mapped_model(self.lender);
        }
        ret
    }
}

impl<I, F, O> Mapped<I, F> where
    I: LendingIterator + 'static,
    F: for <'a>FnMut(I::Item<'a>) -> O + 'static,
 {
    /// Turns the lending iterator into a plain iterator. The function's
    /// result cannot borrow from its argument here, so nothing is lost.
    pub fn into_iter(self) -> (r: IntoIter<I, F>)
        ensures
            r.lender == self,
    {
        IntoIter { lender: self }
    }
}

/// What `wf`, `lawful` and `remaining` are of a `Mapped`. The verifier does
/// not unfold them for a particular function by itself: a caller who holds
/// one brings them in here, to show `wf` before the first call of `next`.
pub proof fn lemma_mapped_model<I, F>(it: Mapped<I, F>) where
    I: LendingIterator + 'static,
    F: for <'a>SingleArgFnMut<I::Item<'a>> + 'static,

    ensures
        it.wf() == (it.iter.wf() && forall|x: I::Item<'_>|
            (it.iter.lawful() ==> it.iter.remaining().contains(x)) && it.iter.lends(x)
                ==> #[trigger] call_requires(
                it.f,
                (x,),
            )),
        it.lawful() == (it.iter.lawful() && forall|i: int|
            0 <= i < it.iter.remaining().len() ==> it.decides(#[trigger] it.iter.remaining()[i])),
        it.remaining() == Seq::new(
            it.iter.remaining().len(),
            |i: int| it.image(it.iter.remaining()[i]),
        ),
{
}

} // verus!
