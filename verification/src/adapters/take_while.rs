use vstd::prelude::*;
use crate::model::{lemma_prefix_while, prefix_while, lemma_first_and_rest};
use crate::traits::cursor::CursorLendingIterator;
use crate::traits::lending_iterator::LendingIterator;

verus! {

/// A lending iterator that yields items based on a predicate.
///
/// This iterator is fused: once the predicate has turned an element down, or
/// `iter` has lent nothing, `done` is set and nothing is lent any more,
/// whatever `iter` would do.
#[derive(Clone)]
pub struct TakeWhile<I, P> {
    pub iter: I,
    pub predicate: P,
    pub done: bool,
}

impl<I, P> TakeWhile<I, P> {
    pub fn new(iter: I, predicate: P) -> (r: Self)
        ensures
            r.iter == iter,
            r.predicate == predicate,
            !r.done,
    {
        Self { iter, predicate, done: false }
    }
}

impl<I, P> TakeWhile<I, P> where
    I: LendingIterator + 'static,
    P: for <'a>FnMut(&I::Item<'a>) -> bool + 'static,
 {
    /// Whether the predicate can return `true` for `x`.
    pub open spec fn accepts(&self) -> spec_fn(I::Item<'_>) -> bool {
        |x: I::Item<'_>| call_ensures(self.predicate, (&x,), true)
    }

    /// Whether the predicate has one answer only for `x`.
    pub open spec fn decides(&self, x: I::Item<'_>) -> bool {
        !(call_ensures(self.predicate, (&x,), true) && call_ensures(self.predicate, (&x,), false))
    }
}

/// The size hint of an iterator that ends at the first element that a
/// predicate turns down, where `inner` is the hint of the iterator below it:
/// nothing is left once it is `done`; before that, no more than `inner` says,
/// and perhaps nothing.
pub open spec fn take_while_hint(inner: (usize, Option<usize>), done: bool) -> (
    usize,
    Option<usize>,
) {
    if done {
        (0usize, Some(0usize))
    } else {
        (0usize, inner.1)
    }
}

/// The size hint of an iterator that ends at the first element that a
/// predicate turns down, from the hint of the iterator below it.
pub fn take_while_size_hint(inner: (usize, Option<usize>), done: bool) -> (hint: (
    usize,
    Option<usize>,
))
    ensures
        hint == take_while_hint(inner, done),
{
    if done {
        (0, Some(0))
    } else {
        (0, inner.1)
    }
}

impl<I, P> LendingIterator for TakeWhile<I, P> where
    I: LendingIterator + 'static,
    P: for <'a>FnMut(&I::Item<'a>) -> bool + 'static,
 {
    type Item<'a> = I::Item<'a>;

    /// The predicate has to take every element that `iter` may lend.
    open spec fn wf(&self) -> bool {
        &&& self.done || self.iter.wf()
        &&& forall|x: I::Item<'_>|
            (self.iter.lawful() ==> self.iter.remaining().contains(x)) && self.iter.lends(x)
                ==> #[trigger] call_requires(
                self.predicate,
                (&x,),
            )
    }

    open spec fn bound(&self) -> nat {
        if self.done {
            0
        } else {
            self.iter.bound()
        }
    }

    /// The predicate must have one answer for each element to come.
    open spec fn lawful(&self) -> bool {
        &&& self.iter.lawful()
        &&& forall|i: int|
            0 <= i < self.iter.remaining().len() ==> self.decides(
                #[trigger] self.iter.remaining()[i],
            )
    }

    open spec fn remaining<'a>(&'a self) -> Seq<Self::Item<'a>> {
        if self.done {
            Seq::empty()
        } else {
            prefix_while(self.iter.remaining(), self.accepts())
        }
    }

    /// Lends the next element of `iter` if the predicate takes it. The first
    /// element that it turns down is dropped. From then on, and likewise once
    /// `iter` has lent nothing, `iter` is not asked again and nothing is lent.
    fn next(&mut self) -> (ret: Option<Self::Item<'_>>)
        ensures
            old(self).done ==> ret is None && final(self).done && final(self).iter
                == old(self).iter,
            final(self).predicate == old(self).predicate,
            final(self).done <==> ret is None,
            final(self).wf(),
            ret matches Some(x) ==> call_ensures(old(self).predicate, (&x,), true),
            !old(self).done ==> exists|m: &mut I, inner: Option<I::Item<'_>>|
                *m == old(self).iter && *final(m) == final(self).iter && #[trigger] call_ensures(
                    I::next,
                    (m,),
                    inner,
                ) && match inner {
                    Some(x) => (ret == inner && call_ensures(old(self).predicate, (&x,), true))
                        || (ret is None && call_ensures(old(self).predicate, (&x,), false)),
                    None => ret is None,
                },
            !old(self).done && old(self).iter.lawful() && old(self).iter.remaining().len() == 0
                ==> ret is None,
            !old(self).done && old(self).iter.lawful() && old(self).iter.remaining().len() > 0
                ==> final(self).iter.remaining() == old(self).iter.remaining().drop_first() && (
            ret matches Some(x) ==> x == old(self).iter.remaining()[0]) && (ret is None
                ==> final(self).done && call_ensures(
                old(self).predicate,
                (&old(self).iter.remaining()[0],),
                false,
            )),
    {
        if self.done {
            None
        } else {
            proof {
                let rem = self.iter.remaining();
                if rem.len() > 0 {
                    lemma_first_and_rest(rem, |x: I::Item<'_>| self.decides(x));
                }
            }
            match self.iter.next() {
                Some(item) => {
                    if (self.predicate)(&item) {
                        Some(item)
                    } else {
                        self.done = true;
                        None
                    }
                },
                None => {
                    self.done = true;
                    None
                },
            }
        }
    }

    /// Once `done`, says that nothing is left; before that, hands on the
    /// upper bound that `iter` gives, and no lower bound.
    fn size_hint(&self) -> (hint: (usize, Option<usize>))
        ensures
            exists|inner: (usize, Option<usize>)|
                #[trigger] call_ensures(I::size_hint, (&self.iter,), inner) && hint
                    == take_while_hint(inner, self.done),
    {
        proof {
            lemma_prefix_while(self.iter.remaining(), self.accepts());
        }
        take_while_size_hint(self.iter.size_hint(), self.done)
    }
}

impl<I, P> CursorLendingIterator for TakeWhile<I, P> where
    I: CursorLendingIterator + 'static,
    P: for <'a>FnMut(&I::Item<'a>) -> bool + 'static,
 {
    /// Once `done`, nothing is lent, and `iter` is not asked.
    open spec fn can_get(&self) -> bool {
        self.done || self.iter.can_get()
    }

    /// After the predicate has turned an element down, the iterator stands
    /// on nothing.
    open spec fn current<'a>(&'a self) -> Option<Self::Item<'a>> {
        if self.done {
            None
        } else {
            self.iter.current()
        }
    }

    /// Moves `iter` on by one, unless the predicate has turned an element
    /// down before or `iter` has ended; says whether there is an element and
    /// the predicate takes it.
    fn advance(&mut self) -> (more: bool)
        ensures
            final(self).predicate == old(self).predicate,
            old(self).done ==> !more && final(self).done && final(self).iter == old(self).iter,
            more <==> !final(self).done,
            !old(self).done ==> exists|m: &mut I, moved: bool|
                *m == old(self).iter && #[trigger] call_ensures(I::advance, (m,), moved)
                    && if moved {
                    exists|k: &mut I, seen: Option<I::Item<'_>>|
                        *k == *final(m) && *final(k) == final(self).iter && #[trigger] call_ensures(
                            I::get,
                            (k,),
                            seen,
                        ) && match seen {
                            Some(x) => call_ensures(old(self).predicate, (&x,), more),
                            None => !more,
                        }
                } else {
                    !more && *final(m) == final(self).iter
                },
    {
        if self.done {
            return false;
        }
        proof {
            let rem = self.iter.remaining();
            if rem.len() > 0 {
                lemma_first_and_rest(rem, |x: I::Item<'_>| self.decides(x));
            }
        }
        if !self.iter.advance() {
            self.done = true;
            return false;
        }
        let keep = match self.iter.get() {
            Some(item) => (self.predicate)(&item),
            None => false,
        };
        if !keep {
            self.done = true;
        }
        proof {
            assert(self.can_get() == (self.done || self.iter.can_get()));
            assert(self.current() == if self.done {
                None
            } else {
                self.iter.current()
            });
        }
        keep
    }

    fn get(&mut self) -> (ret: Option<Self::Item<'_>>)
        ensures
            final(self).predicate == old(self).predicate,
            final(self).done == old(self).done,
            old(self).done ==> ret is None && final(self).iter == old(self).iter,
            !old(self).done ==> exists|m: &mut I|
                *m == old(self).iter && *final(m) == final(self).iter && #[trigger] call_ensures(
                    I::get,
                    (m,),
                    ret,
                ),
    {
        proof {
            assert(self.can_get() == (self.done || self.iter.can_get()));
            assert(self.current() == if self.done {
                None
            } else {
                self.iter.current()
            });
        }
        if self.done {
            None
        } else {
            self.iter.get()
        }
    }
}

/// What `wf`, `lawful` and `remaining` are of a `TakeWhile`. The verifier does
/// not unfold them for a particular predicate by itself: a caller who holds
/// one brings them in here, to show `wf` before the first call of `next`.
pub proof fn lemma_take_while_model<I, P>(it: TakeWhile<I, P>) where
    I: LendingIterator + 'static,
    P: for <'a>FnMut(&I::Item<'a>) -> bool + 'static,

    ensures
        it.wf() == ((it.done || it.iter.wf()) && forall|x: I::Item<'_>|
            (it.iter.lawful() ==> it.iter.remaining().contains(x)) && it.iter.lends(x)
                ==> #[trigger] call_requires(
                it.predicate,
                (&x,),
            )),
        it.lawful() == (it.iter.lawful() && forall|i: int|
            0 <= i < it.iter.remaining().len() ==> it.decides(#[trigger] it.iter.remaining()[i])),
        it.remaining() == if it.done {
            Seq::empty()
        } else {
            prefix_while(it.iter.remaining(), it.accepts())
        },
{
}

/// A lawful `TakeWhile` lends the elements of `iter` up to the first that the
/// predicate does not take: each of them as it is, none after that one, and
/// not that one itself. Once `done` is set it lends nothing at all.
pub proof fn lemma_take_while_stops<I, P>(it: TakeWhile<I, P>) where
    I: LendingIterator + 'static,
    P: for <'a>FnMut(&I::Item<'a>) -> bool + 'static,

    requires
        it.lawful(),
    ensures
        it.done ==> it.remaining().len() == 0,
        it.remaining().len() <= it.iter.remaining().len(),
        forall|i: int|
            0 <= i < it.remaining().len() ==> #[trigger] it.remaining()[i]
                == it.iter.remaining()[i] && call_ensures(
                it.predicate,
                (&it.iter.remaining()[i],),
                true,
            ),
        !it.done && it.remaining().len() < it.iter.remaining().len() ==> !call_ensures(
            it.predicate,
            (&it.iter.remaining()[it.remaining().len() as int],),
            true,
        ),
{
    let rem = it.iter.remaining();
    lemma_prefix_while(rem, it.accepts());
    if !it.done {
        assert(it.remaining() == prefix_while(rem, it.accepts()));
        assert forall|i: int| 0 <= i < it.remaining().len() implies #[trigger] it.remaining()[i]
            == rem[i] && call_ensures(it.predicate, (&rem[i],), true) by {
            assert(prefix_while(rem, it.accepts())[i] == rem[i]);
            assert(it.accepts()(rem[i]));
        }
    }
}

} // verus!
