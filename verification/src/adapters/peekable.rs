use vstd::prelude::*;
use vstd::std_specs::cmp::PartialEqSpec;
use crate::model::{
    folds_to, lemma_drop_first_contains, lemma_folds_to_push, lemma_folds_to_step,
    lemma_lent_push, lemma_trace_push, lends_on, lent, lent_all, skipped,
};
use crate::traits::lending_iterator::LendingIterator;

verus! {

/// A lending iterator with a `peek()` that returns an optional reference to
/// the next element.
///
/// The element that was looked at is kept in `peeked` until it is asked for,
/// so the iterator below has to lend elements that do not borrow from it: `T`
/// is their type. `peeked` is `None` while nothing was looked at,
/// `Some(None)` when the iterator below was found at its end, and
/// `Some(Some(x))` while `x` waits to be lent.
pub struct Peekable<I, T> {
    pub iter: I,
    pub peeked: Option<Option<T>>,
}

/// The size hint of a peekable iterator, where `inner` is the hint of the
/// iterator below it: nothing is left if the end is held, at least one
/// element if one is held, and what `inner` says if nothing is held.
pub open spec fn peekable_hint<T>(peeked: Option<Option<T>>, inner: (usize, Option<usize>)) -> (
    usize,
    Option<usize>,
) {
    match peeked {
        Some(None) => (0usize, Some(0usize)),
        Some(Some(_)) => (1usize, None::<usize>),
        None => inner,
    }
}

/// The size hint of a peekable iterator, from what it holds and the hint of
/// the iterator below it.
pub fn peekable_size_hint<T>(peeked: &Option<Option<T>>, inner: (usize, Option<usize>)) -> (hint: (
    usize,
    Option<usize>,
))
    ensures
        hint == peekable_hint(*peeked, inner),
{
    match peeked {
        Some(None) => (0, Some(0)),
        Some(Some(_)) => (1, None),
        None => inner,
    }
}

/// What `next_if` does with what is held: an element that `f` takes is
/// returned, and nothing is left in the slot; one that `f` turns down stays
/// in the slot, and so does the end.
pub open spec fn taken_if<T, F: FnOnce(&T) -> bool>(
    held: Option<T>,
    f: F,
    ret: Option<T>,
    left: Option<Option<T>>,
) -> bool {
    match held {
        Some(v) => (ret == Some(v) && left is None && call_ensures(f, (&v,), true)) || (ret
            is None && left == Some(Some(v)) && call_ensures(f, (&v,), false)),
        None => ret is None && left == Some(None::<T>),
    }
}

/// What `next_if_eq` does with what is held: an element is returned, and
/// nothing is left in the slot, or it stays in the slot; where `==` follows
/// its specification, the first is so exactly when the element is equal to
/// `expected`. The end stays in the slot.
pub open spec fn taken_if_eq<T, U: PartialEq<T>>(
    held: Option<T>,
    expected: &U,
    ret: Option<T>,
    left: Option<Option<T>>,
) -> bool {
    match held {
        Some(v) => (ret == Some(v) && left is None && (U::obeys_eq_spec() ==> expected.eq_spec(
            &v,
        ))) || (ret is None && left == Some(Some(v)) && (U::obeys_eq_spec()
            ==> !expected.eq_spec(&v))),
        None => ret is None && left == Some(None::<T>),
    }
}

/// The element that is held, as a sequence: empty where none is held.
pub open spec fn held_first<T>(peeked: Option<Option<T>>) -> Seq<T> {
    match peeked {
        Some(Some(v)) => seq![v],
        _ => Seq::empty(),
    }
}

impl<I, T> Peekable<I, T> where I: for <'a>LendingIterator<Item<'a> = T> + 'static, T: 'static {
    pub fn new(iter: I) -> (r: Peekable<I, T>)
        ensures
            r.iter == iter,
            r.peeked is None,
    {
        Peekable { iter, peeked: None }
    }

    /// Looks at the next element if none is held yet: afterwards `peeked`
    /// holds what `iter` lent.
    fn fill(&mut self)
        requires
            old(self).wf(),
        ensures
            final(self).peeked is Some,
            old(self).peeked is Some ==> *final(self) == *old(self),
            old(self).peeked is None ==> exists|m: &mut I|
                *m == old(self).iter && *final(m) == final(self).iter && #[trigger] call_ensures(
                    I::next,
                    (m,),
                    final(self).peeked->0,
                ),
            final(self).peeked->0 is Some || old(self).lawful() ==> final(self).wf(),
            final(self).peeked->0 is Some ==> final(self).bound() <= old(self).bound(),
            old(self).lawful() ==> final(self).lawful() && final(self).remaining()
                == old(self).remaining(),
            old(self).lawful() ==> (final(self).peeked->0 is Some <==> old(self).remaining().len()
                > 0),
    {
        if self.peeked.is_none() {
            let x = self.iter.next();
            self.peeked = Some(x);
            proof {
                if old(self).lawful() {
                    assert(self.remaining() =~= old(self).remaining());
                }
            }
        }
    }

    /// Returns a reference to the next() value without advancing the iterator.
    pub fn peek(&mut self) -> (ret: Option<&T>)
        requires
            old(self).wf(),
        ensures
            final(self).peeked is Some,
            old(self).peeked is Some ==> *final(self) == *old(self),
            old(self).peeked is None ==> exists|m: &mut I|
                *m == old(self).iter && *final(m) == final(self).iter && #[trigger] call_ensures(
                    I::next,
                    (m,),
                    final(self).peeked->0,
                ),
            ret is Some || old(self).lawful() ==> final(self).wf(),
            ret matches Some(x) ==> final(self).peeked == Some(Some(*x)),
            ret is None ==> final(self).peeked == Some(None::<T>),
            old(self).lawful() ==> final(self).lawful() && final(self).remaining()
                == old(self).remaining(),
            old(self).lawful() && old(self).remaining().len() > 0 ==> ret == Some(
                &old(self).remaining()[0],
            ),
            old(self).lawful() && old(self).remaining().len() == 0 ==> ret is None,
    {
        self.fill();
        match &self.peeked {
            Some(Some(x)) => Some(x),
            _ => None,
        }
    }

    /// Returns a mutable reference to the next() value without advancing the
    /// iterator. What the caller writes is what `next` lends.
    pub fn peek_mut(&mut self) -> (ret: Option<&mut T>)
        requires
            old(self).wf(),
        ensures
            ret is Some || old(self).lawful() ==> final(self).wf(),
            ret matches Some(x) ==> final(self).peeked == Some(Some(*final(x))),
            ret is None ==> final(self).peeked == Some(None::<T>),
            old(self).peeked is Some ==> final(self).iter == old(self).iter,
            old(self).peeked matches Some(Some(v)) ==> ret is Some && *ret->0 == v,
            old(self).peeked == Some(None::<T>) ==> ret is None,
            old(self).peeked is None ==> exists|m: &mut I, held: Option<T>|
                *m == old(self).iter && *final(m) == final(self).iter && #[trigger] call_ensures(
                    I::next,
                    (m,),
                    held,
                ) && match held {
                    Some(x) => ret is Some && *ret->0 == x,
                    None => ret is None,
                },
            old(self).lawful() ==> final(self).lawful(),
            old(self).lawful() && old(self).remaining().len() > 0 ==> ret is Some && *ret->0
                == old(self).remaining()[0] && final(self).remaining() == seq![*final(ret->0)]
                + old(self).remaining().drop_first(),
            old(self).lawful() && old(self).remaining().len() == 0 ==> ret is None
                && final(self).remaining() == old(self).remaining(),
    {
        self.fill();
        proof {
            if old(self).lawful() && old(self).remaining().len() > 0 {
                assert(self.iter.remaining() =~= old(self).remaining().drop_first());
            }
        }
        match &mut self.peeked {
            Some(Some(x)) => Some(x),
            _ => None,
        }
    }

    /// Consume and return the next value of this iterator if a condition is
    /// true. Otherwise the value stays where it is, to be lent later.
    pub fn next_if<F>(&mut self, f: F) -> (ret: Option<T>) where F: FnOnce(&T) -> bool
        requires
            old(self).wf(),
            forall|x: T|
                (old(self).lawful() ==> old(self).remaining().len() > 0 && old(self).remaining()[0]
                    == x) ==> #[trigger] call_requires(f, (&x,)),
        ensures
            ret is Some || old(self).lawful() ==> final(self).wf(),
            final(self).peeked is None <==> ret is Some,
            ret matches Some(v) ==> call_ensures(f, (&v,), true),
            ret is None ==> (final(self).peeked matches Some(Some(v)) ==> call_ensures(
                f,
                (&v,),
                false,
            )),
            old(self).peeked matches Some(held) ==> final(self).iter == old(self).iter
                && taken_if(held, f, ret, final(self).peeked),
            old(self).peeked is None ==> exists|m: &mut I, held: Option<T>|
                *m == old(self).iter && *final(m) == final(self).iter && #[trigger] call_ensures(
                    I::next,
                    (m,),
                    held,
                ) && taken_if(held, f, ret, final(self).peeked),
            old(self).lawful() ==> final(self).lawful(),
            old(self).lawful() ==> (ret matches Some(v) ==> old(self).remaining().len() > 0 && v
                == old(self).remaining()[0] && final(self).remaining()
                    == old(self).remaining().drop_first()),
            old(self).lawful() ==> (ret is None ==> final(self).remaining()
                == old(self).remaining()),
            old(self).lawful() && old(self).remaining().len() == 0 ==> ret is None,
    {
        self.fill();
        proof {
            if old(self).lawful() && old(self).remaining().len() > 0 {
                assert(self.iter.remaining() =~= old(self).remaining().drop_first());
            }
        }
        match self.peeked.take() {
            Some(Some(v)) => {
                if f(&v) {
                    Some(v)
                } else {
                    self.peeked = Some(Some(v));
                    proof {
                        if old(self).lawful() {
                            assert(self.remaining() =~= old(self).remaining());
                        }
                    }
                    None
                }
            },
            other => {
                self.peeked = other;
                None
            },
        }
    }

    /// Consume and return the next item if it is equal to `expected`.
    pub fn next_if_eq<U>(&mut self, expected: &U) -> (ret: Option<T>) where U: PartialEq<T>
        requires
            old(self).wf(),
        ensures
            ret is Some || old(self).lawful() ==> final(self).wf(),
            final(self).peeked is None <==> ret is Some,
            old(self).lawful() ==> final(self).lawful(),
            old(self).lawful() ==> (ret matches Some(v) ==> old(self).remaining().len() > 0 && v
                == old(self).remaining()[0] && final(self).remaining()
                    == old(self).remaining().drop_first()),
            old(self).lawful() ==> (ret is None ==> final(self).remaining()
                == old(self).remaining()),
            old(self).lawful() && old(self).remaining().len() == 0 ==> ret is None,
            old(self).peeked matches Some(held) ==> final(self).iter == old(self).iter
                && taken_if_eq(held, expected, ret, final(self).peeked),
            old(self).peeked is None ==> exists|m: &mut I, held: Option<T>|
                *m == old(self).iter && *final(m) == final(self).iter && #[trigger] call_ensures(
                    I::next,
                    (m,),
                    held,
                ) && taken_if_eq(held, expected, ret, final(self).peeked),
            U::obeys_eq_spec() ==> (ret matches Some(v) ==> expected.eq_spec(&v)),
            U::obeys_eq_spec() ==> (ret is None ==> (final(self).peeked matches Some(Some(v))
                ==> !expected.eq_spec(&v))),
    {
        self.fill();
        proof {
            if old(self).lawful() && old(self).remaining().len() > 0 {
                assert(self.iter.remaining() =~= old(self).remaining().drop_first());
            }
        }
        match self.peeked.take() {
            Some(Some(v)) => {
                if expected.eq(&v) {
                    Some(v)
                } else {
                    self.peeked = Some(Some(v));
                    proof {
                        if old(self).lawful() {
                            assert(self.remaining() =~= old(self).remaining());
                        }
                    }
                    None
                }
            },
            other => {
                self.peeked = other;
                None
            },
        }
    }

    /// Drops any peeked value and hands the iterator back.
    pub fn unpin(&mut self) -> (ret: &mut Self)
        ensures
            ret.peeked is None,
            ret.iter == old(self).iter,
            *final(self) == *final(ret),
    {
        self.peeked = None;
        self
    }

    /// The iterator below.
    pub fn as_ref(&self) -> (ret: &I)
        ensures
            *ret == self.iter,
    {
        &self.iter
    }

    /// The iterator below, to be advanced past what `peeked` holds.
    pub fn as_mut(&mut self) -> (ret: &mut I)
        ensures
            *ret == old(self).iter,
            final(self).iter == *final(ret),
            final(self).peeked == old(self).peeked,
    {
        &mut self.iter
    }
}

impl<I, T> LendingIterator for Peekable<I, T> where
    I: for <'a>LendingIterator<Item<'a> = T> + 'static,
    T: 'static,
 {
    type Item<'a> = T;

    /// While an element or the end is held, `iter` is not asked.
    open spec fn wf(&self) -> bool {
        self.peeked == Some(None::<T>) || self.iter.wf()
    }

    open spec fn bound(&self) -> nat {
        match self.peeked {
            Some(Some(_)) => self.iter.bound() + 1,
            _ => self.iter.bound(),
        }
    }

    /// If `iter` was found at its end, it must be at its end, and fit to be
    /// asked again.
    open spec fn lawful(&self) -> bool {
        &&& self.iter.lawful()
        &&& self.peeked == Some(None::<T>) ==> self.iter.remaining().len() == 0 && self.iter.wf()
    }

    /// What is held, and then what `iter` has left; nothing if the end is
    /// held.
    open spec fn remaining<'a>(&'a self) -> Seq<T> {
        match self.peeked {
            Some(Some(x)) => seq![x] + self.iter.remaining(),
            Some(None) => Seq::empty(),
            None => self.iter.remaining(),
        }
    }

    /// Lends what `peeked` holds if it holds anything, and the next element
    /// of `iter` if not. Afterwards nothing is held.
    fn next(&mut self) -> (ret: Option<T>)
        ensures
            final(self).peeked is None,
            old(self).peeked matches Some(v) ==> ret == v && final(self).iter == old(self).iter,
            old(self).peeked is None ==> exists|m: &mut I|
                *m == old(self).iter && *final(m) == final(self).iter && #[trigger] call_ensures(
                    I::next,
                    (m,),
                    ret,
                ),
    {
        proof {
            if self.peeked is Some && self.peeked->0 is Some {
                let x = self.peeked->0->0;
                assert((seq![x] + self.iter.remaining()).drop_first() =~= self.iter.remaining());
            }
        }
        match self.peeked.take() {
            Some(v) => v,
            None => self.iter.next(),
        }
    }

    /// One more than `iter` counts if an element is held, or the largest
    /// number if that does not fit; nothing if the end is held.
    fn count(self) -> (n: usize)
        ensures
            self.peeked == Some(None::<T>) ==> n == 0,
            self.peeked matches Some(Some(_)) ==> exists|below: usize|
                #[trigger] call_ensures(I::count, (self.iter,), below) && n == if below
                    < usize::MAX {
                    below + 1
                } else {
                    usize::MAX as int
                },
            self.peeked is None ==> call_ensures(I::count, (self.iter,), n),
    {
        let mut this = self;
        match this.peeked.take() {
            Some(None) => 0,
            Some(Some(_)) => this.iter.count().saturating_add(1),
            None => this.iter.count(),
        }
    }

    /// Counts what is held as the first element: `nth(0)` returns it and
    /// leaves `iter` alone, and a later place is looked up in `iter` one
    /// place earlier. If the end is held, nothing is returned and `iter` is
    /// not asked. Afterwards nothing is held.
    fn nth(&mut self, n: usize) -> (ret: Option<T>)
        ensures
            final(self).peeked is None,
            old(self).peeked == Some(None::<T>) ==> ret is None && final(self).iter
                == old(self).iter,
            old(self).peeked matches Some(Some(v)) ==> if n == 0 {
                ret == Some(v) && final(self).iter == old(self).iter
            } else {
                exists|m: &mut I|
                    *m == old(self).iter && *final(m) == final(self).iter
                        && #[trigger] call_ensures(
                        I::nth,
                        (m, (n - 1) as usize),
                        ret,
                    )
            },
            old(self).peeked is None ==> exists|m: &mut I|
                *m == old(self).iter && *final(m) == final(self).iter && #[trigger] call_ensures(
                    I::nth,
                    (m, n),
                    ret,
                ),
    {
        proof {
            if self.peeked is Some && self.peeked->0 is Some {
                let rem = seq![self.peeked->0->0] + self.iter.remaining();
                assert(rem.drop_first() =~= self.iter.remaining());
                assert(skipped(rem, (n + 1) as nat) =~= skipped(self.iter.remaining(), n as nat));
            }
        }
        match self.peeked.take() {
            Some(None) => None,
            Some(Some(v)) => {
                if n == 0 {
                    Some(v)
                } else {
                    self.iter.nth(n - 1)
                }
            },
            None => self.iter.nth(n),
        }
    }

    /// Says that nothing is left if the end is held, and that at least one
    /// element is left if one is held; hands on the hint of `iter` if nothing
    /// is held.
    fn size_hint(&self) -> (hint: (usize, Option<usize>))
        ensures
            exists|inner: (usize, Option<usize>)|
                #[trigger] call_ensures(I::size_hint, (&self.iter,), inner) && hint
                    == peekable_hint(self.peeked, inner),
    {
        peekable_size_hint(&self.peeked, self.iter.size_hint())
    }

    /// Gives back `init` if the end is held. Otherwise folds what is held
    /// first, if an element is held, and then what `iter` lends until it gives
    /// nothing.
    fn fold<B, F>(self, init: B, f: F) -> (out: B) where F: FnMut(B, T) -> B
        ensures
            self.peeked == Some(None::<T>) ==> out == init,
            self.peeked != Some(None::<T>) ==> exists|ms: Seq<&mut I>, rs: Seq<Option<T>>|
                #![trigger ms.len(), rs.len()]
                ms.len() == rs.len()
                && (ms.len() > 0 ==> &*ms[0] == &self.iter)
                && (forall|i: int| 0 <= i < ms.len() - 1 ==> &*#[trigger] ms[i + 1]
                    == &*final(ms[i]))
                && (forall|i: int|
                    0 <= i < ms.len() ==> call_ensures(I::next, (#[trigger] ms[i],), rs[i]))
                && lends_on(rs) && rs.last() is None && folds_to(
                    f,
                    init,
                    held_first(self.peeked) + lent(rs),
                    out,
                ),
    {
        let mut this = self;
        let mut g = f;
        let ghost whole = self.remaining();
        let ghost held = held_first(self.peeked);
        proof {
            if held.len() > 0 {
                assert(whole =~= seq![self.peeked->0->0] + self.iter.remaining());
                assert(whole.drop_first() =~= self.iter.remaining());
                assert(whole.contains(whole[0]));
                lemma_drop_first_contains(whole);
            }
        }
        let mut acc = match this.peeked.take() {
            Some(None) => {
                return init;
            },
            Some(Some(v)) => g(init, v),
            None => init,
        };
        let ghost start = acc;
        let mut iter = this.iter;
        let ghost mut k: int = 0;
        proof {
            let ms = Seq::<&mut I>::empty();
            let rs = Seq::<Option<T>>::empty();
            assert(ms.len() == 0 && rs.len() == 0);
            assert(held + lent_all(rs) =~= held);
            if held.len() > 0 {
                assert(held.drop_first() =~= Seq::<T>::empty());
                assert(folds_to(f, start, held.drop_first(), start));
            }
            assert(folds_to(f, init, held + lent_all(rs), acc));
        }
        loop
            invariant
                g == f,
                iter.wf(),
                0 <= k,
                forall|a: B, x: T|
                    (self.lawful() ==> whole.contains(x)) ==> #[trigger] call_requires(f, (a, x)),
                self.lawful() ==> iter.lawful(),
                self.lawful() ==> forall|x: T| iter.remaining().contains(x) ==> whole.contains(x),
                self.lawful() ==> forall|o: B|
                    folds_to(f, acc, iter.remaining(), o) ==> folds_to(
                        f,
                        start,
                        self.iter.remaining(),
                        o,
                    ),
                whole == self.remaining(),
                held == held_first(self.peeked),
                self.peeked != Some(None::<T>),
                held.len() > 0 ==> whole.len() > 0 && whole.drop_first() == self.iter.remaining()
                    && call_ensures(f, (init, whole[0]), start),
                held.len() == 0 ==> start == init && whole == self.iter.remaining(),
                exists|ms: Seq<&mut I>, rs: Seq<Option<T>>|
                    #![trigger ms.len(), rs.len()]
                    ms.len() == k && rs.len() == k
                    && (k > 0 ==> &*ms[0] == &self.iter && &*final(ms[k - 1]) == &iter)
                    && (k == 0 ==> &iter == &self.iter)
                    && (forall|i: int| 0 <= i < k - 1 ==> &*#[trigger] ms[i + 1] == &*final(ms[i]))
                    && (forall|i: int|
                        0 <= i < k ==> call_ensures(I::next, (#[trigger] ms[i],), rs[i]))
                    && (forall|i: int| 0 <= i < k ==> (#[trigger] rs[i]) is Some)
                    && folds_to(f, init, held + lent_all(rs), acc),
            decreases iter.bound(),
        {
            proof {
                if iter.lawful() && iter.remaining().len() > 0 {
                    let rem = iter.remaining();
                    lemma_drop_first_contains(rem);
                    assert(rem.contains(rem[0]));
                    assert forall|mid: B, o: B|
                        call_ensures(f, (acc, rem[0]), mid) && folds_to(
                            f,
                            mid,
                            rem.drop_first(),
                            o,
                        ) implies folds_to(f, acc, rem, o) by {
                        lemma_folds_to_step(f, acc, rem, mid, o);
                    }
                }
            }
            let ghost t0 = iter;
            let ghost acc0 = acc;
            let r = iter.next();
            let ghost rg = r;
            match r {
                Some(x) => {
                    acc = g(acc, x);
                    proof {
                        let sa = choose|m: &mut I|
                            &*m == &t0 && &*final(m) == &after_borrow(iter)
                                && call_ensures(I::next, (m,), rg);
                        let (ms, rs) = choose|ms: Seq<&mut I>, rs: Seq<Option<T>>|
                            #![trigger ms.len(), rs.len()]
                            ms.len() == k && rs.len() == k
                            && (k > 0 ==> &*ms[0] == &self.iter && &*final(ms[k - 1]) == &t0)
                            && (k == 0 ==> &t0 == &self.iter)
                            && (forall|i: int| 0 <= i < k - 1 ==> &*#[trigger] ms[i + 1]
                                == &*final(ms[i]))
                            && (forall|i: int|
                                0 <= i < k ==> call_ensures(I::next, (#[trigger] ms[i],), rs[i]))
                            && (forall|i: int| 0 <= i < k ==> (#[trigger] rs[i]) is Some)
                            && folds_to(f, init, held + lent_all(rs), acc0);
                        lemma_trace_push(
                            ms,
                            rs,
                            sa,
                            rg,
                            &self.iter,
                            &after_borrow(iter),
                            |m: &mut I, r: Option<T>| call_ensures(I::next, (m,), r),
                        );
                        lemma_lent_push(rs, rg);
                        assert(ms.push(sa).len() == k + 1 && rs.push(rg).len() == k + 1);
                        lemma_folds_to_push(f, init, held + lent_all(rs), acc0, rg->0, acc);
                        assert((held + lent_all(rs)).push(rg->0) =~= held + lent_all(rs.push(rg)));
                        k = k + 1;
                    }
                },
                None => {
                    proof {
                        let sa = choose|m: &mut I|
                            &*m == &t0 && &*final(m) == &after_borrow(iter)
                                && call_ensures(I::next, (m,), rg);
                        let (ms, rs) = choose|ms: Seq<&mut I>, rs: Seq<Option<T>>|
                            #![trigger ms.len(), rs.len()]
                            ms.len() == k && rs.len() == k
                            && (k > 0 ==> &*ms[0] == &self.iter && &*final(ms[k - 1]) == &t0)
                            && (k == 0 ==> &t0 == &self.iter)
                            && (forall|i: int| 0 <= i < k - 1 ==> &*#[trigger] ms[i + 1]
                                == &*final(ms[i]))
                            && (forall|i: int|
                                0 <= i < k ==> call_ensures(I::next, (#[trigger] ms[i],), rs[i]))
                            && (forall|i: int| 0 <= i < k ==> (#[trigger] rs[i]) is Some)
                            && folds_to(f, init, held + lent_all(rs), acc0);
                        lemma_trace_push(
                            ms,
                            rs,
                            sa,
                            rg,
                            &self.iter,
                            &after_borrow(iter),
                            |m: &mut I, r: Option<T>| call_ensures(I::next, (m,), r),
                        );
                        lemma_lent_push(rs, rg);
                        assert(ms.push(sa).len() == k + 1 && rs.push(rg).len() == k + 1);
                        if self.lawful() {
                            assert(folds_to(f, acc, iter.remaining(), acc));
                            if held.len() > 0 {
                                lemma_folds_to_step(f, init, whole, start, acc);
                            }
                        }
                    }
                    return acc;
                },
            }
        }
    }
}

/// What a peekable iterator over a lawful iterator has still to lend while it
/// holds `x`: `x` first, then what the iterator below has. So it counts one
/// more than the iterator below, and looking at `x` has changed neither.
pub proof fn lemma_peeked_remaining<I, T>(it: Peekable<I, T>, x: T) where
    I: for <'a>LendingIterator<Item<'a> = T> + 'static,
    T: 'static,

    requires
        it.lawful(),
        it.peeked == Some(Some(x)),
    ensures
        it.remaining() == seq![x] + it.iter.remaining(),
        it.remaining().len() == 1 + it.iter.remaining().len(),
        it.remaining()[0] == x,
{
}

} // verus!
