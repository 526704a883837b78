//! The iteration trait and the methods that are built on `next` alone.

use vstd::prelude::*;
use core::ops::Deref;
use crate::traits::functions::{OptionTrait, SingleArgFnMut};
use crate::model::{
    folds_to, hint_holds, hint_is_exact, lemma_folds_to_push, lemma_lent_push, lemma_skip_head,
    lemma_trace_push, lemma_tries_to_push, lends_on, lent, lent_all, misplaced_at, partitioned_at, skipped, tries_to,
};
use crate::adapters::chain::Chain;
use crate::adapters::cloned::Cloned;
use crate::adapters::enumerate::Enumerate;
use crate::adapters::filter::Filter;
use crate::adapters::filter_map::FilterMap;
use crate::adapters::map::Mapped;
use crate::adapters::peekable::Peekable;
use crate::adapters::skip::Skip;
use crate::adapters::skip_while::SkipWhile;
use crate::adapters::step_by::StepBy;
use crate::adapters::take::Take;
use crate::adapters::take_while::TakeWhile;
use crate::adapters::zip::Zip;

verus! {

/// Like [`Iterator`], but an element may borrow from `&mut self`: it has to be
/// released before the next one is asked for.
///
/// An implementation describes itself by five specification functions.
/// `wf` says when `next` may be called, and `bound` is a number that falls with
/// every element that is lent, so that a caller's loop ends. A `lawful`
/// iterator lends exactly the elements of `remaining`, in that order, and then
/// nothing, however often it is asked. An iterator that is not `lawful` says
/// in the contract of its own `next` what it lends, and makes no promise
/// about itself once it has ended; those that lend `&mut` are of that kind,
/// since what they lend next may depend on what the caller wrote. `lends`
/// says what is known of every element beforehand.
///
/// The methods that are built on `next` state their result twice: over
/// `remaining`, of a lawful iterator, and over the calls of `next` that they
/// made, of every iterator. The second statement belongs to the method as it
/// is written here; an implementation that writes a method anew states what
/// its own does.
pub trait LendingIterator {
    /// The type of the elements being iterated over.
    type Item<'a> where Self: 'a;

    /// Whether `next` may be called. Of an implementation that does not say,
    /// it may not.
    open spec fn wf(&self) -> bool {
        false
    }

    /// A number that falls whenever an element is lent.
    open spec fn bound(&self) -> nat {
        0
    }

    /// Whether the iterator lends exactly the elements of `remaining`. An
    /// implementation that does not say is not lawful.
    open spec fn lawful(&self) -> bool {
        false
    }

    /// The elements that a lawful iterator has still to lend, in order.
    open spec fn remaining<'a>(&'a self) -> Seq<Self::Item<'a>> {
        Seq::empty()
    }

    /// What is known beforehand of every element that the iterator may
    /// lend, whether it is lawful or not: a function that is to be called on
    /// the elements has to take those of which this holds. An implementation
    /// that does not say knows nothing of them.
    open spec fn lends<'a>(&'a self, x: Self::Item<'a>) -> bool {
        true
    }

    /// Advances the lending iterator and returns the next value.
    fn next(&mut self) -> (ret: Option<Self::Item<'_>>)
        requires
            old(self).wf(),
        ensures
            ret is Some ==> old(self).lends(ret->0),
            forall|x: Self::Item<'_>| #[trigger] final(self).lends(x) ==> old(self).lends(x),
            ret is Some || old(self).lawful() ==> final(self).wf(),
            ret is Some ==> final(self).bound() < old(self).bound(),
            old(self).lawful() ==> final(self).lawful(),
            old(self).lawful() && old(self).remaining().len() > 0 ==> ret == Some(
                old(self).remaining()[0],
            ) && final(self).remaining() == old(self).remaining().drop_first(),
            old(self).lawful() && old(self).remaining().len() == 0 ==> ret is None
                && final(self).remaining() == old(self).remaining(),
    ;

    /// Returns bounds on the number of elements that are left, which hold of a
    /// lawful iterator. An implementation that has none of its own gives no
    /// bounds at all.
    fn size_hint(&self) -> (hint: (usize, Option<usize>))
        ensures
            self.lawful() ==> hint_holds(hint, self.remaining().len()),
        default_ensures
            hint == (0usize, None::<usize>),
    {
        (0, None)
    }

    /// Returns the number of elements that the iterator lends until it ends:
    /// the number of calls of `next` that gave one. A number that does not fit
    /// is given as the largest that does.
    fn count(self) -> (n: usize) where Self: Sized
        requires
            self.wf(),
        ensures
            n <= self.bound(),
            self.lawful() && self.remaining().len() <= usize::MAX ==> n == self.remaining().len(),
            self.lawful() && self.remaining().len() > usize::MAX ==> n == usize::MAX,
        default_ensures
            exists|ms: Seq<&mut Self>, rs: Seq<Option<Self::Item<'_>>>|
                #![trigger ms.len(), rs.len()]
                ms.len() == rs.len()
                && (ms.len() > 0 ==> &*ms[0] == &self)
                && (forall|i: int| 0 <= i < ms.len() - 1 ==> &*#[trigger] ms[i + 1]
                    == &*final(ms[i]))
                && (forall|i: int|
                    0 <= i < ms.len() ==> call_ensures(Self::next, (#[trigger] ms[i],), rs[i]))
                && lends_on(rs) && rs.last() is None && n == if lent(rs).len() <= usize::MAX {
                    lent(rs).len() as int
                } else {
                    usize::MAX as int
                },
    {
        let mut this = self;
        let mut n: usize = 0;
        let ghost mut k: int = 0;
        proof {
            let ms = Seq::<&mut Self>::empty();
            let rs = Seq::<Option<Self::Item<'_>>>::empty();
            assert(ms.len() == 0 && rs.len() == 0);
        }
        loop
            invariant
                this.wf(),
                0 <= k,
                k + this.bound() <= self.bound(),
                n == if k <= usize::MAX {
                    k
                } else {
                    usize::MAX as int
                },
                self.lawful() ==> this.lawful() && k + this.remaining().len()
                    == self.remaining().len(),
                exists|ms: Seq<&mut Self>, rs: Seq<Option<Self::Item<'_>>>|
                    #![trigger ms.len(), rs.len()]
                    ms.len() == k && rs.len() == k
                    && (k > 0 ==> &*ms[0] == &self && &*final(ms[k - 1]) == &this)
                    && (k == 0 ==> &this == &self)
                    && (forall|i: int| 0 <= i < k - 1 ==> &*#[trigger] ms[i + 1] == &*final(ms[i]))
                    && (forall|i: int|
                        0 <= i < k ==> call_ensures(Self::next, (#[trigger] ms[i],), rs[i]))
                    && (forall|i: int| 0 <= i < k ==> (#[trigger] rs[i]) is Some),
                forall|x: Self::Item<'_>| #[trigger] this.lends(x) ==> self.lends(x),
            decreases this.bound(),
        {
            let ghost t0 = this;
            let r = this.next();
            let ghost rg = r;
            proof {
                let sa = choose|m: &mut Self|
                    &*m == &t0 && &*final(m) == &after_borrow(this)
                        && call_ensures(Self::next, (m,), rg);
                let (ms, rs) = choose|ms: Seq<&mut Self>, rs: Seq<Option<Self::Item<'_>>>|
                    #![trigger ms.len(), rs.len()]
                    ms.len() == k && rs.len() == k
                    && (k > 0 ==> &*ms[0] == &self && &*final(ms[k - 1]) == &t0)
                    && (k == 0 ==> &t0 == &self)
                    && (forall|i: int| 0 <= i < k - 1 ==> &*#[trigger] ms[i + 1]
                        == &*final(ms[i]))
                    && (forall|i: int|
                        0 <= i < k ==> call_ensures(Self::next, (#[trigger] ms[i],), rs[i]))
                    && (forall|i: int| 0 <= i < k ==> (#[trigger] rs[i]) is Some);
                lemma_trace_push(
                    ms,
                    rs,
                    sa,
                    rg,
                    &self,
                    &after_borrow(this),
                    |m: &mut Self, r: Option<Self::Item<'_>>| call_ensures(
                        Self::next,
                        (m,),
                        r,
                    ),
                );
                lemma_lent_push(rs, rg);
                assert(ms.push(sa).len() == k + 1 && rs.push(rg).len() == k + 1);
            }
            match r {
                Some(_) => {
                    if n < usize::MAX {
                        n = n + 1;
                    }
                    proof {
                        k = k + 1;
                    }
                },
                None => {
                    return n;
                },
            }
        }
    }

    /// Advances the iterator by `n` elements: `next` is called `n` times, or
    /// until it gives nothing. If it ends before that, the error holds the
    /// number of elements that were still to be passed.
    fn advance_by(&mut self, n: usize) -> (ret: Result<(), usize>)
        requires
            old(self).wf(),
        ensures
            ret is Ok || old(self).lawful() ==> final(self).wf(),
            ret is Ok ==> final(self).bound() + n <= old(self).bound(),
            ret matches Err(k) ==> 0 < k <= n,
            old(self).lawful() ==> final(self).lawful(),
            old(self).lawful() ==> final(self).remaining() == skipped(
                old(self).remaining(),
                n as nat,
            ),
            old(self).lawful() && n <= old(self).remaining().len() ==> ret is Ok,
            old(self).lawful() && n > old(self).remaining().len() ==> ret == Err::<(), usize>(
                (n - old(self).remaining().len()) as usize,
            ),
        default_ensures
            exists|ms: Seq<&mut Self>, rs: Seq<Option<Self::Item<'_>>>|
                #![trigger ms.len(), rs.len()]
                ms.len() == rs.len()
                && (ms.len() > 0 ==> &*ms[0] == &*old(self) && &*final(ms[ms.len() - 1])
                    == &*final(self))
                && (ms.len() == 0 ==> &*final(self) == &*old(self))
                && (forall|i: int| 0 <= i < ms.len() - 1 ==> &*#[trigger] ms[i + 1]
                    == &*final(ms[i]))
                && (forall|i: int|
                    0 <= i < ms.len() ==> call_ensures(Self::next, (#[trigger] ms[i],), rs[i]))
                && (ms.len() == 0 ==> &*final(self) == &*old(self)) && match ret {
                    Ok(_) => ms.len() == n && forall|i: int|
                        0 <= i < n ==> (#[trigger] rs[i]) is Some,
                    Err(left) => lends_on(rs) && rs.last() is None && left == n - lent(rs).len(),
                },
    {
        let mut i: usize = 0;
        let ghost mut k: int = 0;
        proof {
            let ms = Seq::<&mut Self>::empty();
            let rs = Seq::<Option<Self::Item<'_>>>::empty();
            assert(ms.len() == 0 && rs.len() == 0);
        }
        while i < n
            invariant
                i <= n,
                k == i,
                self.wf(),
                self.bound() + i <= old(self).bound(),
                old(self).lawful() ==> self.lawful() && i <= old(self).remaining().len()
                    && self.remaining() == old(self).remaining().skip(i as int),
                exists|ms: Seq<&mut Self>, rs: Seq<Option<Self::Item<'_>>>|
                    #![trigger ms.len(), rs.len()]
                    ms.len() == k && rs.len() == k
                    && (k > 0 ==> &*ms[0] == &*old(self) && &*final(ms[k - 1]) == &*self)
                    && (k == 0 ==> &*self == &*old(self))
                    && (forall|i: int| 0 <= i < k - 1 ==> &*#[trigger] ms[i + 1] == &*final(ms[i]))
                    && (forall|i: int|
                        0 <= i < k ==> call_ensures(Self::next, (#[trigger] ms[i],), rs[i]))
                    && (forall|i: int| 0 <= i < k ==> (#[trigger] rs[i]) is Some),
            decreases n - i,
        {
            let ghost pre = &*self;
            let r = self.next();
            let ghost rg = r;
            proof {
                let sa = choose|m: &mut Self|
                    &*m == pre && &*final(m) == &*after_borrow(self)
                        && call_ensures(Self::next, (m,), rg);
                let (ms, rs) = choose|ms: Seq<&mut Self>, rs: Seq<Option<Self::Item<'_>>>|
                    #![trigger ms.len(), rs.len()]
                    ms.len() == k && rs.len() == k
                    && (k > 0 ==> &*ms[0] == &*old(self) && &*final(ms[k - 1]) == pre)
                    && (k == 0 ==> pre == &*old(self))
                    && (forall|i: int| 0 <= i < k - 1 ==> &*#[trigger] ms[i + 1]
                        == &*final(ms[i]))
                    && (forall|i: int|
                        0 <= i < k ==> call_ensures(Self::next, (#[trigger] ms[i],), rs[i]))
                    && (forall|i: int| 0 <= i < k ==> (#[trigger] rs[i]) is Some);
                lemma_trace_push(
                    ms,
                    rs,
                    sa,
                    rg,
                    &*old(self),
                    &*after_borrow(self),
                    |m: &mut Self, r: Option<Self::Item<'_>>| call_ensures(Self::next, (m,), r),
                );
                lemma_lent_push(rs, rg);
                assert(ms.push(sa).len() == k + 1 && rs.push(rg).len() == k + 1);
            }
            if r.is_none() {
                return Err(n - i);
            }
            proof {
                k = k + 1;
            }
            i += 1;
        }
        Ok(())
    }

    /// Returns the `n`th element of the iterator, counted from zero, and
    /// passes over those before it: it calls `advance_by` with `n`, and
    /// `next` if that passed over `n` elements.
    fn nth(&mut self, n: usize) -> (ret: Option<Self::Item<'_>>)
        requires
            old(self).wf(),
        ensures
            ret is Some || old(self).lawful() ==> final(self).wf(),
            ret is Some ==> final(self).bound() < old(self).bound(),
            old(self).lawful() ==> final(self).lawful(),
            old(self).lawful() ==> final(self).remaining() == skipped(
                old(self).remaining(),
                (n + 1) as nat,
            ),
            old(self).lawful() && n < old(self).remaining().len() ==> ret == Some(
                old(self).remaining()[n as int],
            ),
            old(self).lawful() && n >= old(self).remaining().len() ==> ret is None,
        default_ensures
            exists|m: &mut Self, passed: Result<(), usize>|
                &*m == &*old(self) && #[trigger] call_ensures(Self::advance_by, (m, n), passed)
                    && match passed {
                    Ok(_) => exists|m2: &mut Self|
                        &*m2 == &*final(m) && &*final(m2) == &*final(self)
                            && #[trigger] call_ensures(
                            Self::next,
                            (m2,),
                            ret,
                        ),
                    Err(_) => ret is None && &*final(m) == &*final(self),
                },
    {
        match self.advance_by(n) {
            Ok(()) => self.next(),
            Err(_) => None,
        }
    }

    /// Calls a closure on each element of the lending iterator, in order.
    fn for_each<F>(self, f: F) where Self: Sized, F: FnMut(Self::Item<'_>)
        requires
            self.wf(),
            forall|x: Self::Item<'_>|
                (self.lawful() ==> self.remaining().contains(x)) && self.lends(x)
                    ==> #[trigger] call_requires(
                    f,
                    (x,),
                ),
        ensures
            self.lawful() ==> forall|i: int|
                0 <= i < self.remaining().len() ==> call_ensures(
                    f,
                    (#[trigger] self.remaining()[i],),
                    (),
                ),
        default_ensures
            exists|ms: Seq<&mut Self>, rs: Seq<Option<Self::Item<'_>>>|
                #![trigger ms.len(), rs.len()]
                ms.len() == rs.len()
                && (ms.len() > 0 ==> &*ms[0] == &self)
                && (forall|i: int| 0 <= i < ms.len() - 1 ==> &*#[trigger] ms[i + 1]
                    == &*final(ms[i]))
                && (forall|i: int|
                    0 <= i < ms.len() ==> call_ensures(Self::next, (#[trigger] ms[i],), rs[i]))
                && lends_on(rs) && (forall|i: int|
                    0 <= i < rs.len() - 1 ==> call_ensures(f, ((#[trigger] rs[i])->0,), ()))
                        && rs.last() is None,
    {
        let mut this = self;
        let mut g = f;
        let ghost mut done: int = 0;
        proof {
            let ms = Seq::<&mut Self>::empty();
            let rs = Seq::<Option<Self::Item<'_>>>::empty();
            assert(ms.len() == 0 && rs.len() == 0);
        }
        loop
            invariant
                g == f,
                this.wf(),
                forall|x: Self::Item<'_>|
                    (this.lawful() ==> this.remaining().contains(x)) && this.lends(x)
                        ==> #[trigger] call_requires(
                        f,
                        (x,),
                    ),
                self.lawful() ==> this.lawful() && 0 <= done <= self.remaining().len()
                    && this.remaining() == self.remaining().skip(done),
                self.lawful() ==> forall|i: int|
                    0 <= i < done ==> call_ensures(f, (#[trigger] self.remaining()[i],), ()),
                0 <= done,
                exists|ms: Seq<&mut Self>, rs: Seq<Option<Self::Item<'_>>>|
                    #![trigger ms.len(), rs.len()]
                    ms.len() == done && rs.len() == done
                    && (done > 0 ==> &*ms[0] == &self && &*final(ms[done - 1]) == &this)
                    && (done == 0 ==> &this == &self)
                    && (forall|i: int| 0 <= i < done - 1 ==> &*#[trigger] ms[i + 1]
                        == &*final(ms[i]))
                    && (forall|i: int|
                        0 <= i < done ==> call_ensures(Self::next, (#[trigger] ms[i],), rs[i]))
                    && (forall|i: int| 0 <= i < done ==> (#[trigger] rs[i]) is Some)
                    && (forall|i: int| 0 <= i < done
                        ==> call_ensures(f, ((#[trigger] rs[i])->0,), ())),
                forall|x: Self::Item<'_>| #[trigger] this.lends(x) ==> self.lends(x),
            decreases this.bound(),
        {
            proof {
                if this.lawful() && this.remaining().len() > 0 {
                    crate::model::lemma_drop_first_contains(this.remaining());
                    assert(this.remaining().contains(this.remaining()[0]));
                }
            }
            let ghost t0 = this;
            let more = match this.next() {
                Some(item) => {
                    g(item);
                    true
                },
                None => false,
            };
            proof {
                let (sa, rg) = choose|m: &mut Self, rg: Option<Self::Item<'_>>|
                    &*m == &t0 && &*final(m) == &this
                        && #[trigger] call_ensures(Self::next, (m,), rg)
                        && match rg {
                        Some(x) => more && call_ensures(f, (x,), ()),
                        None => !more,
                    };
                let (ms, rs) = choose|ms: Seq<&mut Self>, rs: Seq<Option<Self::Item<'_>>>|
                    #![trigger ms.len(), rs.len()]
                    ms.len() == done && rs.len() == done
                    && (done > 0 ==> &*ms[0] == &self && &*final(ms[done - 1]) == &t0)
                    && (done == 0 ==> &t0 == &self)
                    && (forall|i: int| 0 <= i < done - 1 ==> &*#[trigger] ms[i + 1]
                        == &*final(ms[i]))
                    && (forall|i: int|
                        0 <= i < done ==> call_ensures(Self::next, (#[trigger] ms[i],), rs[i]))
                    && (forall|i: int| 0 <= i < done ==> (#[trigger] rs[i]) is Some)
                    && (forall|i: int| 0 <= i < done
                        ==> call_ensures(f, ((#[trigger] rs[i])->0,), ()));
                lemma_trace_push(
                    ms,
                    rs,
                    sa,
                    rg,
                    &self,
                    &this,
                    |m: &mut Self, r: Option<Self::Item<'_>>| call_ensures(Self::next, (m,), r),
                );
                lemma_lent_push(rs, rg);
                assert(ms.push(sa).len() == done + 1 && rs.push(rg).len() == done + 1);
                assert forall|i: int| 0 <= i < done implies call_ensures(
                    f,
                    ((#[trigger] rs.push(rg)[i])->0,),
                    (),
                ) by {
                    assert(rs.push(rg)[i] == rs[i]);
                }
            }
            if !more {
                return ;
            }
            proof {
                done = done + 1;
            }
        }
    }

    /// Folds every element into an accumulator by applying an operation,
    /// returning the final result: `next` is called until it gives nothing,
    /// and what it lent is folded in that order.
    fn fold<B, F>(self, init: B, f: F) -> (out: B) where
        Self: Sized,
        F: FnMut(B, Self::Item<'_>) -> B,

        requires
            self.wf(),
            forall|acc: B, x: Self::Item<'_>|
                (self.lawful() ==> self.remaining().contains(x)) && self.lends(x)
                    ==> #[trigger] call_requires(
                    f,
                    (acc, x),
                ),
        ensures
            self.lawful() ==> folds_to(f, init, self.remaining(), out),
        default_ensures
            exists|ms: Seq<&mut Self>, rs: Seq<Option<Self::Item<'_>>>|
                #![trigger ms.len(), rs.len()]
                ms.len() == rs.len()
                && (ms.len() > 0 ==> &*ms[0] == &self)
                && (forall|i: int| 0 <= i < ms.len() - 1 ==> &*#[trigger] ms[i + 1]
                    == &*final(ms[i]))
                && (forall|i: int|
                    0 <= i < ms.len() ==> call_ensures(Self::next, (#[trigger] ms[i],), rs[i]))
                && lends_on(rs) && rs.last() is None && folds_to(f, init, lent(rs), out),
    {
        let mut this = self;
        let mut g = f;
        let mut accum = init;
        let ghost mut k: int = 0;
        proof {
            let ms = Seq::<&mut Self>::empty();
            let rs = Seq::<Option<Self::Item<'_>>>::empty();
            assert(ms.len() == 0 && rs.len() == 0);
        }
        loop
            invariant
                g == f,
                this.wf(),
                0 <= k,
                forall|acc: B, x: Self::Item<'_>|
                    (this.lawful() ==> this.remaining().contains(x)) && this.lends(x)
                        ==> #[trigger] call_requires(
                        f,
                        (acc, x),
                    ),
                self.lawful() ==> this.lawful() && forall|o: B|
                    folds_to(f, accum, this.remaining(), o)
                        ==> folds_to(f, init, self.remaining(), o),
                exists|ms: Seq<&mut Self>, rs: Seq<Option<Self::Item<'_>>>|
                    #![trigger ms.len(), rs.len()]
                    ms.len() == k && rs.len() == k
                    && (k > 0 ==> &*ms[0] == &self && &*final(ms[k - 1]) == &this)
                    && (k == 0 ==> &this == &self)
                    && (forall|i: int| 0 <= i < k - 1 ==> &*#[trigger] ms[i + 1] == &*final(ms[i]))
                    && (forall|i: int|
                        0 <= i < k ==> call_ensures(Self::next, (#[trigger] ms[i],), rs[i]))
                    && (forall|i: int| 0 <= i < k ==> (#[trigger] rs[i]) is Some)
                    && folds_to(f, init, lent_all(rs), accum),
                forall|x: Self::Item<'_>| #[trigger] this.lends(x) ==> self.lends(x),
            decreases this.bound(),
        {
            proof {
                if this.lawful() && this.remaining().len() > 0 {
                    let rem = this.remaining();
                    crate::model::lemma_drop_first_contains(rem);
                    assert(rem.contains(rem[0]));
                    assert forall|mid: B, o: B|
                        call_ensures(f, (accum, rem[0]), mid) && folds_to(
                            f,
                            mid,
                            rem.drop_first(),
                            o,
                        ) implies folds_to(f, accum, rem, o) by {
                        crate::model::lemma_folds_to_step(f, accum, rem, mid, o);
                    }
                }
            }
            let ghost t0 = this;
            let ghost acc0 = accum;
            let r = this.next();
            let ghost rg = r;
            proof {
                let sa = choose|m: &mut Self|
                    &*m == &t0 && &*final(m) == &after_borrow(this)
                        && call_ensures(Self::next, (m,), rg);
                let (ms, rs) = choose|ms: Seq<&mut Self>, rs: Seq<Option<Self::Item<'_>>>|
                    #![trigger ms.len(), rs.len()]
                    ms.len() == k && rs.len() == k
                    && (k > 0 ==> &*ms[0] == &self && &*final(ms[k - 1]) == &t0)
                    && (k == 0 ==> &t0 == &self)
                    && (forall|i: int| 0 <= i < k - 1 ==> &*#[trigger] ms[i + 1]
                        == &*final(ms[i]))
                    && (forall|i: int|
                        0 <= i < k ==> call_ensures(Self::next, (#[trigger] ms[i],), rs[i]))
                    && (forall|i: int| 0 <= i < k ==> (#[trigger] rs[i]) is Some)
                    && folds_to(f, init, lent_all(rs), acc0);
                lemma_trace_push(
                    ms,
                    rs,
                    sa,
                    rg,
                    &self,
                    &after_borrow(this),
                    |m: &mut Self, r: Option<Self::Item<'_>>| call_ensures(
                        Self::next,
                        (m,),
                        r,
                    ),
                );
                lemma_lent_push(rs, rg);
                assert(ms.push(sa).len() == k + 1 && rs.push(rg).len() == k + 1);
                if rg is Some {
                    assert forall|out: B| call_ensures(f, (acc0, rg->0), out) implies folds_to(
                        f,
                        init,
                        lent_all(rs.push(rg)),
                        out,
                    ) by {
                        lemma_folds_to_push(f, init, lent_all(rs), acc0, rg->0, out);
                    }
                }
            }
            match r {
                Some(x) => {
                    accum = g(accum, x);
                    proof {
                        k = k + 1;
                    }
                },
                None => {
                    return accum;
                },
            }
        }
    }

    /// Folds the elements into an accumulator as long as the operation goes
    /// well: the first failure ends the traversal and is handed back as it
    /// is. The iterator is advanced past the element that failed, or to its
    /// end.
    fn try_fold<B, E, F>(&mut self, init: B, f: F) -> (out: Result<B, E>) where
        F: FnMut(B, Self::Item<'_>) -> Result<B, E>,

        requires
            old(self).wf(),
            forall|acc: B, x: Self::Item<'_>|
                (old(self).lawful() ==> old(self).remaining().contains(x)) && old(self).lends(x)
                    ==> #[trigger] call_requires(f, (acc, x)),
        ensures
            out is Err || old(self).lawful() ==> final(self).wf(),
            old(self).lawful() ==> final(self).lawful() && tries_to(
                f,
                init,
                old(self).remaining(),
                out,
                final(self).remaining(),
            ),
        default_ensures
            exists|ms: Seq<&mut Self>, rs: Seq<Option<Self::Item<'_>>>|
                #![trigger ms.len(), rs.len()]
                ms.len() == rs.len()
                && (ms.len() > 0 ==> &*ms[0] == &*old(self) && &*final(ms[ms.len() - 1])
                    == &*final(self))
                && (ms.len() == 0 ==> &*final(self) == &*old(self))
                && (forall|i: int| 0 <= i < ms.len() - 1 ==> &*#[trigger] ms[i + 1]
                    == &*final(ms[i]))
                && (forall|i: int|
                    0 <= i < ms.len() ==> call_ensures(Self::next, (#[trigger] ms[i],), rs[i]))
                && lends_on(rs) && tries_to(f, init, lent(rs), out, Seq::empty()) && (out is Ok
                    <==> rs.last() is None),
    {
        let mut g = f;
        let mut accum = init;
        let ghost mut k: int = 0;
        proof {
            let ms = Seq::<&mut Self>::empty();
            let rs = Seq::<Option<Self::Item<'_>>>::empty();
            assert(ms.len() == 0 && rs.len() == 0);
            assert(lent_all(rs) =~= Seq::empty());
        }
        loop
            invariant
                g == f,
                self.wf(),
                forall|acc: B, x: Self::Item<'_>|
                    (old(self).lawful() ==> old(self).remaining().contains(x)) && old(self).lends(x)
                        ==> #[trigger] call_requires(f, (acc, x)),
                old(self).lawful() ==> self.lawful() && (forall|x: Self::Item<'_>|
                    self.remaining().contains(x) ==> old(self).remaining().contains(x))
                    && forall|o: Result<B, E>, rest: Seq<Self::Item<'_>>|
                    tries_to(f, accum, self.remaining(), o, rest) ==> tries_to(
                        f,
                        init,
                        old(self).remaining(),
                        o,
                        rest,
                    ),
                0 <= k,
                exists|ms: Seq<&mut Self>, rs: Seq<Option<Self::Item<'_>>>|
                    #![trigger ms.len(), rs.len()]
                    ms.len() == k && rs.len() == k
                    && (k > 0 ==> &*ms[0] == &*old(self) && &*final(ms[k - 1]) == &*self)
                    && (k == 0 ==> &*self == &*old(self))
                    && (forall|i: int| 0 <= i < k - 1 ==> &*#[trigger] ms[i + 1] == &*final(ms[i]))
                    && (forall|i: int|
                        0 <= i < k ==> call_ensures(Self::next, (#[trigger] ms[i],), rs[i]))
                    && (forall|i: int| 0 <= i < k ==> (#[trigger] rs[i]) is Some)
                    && tries_to(f, init, lent_all(rs), Ok::<B, E>(accum), Seq::empty()),
                forall|x: Self::Item<'_>| #[trigger] self.lends(x) ==> old(self).lends(x),
            decreases self.bound(),
        {
            proof {
                if self.lawful() && self.remaining().len() > 0 {
                    let rem = self.remaining();
                    crate::model::lemma_drop_first_contains(rem);
                    assert(rem.contains(rem[0]));
                    assert forall|mid: B, o: Result<B, E>, rest: Seq<Self::Item<'_>>|
                        call_ensures(f, (accum, rem[0]), Ok::<B, E>(mid)) && tries_to(
                            f,
                            mid,
                            rem.drop_first(),
                            o,
                            rest,
                        ) implies tries_to(f, accum, rem, o, rest) by {
                        crate::model::lemma_tries_to_step(f, accum, rem, mid, o, rest);
                    }
                    assert forall|e: E|
                        call_ensures(f, (accum, rem[0]), Err::<B, E>(e)) implies tries_to(
                        f,
                        accum,
                        rem,
                        Err::<B, E>(e),
                        rem.drop_first(),
                    ) by {}
                }
            }
            let ghost pre = &*self;
            let ghost acc0 = accum;
            let r = self.next();
            let ghost rg = r;
            proof {
                let sa = choose|m: &mut Self|
                    &*m == pre && &*final(m) == &*after_borrow(self)
                        && call_ensures(Self::next, (m,), rg);
                let (ms, rs) = choose|ms: Seq<&mut Self>, rs: Seq<Option<Self::Item<'_>>>|
                    #![trigger ms.len(), rs.len()]
                    ms.len() == k && rs.len() == k
                    && (k > 0 ==> &*ms[0] == &*old(self) && &*final(ms[k - 1]) == pre)
                    && (k == 0 ==> pre == &*old(self))
                    && (forall|i: int| 0 <= i < k - 1 ==> &*#[trigger] ms[i + 1]
                        == &*final(ms[i]))
                    && (forall|i: int|
                        0 <= i < k ==> call_ensures(Self::next, (#[trigger] ms[i],), rs[i]))
                    && (forall|i: int| 0 <= i < k ==> (#[trigger] rs[i]) is Some)
                    && tries_to(f, init, lent_all(rs), Ok::<B, E>(acc0), Seq::empty());
                lemma_trace_push(
                    ms,
                    rs,
                    sa,
                    rg,
                    &*old(self),
                    &*after_borrow(self),
                    |m: &mut Self, r: Option<Self::Item<'_>>| call_ensures(
                        Self::next,
                        (m,),
                        r,
                    ),
                );
                lemma_lent_push(rs, rg);
                assert(ms.push(sa).len() == k + 1 && rs.push(rg).len() == k + 1);
                if rg is Some {
                    assert forall|step: Result<B, E>|
                        call_ensures(f, (acc0, rg->0), step) implies tries_to(
                        f,
                        init,
                        lent_all(rs).push(rg->0),
                        step,
                        Seq::empty(),
                    ) by {
                        lemma_tries_to_push(f, init, lent_all(rs), acc0, rg->0, step);
                    }
                }
            }
            match r {
                Some(x) => {
                    let step = g(accum, x);
                    let ghost sg = step;
                    match step {
                        Ok(mid) => {
                            accum = mid;
                            proof {
                                k = k + 1;
                            }
                        },
                        Err(e) => {
                            return Err(e);
                        },
                    }
                },
                None => {
                    return Ok(accum);
                },
            }
        }
    }

    /// Calls a closure on each element as long as it goes well: the first
    /// failure ends the traversal and is handed back as it is.
    fn try_for_each<E, F>(&mut self, f: F) -> (out: Result<(), E>) where
        F: FnMut(Self::Item<'_>) -> Result<(), E>,

        requires
            old(self).wf(),
            forall|x: Self::Item<'_>|
                (old(self).lawful() ==> old(self).remaining().contains(x)) && old(self).lends(x)
                    ==> #[trigger] call_requires(f, (x,)),
        ensures
            out is Err || old(self).lawful() ==> final(self).wf(),
            old(self).lawful() ==> final(self).lawful(),
            old(self).lawful() && out is Ok ==> final(self).remaining().len() == 0
                && forall|i: int|
                0 <= i < old(self).remaining().len() ==> call_ensures(
                    f,
                    (#[trigger] old(self).remaining()[i],),
                    Ok::<(), E>(()),
                ),
            old(self).lawful() && out is Err ==> exists|k: int|
                0 <= k < old(self).remaining().len() && call_ensures(
                    f,
                    (#[trigger] old(self).remaining()[k],),
                    out,
                ) && final(self).remaining() == old(self).remaining().skip(k + 1) && forall|i: int|
                    0 <= i < k ==> call_ensures(
                        f,
                        (#[trigger] old(self).remaining()[i],),
                        Ok::<(), E>(()),
                    ),
        default_ensures
            exists|ms: Seq<&mut Self>, rs: Seq<Option<Self::Item<'_>>>|
                #![trigger ms.len(), rs.len()]
                ms.len() == rs.len()
                && (ms.len() > 0 ==> &*ms[0] == &*old(self) && &*final(ms[ms.len() - 1])
                    == &*final(self))
                && (ms.len() == 0 ==> &*final(self) == &*old(self))
                && (forall|i: int| 0 <= i < ms.len() - 1 ==> &*#[trigger] ms[i + 1]
                    == &*final(ms[i]))
                && (forall|i: int|
                    0 <= i < ms.len() ==> call_ensures(Self::next, (#[trigger] ms[i],), rs[i]))
                && lends_on(rs) && (forall|i: int|
                    0 <= i < rs.len() - 1
                        ==> call_ensures(f, ((#[trigger] rs[i])->0,), Ok::<(), E>(())))
                        && match rs.last() {
                    Some(x) => out is Err && call_ensures(f, (x,), out),
                    None => out is Ok,
                },
    {
        let mut g = f;
        let ghost mut passed: int = 0;
        proof {
            let ms = Seq::<&mut Self>::empty();
            let rs = Seq::<Option<Self::Item<'_>>>::empty();
            assert(ms.len() == 0 && rs.len() == 0);
        }
        loop
            invariant
                g == f,
                self.wf(),
                forall|x: Self::Item<'_>|
                    (old(self).lawful() ==> old(self).remaining().contains(x)) && old(self).lends(x)
                        ==> #[trigger] call_requires(f, (x,)),
                old(self).lawful() ==> self.lawful() && 0 <= passed <= old(self).remaining().len()
                    && self.remaining() == old(self).remaining().skip(passed),
                old(self).lawful() ==> forall|i: int|
                    0 <= i < passed ==> call_ensures(
                        f,
                        (#[trigger] old(self).remaining()[i],),
                        Ok::<(), E>(()),
                    ),
                0 <= passed,
                exists|ms: Seq<&mut Self>, rs: Seq<Option<Self::Item<'_>>>|
                    #![trigger ms.len(), rs.len()]
                    ms.len() == passed && rs.len() == passed
                    && (passed > 0 ==> &*ms[0] == &*old(self) && &*final(ms[passed - 1]) == &*self)
                    && (passed == 0 ==> &*self == &*old(self))
                    && (forall|i: int| 0 <= i < passed - 1 ==> &*#[trigger] ms[i + 1]
                        == &*final(ms[i]))
                    && (forall|i: int|
                        0 <= i < passed ==> call_ensures(Self::next, (#[trigger] ms[i],), rs[i]))
                    && (forall|i: int| 0 <= i < passed ==> (#[trigger] rs[i]) is Some)
                    && (forall|i: int| 0 <= i < passed
                        ==> call_ensures(f, ((#[trigger] rs[i])->0,), Ok::<(), E>(()))),
                forall|x: Self::Item<'_>| #[trigger] self.lends(x) ==> old(self).lends(x),
            decreases self.bound(),
        {
            proof {
                let before = self.remaining();
                if old(self).lawful() && before.len() > 0 {
                    lemma_skip_head(old(self).remaining(), passed);
                }
            }
            let ghost pre = &*self;
            let step = match self.next() {
                Some(item) => Some(g(item)),
                None => None,
            };
            proof {
                let (sa, rg) = choose|m: &mut Self, rg: Option<Self::Item<'_>>|
                    &*m == pre && &*final(m) == &*self
                        && #[trigger] call_ensures(Self::next, (m,), rg)
                        && match rg {
                        Some(x) => step matches Some(v) && call_ensures(f, (x,), v),
                        None => step is None,
                    };
                let (ms, rs) = choose|ms: Seq<&mut Self>, rs: Seq<Option<Self::Item<'_>>>|
                    #![trigger ms.len(), rs.len()]
                    ms.len() == passed && rs.len() == passed
                    && (passed > 0 ==> &*ms[0] == &*old(self) && &*final(ms[passed - 1]) == pre)
                    && (passed == 0 ==> pre == &*old(self))
                    && (forall|i: int| 0 <= i < passed - 1 ==> &*#[trigger] ms[i + 1]
                        == &*final(ms[i]))
                    && (forall|i: int|
                        0 <= i < passed ==> call_ensures(Self::next, (#[trigger] ms[i],), rs[i]))
                    && (forall|i: int| 0 <= i < passed ==> (#[trigger] rs[i]) is Some)
                    && (forall|i: int| 0 <= i < passed
                        ==> call_ensures(f, ((#[trigger] rs[i])->0,), Ok::<(), E>(())));
                lemma_trace_push(
                    ms,
                    rs,
                    sa,
                    rg,
                    &*old(self),
                    &*self,
                    |m: &mut Self, r: Option<Self::Item<'_>>| call_ensures(Self::next, (m,), r),
                );
                lemma_lent_push(rs, rg);
                assert(ms.push(sa).len() == passed + 1 && rs.push(rg).len() == passed + 1);
                assert forall|i: int| 0 <= i < passed implies call_ensures(
                    f,
                    ((#[trigger] rs.push(rg)[i])->0,),
                    Ok::<(), E>(()),
                ) by {
                    assert(rs.push(rg)[i] == rs[i]);
                }
            }
            match step {
                Some(Ok(unit)) => {
                    proof {
                        assert(unit == ());
                        passed = passed + 1;
                    }
                },
                Some(Err(e)) => {
                    return Err(e);
                },
                None => {
                    return Ok(());
                },
            }
        }
    }

    /// Returns the last element, where the size hint says exactly how many
    /// elements are left, and that there are some: then the iterator is
    /// advanced to its end, by as many elements as the hint says. Where the
    /// hint leaves the number open, or says that nothing is left, nothing is
    /// lent and the iterator stays as it is: a lent element cannot be held
    /// while the next is asked for.
    fn last(&mut self) -> (ret: Option<Self::Item<'_>>)
        requires
            old(self).wf(),
        ensures
            ret is Some || old(self).lawful() ==> final(self).wf(),
            old(self).lawful() ==> final(self).lawful(),
            exists|hint: (usize, Option<usize>)|
                #[trigger] call_ensures(Self::size_hint, (&*old(self),), hint) && if hint_is_exact(
                    hint,
                ) {
                    &&& exists|m: &mut Self|
                        &*m == &*old(self) && &*final(m) == &*final(self)
                            && #[trigger] call_ensures(
                            Self::nth,
                            (m, (hint.0 - 1) as usize),
                            ret,
                        )
                    &&& ret is Some ==> final(self).bound() < old(self).bound()
                    &&& old(self).lawful() ==> old(self).remaining().len() == hint.0 && ret
                        == Some(old(self).remaining().last()) && final(self).remaining().len()
                        == 0
                } else {
                    ret is None && &*final(self) == &*old(self)
                },
    {
        let hint = self.size_hint();
        let (lower, upper) = hint;
        let exact = match upper {
            Some(u) => u == lower && lower > 0,
            None => false,
        };
        if exact {
            self.nth(lower - 1)
        } else {
            None
        }
    }

    /// Creates a lending iterator that starts at the same element and then,
    /// each time, passes over `step` elements and lends the one after them.
    fn step_by(self, step: usize) -> (r: StepBy<Self>) where Self: Sized
        requires
            step != 0,
        ensures
            r.iter == self,
            r.step == step,
            r.first_take,
    {
        StepBy::new(self, step)
    }

    /// Creates a lending iterator that lends the first `n` elements, or fewer
    /// if the underlying iterator ends sooner.
    fn take(self, n: usize) -> (r: Take<Self>) where Self: Sized
        ensures
            r.iter == self,
            r.n == n,
    {
        Take::new(self, n)
    }

    /// Creates a lending iterator that lends the elements that a predicate
    /// takes, up to the first one that it turns down.
    fn take_while<P>(self, predicate: P) -> (r: TakeWhile<Self, P>) where
        Self: Sized,
        P: for <'a>FnMut(&Self::Item<'a>) -> bool,

        ensures
            r.iter == self,
            r.predicate == predicate,
            !r.done,
    {
        TakeWhile::new(self, predicate)
    }

    /// Creates a lending iterator which uses a closure to determine if an
    /// element should be yielded.
    fn filter<P>(self, predicate: P) -> (r: Filter<Self, P>) where
        Self: Sized,
        P: for <'a>FnMut(&Self::Item<'a>) -> bool,

        ensures
            r.iter == self,
            r.predicate == predicate,
    {
        Filter::new(self, predicate)
    }

    /// Creates a lending iterator that rejects elements while `predicate`
    /// returns `true`.
    fn skip_while<P>(self, predicate: P) -> (r: SkipWhile<Self, P>) where
        Self: Sized,
        P: for <'a>FnMut(&Self::Item<'a>) -> bool,

        ensures
            r.iter == self,
            r.predicate == predicate,
            !r.flag,
    {
        SkipWhile::new(self, predicate)
    }

    /// Takes a closure and creates a lending iterator which calls that
    /// closure on each element. What the closure returns may borrow from the
    /// element.
    fn map<F>(self, f: F) -> (r: Mapped<Self, F>) where
        Self: Sized,
        F: for <'a>SingleArgFnMut<Self::Item<'a>>,

        ensures
            r.iter == self,
            r.f == f,
    {
        Mapped::new(self, f)
    }

    /// Creates a lending iterator that both filters and maps.
    fn filter_map<F, O>(self, f: F) -> (r: FilterMap<Self, F>) where
        Self: Sized,
        F: for <'a>FnMut(Self::Item<'a>) -> O,
        O: OptionTrait,

        ensures
            r.iter == self,
            r.f == f,
    {
        FilterMap::new(self, f)
    }

    /// Creates a lending iterator which clones all of its elements.
    fn cloned<T>(self) -> (r: Cloned<Self>) where
        Self: Sized,
        for <'a>Self::Item<'a>: Deref<Target = T>,
        T: Clone,

        ensures
            r.iter == self,
    {
        Cloned::new(self)
    }

    /// Borrows the lending iterator, so that it can be advanced and still be
    /// used afterwards.
    fn by_ref(&mut self) -> (r: &mut Self) where Self: Sized
        ensures
            *r == *old(self),
            *final(self) == *final(r),
    {
        self
    }

    /// Tests if every element of the iterator matches a predicate. The
    /// iterator is advanced past the first element that does not, or to its
    /// end.
    fn all<P>(&mut self, predicate: P) -> (ret: bool) where P: FnMut(Self::Item<'_>) -> bool
        requires
            old(self).wf(),
            forall|x: Self::Item<'_>|
                (old(self).lawful() ==> old(self).remaining().contains(x)) && old(self).lends(x)
                    ==> #[trigger] call_requires(predicate, (x,)),
        ensures
            !ret || old(self).lawful() ==> final(self).wf(),
            old(self).lawful() ==> final(self).lawful(),
            old(self).lawful() && ret ==> final(self).remaining().len() == 0 && forall|i: int|
                0 <= i < old(self).remaining().len() ==> call_ensures(
                    predicate,
                    (#[trigger] old(self).remaining()[i],),
                    true,
                ),
            old(self).lawful() && !ret ==> exists|k: int|
                0 <= k < old(self).remaining().len() && call_ensures(
                    predicate,
                    (#[trigger] old(self).remaining()[k],),
                    false,
                ) && final(self).remaining() == old(self).remaining().skip(k + 1) && forall|i: int|
                    0 <= i < k ==> call_ensures(
                        predicate,
                        (#[trigger] old(self).remaining()[i],),
                        true,
                    ),
        default_ensures
            exists|ms: Seq<&mut Self>, rs: Seq<Option<Self::Item<'_>>>|
                #![trigger ms.len(), rs.len()]
                ms.len() == rs.len()
                && (ms.len() > 0 ==> &*ms[0] == &*old(self) && &*final(ms[ms.len() - 1])
                    == &*final(self))
                && (ms.len() == 0 ==> &*final(self) == &*old(self))
                && (forall|i: int| 0 <= i < ms.len() - 1 ==> &*#[trigger] ms[i + 1]
                    == &*final(ms[i]))
                && (forall|i: int|
                    0 <= i < ms.len() ==> call_ensures(Self::next, (#[trigger] ms[i],), rs[i]))
                && lends_on(rs) && (forall|i: int|
                    0 <= i < rs.len() - 1
                        ==> call_ensures(predicate, ((#[trigger] rs[i])->0,), true))
                        && match rs.last() {
                    Some(x) => !ret && call_ensures(predicate, (x,), false),
                    None => ret,
                },
    {
        let mut p = predicate;
        let ghost mut passed: int = 0;
        proof {
            let ms = Seq::<&mut Self>::empty();
            let rs = Seq::<Option<Self::Item<'_>>>::empty();
            assert(ms.len() == 0 && rs.len() == 0);
        }
        loop
            invariant
                p == predicate,
                self.wf(),
                forall|x: Self::Item<'_>|
                    (old(self).lawful() ==> old(self).remaining().contains(x)) && old(self).lends(x)
                        ==> #[trigger] call_requires(predicate, (x,)),
                old(self).lawful() ==> self.lawful() && 0 <= passed <= old(self).remaining().len()
                    && self.remaining() == old(self).remaining().skip(passed),
                old(self).lawful() ==> forall|i: int|
                    0 <= i < passed ==> call_ensures(
                        predicate,
                        (#[trigger] old(self).remaining()[i],),
                        true,
                    ),
                0 <= passed,
                exists|ms: Seq<&mut Self>, rs: Seq<Option<Self::Item<'_>>>|
                    #![trigger ms.len(), rs.len()]
                    ms.len() == passed && rs.len() == passed
                    && (passed > 0 ==> &*ms[0] == &*old(self) && &*final(ms[passed - 1]) == &*self)
                    && (passed == 0 ==> &*self == &*old(self))
                    && (forall|i: int| 0 <= i < passed - 1 ==> &*#[trigger] ms[i + 1]
                        == &*final(ms[i]))
                    && (forall|i: int|
                        0 <= i < passed ==> call_ensures(Self::next, (#[trigger] ms[i],), rs[i]))
                    && (forall|i: int| 0 <= i < passed ==> (#[trigger] rs[i]) is Some)
                    && (forall|i: int| 0 <= i < passed
                        ==> call_ensures(predicate, ((#[trigger] rs[i])->0,), true)),
                forall|x: Self::Item<'_>| #[trigger] self.lends(x) ==> old(self).lends(x),
            decreases self.bound(),
        {
            proof {
                let before = self.remaining();
                if old(self).lawful() && before.len() > 0 {
                    lemma_skip_head(old(self).remaining(), passed);
                }
            }
            let ghost pre = &*self;
            let verdict = match self.next() {
                Some(item) => Some(p(item)),
                None => None,
            };
            proof {
                let (sa, rg) = choose|m: &mut Self, rg: Option<Self::Item<'_>>|
                    &*m == pre && &*final(m) == &*self
                        && #[trigger] call_ensures(Self::next, (m,), rg)
                        && match rg {
                        Some(x) => verdict matches Some(v) && call_ensures(predicate, (x,), v),
                        None => verdict is None,
                    };
                let (ms, rs) = choose|ms: Seq<&mut Self>, rs: Seq<Option<Self::Item<'_>>>|
                    #![trigger ms.len(), rs.len()]
                    ms.len() == passed && rs.len() == passed
                    && (passed > 0 ==> &*ms[0] == &*old(self) && &*final(ms[passed - 1]) == pre)
                    && (passed == 0 ==> pre == &*old(self))
                    && (forall|i: int| 0 <= i < passed - 1 ==> &*#[trigger] ms[i + 1]
                        == &*final(ms[i]))
                    && (forall|i: int|
                        0 <= i < passed ==> call_ensures(Self::next, (#[trigger] ms[i],), rs[i]))
                    && (forall|i: int| 0 <= i < passed ==> (#[trigger] rs[i]) is Some)
                    && (forall|i: int| 0 <= i < passed
                        ==> call_ensures(predicate, ((#[trigger] rs[i])->0,), true));
                lemma_trace_push(
                    ms,
                    rs,
                    sa,
                    rg,
                    &*old(self),
                    &*self,
                    |m: &mut Self, r: Option<Self::Item<'_>>| call_ensures(Self::next, (m,), r),
                );
                lemma_lent_push(rs, rg);
                assert(ms.push(sa).len() == passed + 1 && rs.push(rg).len() == passed + 1);
                assert forall|i: int| 0 <= i < passed implies call_ensures(
                    predicate,
                    ((#[trigger] rs.push(rg)[i])->0,),
                    true,
                ) by {
                    assert(rs.push(rg)[i] == rs[i]);
                }
            }
            match verdict {
                Some(true) => {
                    proof {
                        passed = passed + 1;
                    }
                },
                Some(false) => {
                    return false;
                },
                None => {
                    return true;
                },
            }
        }
    }

    /// Tests if any element of the iterator matches a predicate. The
    /// iterator is advanced past the first element that does, or to its end.
    fn any<P>(&mut self, predicate: P) -> (ret: bool) where P: FnMut(Self::Item<'_>) -> bool
        requires
            old(self).wf(),
            forall|x: Self::Item<'_>|
                (old(self).lawful() ==> old(self).remaining().contains(x)) && old(self).lends(x)
                    ==> #[trigger] call_requires(predicate, (x,)),
        ensures
            ret || old(self).lawful() ==> final(self).wf(),
            old(self).lawful() ==> final(self).lawful(),
            old(self).lawful() && !ret ==> final(self).remaining().len() == 0 && forall|i: int|
                0 <= i < old(self).remaining().len() ==> call_ensures(
                    predicate,
                    (#[trigger] old(self).remaining()[i],),
                    false,
                ),
            old(self).lawful() && ret ==> exists|k: int|
                0 <= k < old(self).remaining().len() && call_ensures(
                    predicate,
                    (#[trigger] old(self).remaining()[k],),
                    true,
                ) && final(self).remaining() == old(self).remaining().skip(k + 1) && forall|i: int|
                    0 <= i < k ==> call_ensures(
                        predicate,
                        (#[trigger] old(self).remaining()[i],),
                        false,
                    ),
        default_ensures
            exists|ms: Seq<&mut Self>, rs: Seq<Option<Self::Item<'_>>>|
                #![trigger ms.len(), rs.len()]
                ms.len() == rs.len()
                && (ms.len() > 0 ==> &*ms[0] == &*old(self) && &*final(ms[ms.len() - 1])
                    == &*final(self))
                && (ms.len() == 0 ==> &*final(self) == &*old(self))
                && (forall|i: int| 0 <= i < ms.len() - 1 ==> &*#[trigger] ms[i + 1]
                    == &*final(ms[i]))
                && (forall|i: int|
                    0 <= i < ms.len() ==> call_ensures(Self::next, (#[trigger] ms[i],), rs[i]))
                && lends_on(rs) && (forall|i: int|
                    0 <= i < rs.len() - 1
                        ==> call_ensures(predicate, ((#[trigger] rs[i])->0,), false))
                        && match rs.last() {
                    Some(x) => ret && call_ensures(predicate, (x,), true),
                    None => !ret,
                },
    {
        let mut p = predicate;
        let ghost mut passed: int = 0;
        proof {
            let ms = Seq::<&mut Self>::empty();
            let rs = Seq::<Option<Self::Item<'_>>>::empty();
            assert(ms.len() == 0 && rs.len() == 0);
        }
        loop
            invariant
                p == predicate,
                self.wf(),
                forall|x: Self::Item<'_>|
                    (old(self).lawful() ==> old(self).remaining().contains(x)) && old(self).lends(x)
                        ==> #[trigger] call_requires(predicate, (x,)),
                old(self).lawful() ==> self.lawful() && 0 <= passed <= old(self).remaining().len()
                    && self.remaining() == old(self).remaining().skip(passed),
                old(self).lawful() ==> forall|i: int|
                    0 <= i < passed ==> call_ensures(
                        predicate,
                        (#[trigger] old(self).remaining()[i],),
                        false,
                    ),
                0 <= passed,
                exists|ms: Seq<&mut Self>, rs: Seq<Option<Self::Item<'_>>>|
                    #![trigger ms.len(), rs.len()]
                    ms.len() == passed && rs.len() == passed
                    && (passed > 0 ==> &*ms[0] == &*old(self) && &*final(ms[passed - 1]) == &*self)
                    && (passed == 0 ==> &*self == &*old(self))
                    && (forall|i: int| 0 <= i < passed - 1 ==> &*#[trigger] ms[i + 1]
                        == &*final(ms[i]))
                    && (forall|i: int|
                        0 <= i < passed ==> call_ensures(Self::next, (#[trigger] ms[i],), rs[i]))
                    && (forall|i: int| 0 <= i < passed ==> (#[trigger] rs[i]) is Some)
                    && (forall|i: int| 0 <= i < passed
                        ==> call_ensures(predicate, ((#[trigger] rs[i])->0,), false)),
                forall|x: Self::Item<'_>| #[trigger] self.lends(x) ==> old(self).lends(x),
            decreases self.bound(),
        {
            proof {
                let before = self.remaining();
                if old(self).lawful() && before.len() > 0 {
                    lemma_skip_head(old(self).remaining(), passed);
                }
            }
            let ghost pre = &*self;
            let verdict = match self.next() {
                Some(item) => Some(p(item)),
                None => None,
            };
            proof {
                let (sa, rg) = choose|m: &mut Self, rg: Option<Self::Item<'_>>|
                    &*m == pre && &*final(m) == &*self
                        && #[trigger] call_ensures(Self::next, (m,), rg)
                        && match rg {
                        Some(x) => verdict matches Some(v) && call_ensures(predicate, (x,), v),
                        None => verdict is None,
                    };
                let (ms, rs) = choose|ms: Seq<&mut Self>, rs: Seq<Option<Self::Item<'_>>>|
                    #![trigger ms.len(), rs.len()]
                    ms.len() == passed && rs.len() == passed
                    && (passed > 0 ==> &*ms[0] == &*old(self) && &*final(ms[passed - 1]) == pre)
                    && (passed == 0 ==> pre == &*old(self))
                    && (forall|i: int| 0 <= i < passed - 1 ==> &*#[trigger] ms[i + 1]
                        == &*final(ms[i]))
                    && (forall|i: int|
                        0 <= i < passed ==> call_ensures(Self::next, (#[trigger] ms[i],), rs[i]))
                    && (forall|i: int| 0 <= i < passed ==> (#[trigger] rs[i]) is Some)
                    && (forall|i: int| 0 <= i < passed
                        ==> call_ensures(predicate, ((#[trigger] rs[i])->0,), false));
                lemma_trace_push(
                    ms,
                    rs,
                    sa,
                    rg,
                    &*old(self),
                    &*self,
                    |m: &mut Self, r: Option<Self::Item<'_>>| call_ensures(Self::next, (m,), r),
                );
                lemma_lent_push(rs, rg);
                assert(ms.push(sa).len() == passed + 1 && rs.push(rg).len() == passed + 1);
                assert forall|i: int| 0 <= i < passed implies call_ensures(
                    predicate,
                    ((#[trigger] rs.push(rg)[i])->0,),
                    false,
                ) by {
                    assert(rs.push(rg)[i] == rs[i]);
                }
            }
            match verdict {
                Some(true) => {
                    return true;
                },
                Some(false) => {
                    proof {
                        passed = passed + 1;
                    }
                },
                None => {
                    return false;
                },
            }
        }
    }

    /// Checks if the elements of this iterator are partitioned according to
    /// the given predicate, such that all those that return `true` precede
    /// all those that return `false`. Once the iterator has ended it is not
    /// asked again.
    fn is_partitioned<P>(self, predicate: P) -> (ret: bool) where
        Self: Sized,
        P: FnMut(Self::Item<'_>) -> bool,

        requires
            self.wf(),
            forall|x: Self::Item<'_>|
                (self.lawful() ==> self.remaining().contains(x)) && self.lends(x)
                    ==> #[trigger] call_requires(
                    predicate,
                    (x,),
                ),
        ensures
            self.lawful() && ret ==> exists|k: int|
                #[trigger] partitioned_at(self.remaining(), k, predicate),
            self.lawful() && !ret ==> exists|k: int, j: int|
                #[trigger] misplaced_at(self.remaining(), k, j, predicate),
        default_ensures
            exists|ms: Seq<&mut Self>, rs: Seq<Option<Self::Item<'_>>>|
                #![trigger ms.len(), rs.len()]
                ms.len() == rs.len()
                && (ms.len() > 0 ==> &*ms[0] == &self)
                && (forall|i: int| 0 <= i < ms.len() - 1 ==> &*#[trigger] ms[i + 1]
                    == &*final(ms[i]))
                && (forall|i: int|
                    0 <= i < ms.len() ==> call_ensures(Self::next, (#[trigger] ms[i],), rs[i]))
                && lends_on(rs) && if ret {
                    rs.last() is None
                        && exists|k: int| #[trigger] partitioned_at(lent(rs), k, predicate)
                } else {
                    rs.last() is Some && exists|k: int|
                        #[trigger] misplaced_at(lent(rs), k, lent(rs).len() - 1, predicate)
                },
    {
        let mut this = self;
        let mut p = predicate;
        let ghost mut first: int = 0;
        let ghost mut cnt: int = 0;
        proof {
            let ms = Seq::<&mut Self>::empty();
            let rs = Seq::<Option<Self::Item<'_>>>::empty();
            assert(ms.len() == 0 && rs.len() == 0);
        }
        let mut ended = false;
        let mut turned = false;
        while !ended && !turned
            invariant
                p == predicate,
                !ended ==> this.wf(),
                !(ended && turned),
                forall|x: Self::Item<'_>|
                    (self.lawful() ==> self.remaining().contains(x)) && self.lends(x)
                        ==> #[trigger] call_requires(
                        predicate,
                        (x,),
                    ),
                self.lawful() ==> this.lawful() && 0 <= first <= self.remaining().len(),
                self.lawful() && !turned ==> this.remaining() == self.remaining().skip(first),
                self.lawful() && turned ==> first < self.remaining().len() && call_ensures(
                    predicate,
                    (self.remaining()[first],),
                    false,
                ) && this.remaining() == self.remaining().skip(first + 1),
                self.lawful() && ended ==> first == self.remaining().len(),
                self.lawful() ==> forall|i: int|
                    0 <= i < first
                        ==> call_ensures(predicate, (#[trigger] self.remaining()[i],), true),
                !ended ==> forall|x: Self::Item<'_>| #[trigger] this.lends(x) ==> self.lends(x),
                0 <= first,
                cnt == first + if ended || turned {
                    1int
                } else {
                    0int
                },
                exists|ms: Seq<&mut Self>, rs: Seq<Option<Self::Item<'_>>>|
                    #![trigger ms.len(), rs.len()]
                    ms.len() == cnt && rs.len() == cnt
                    && (cnt > 0 ==> &*ms[0] == &self && &*final(ms[cnt - 1]) == &this)
                    && (cnt == 0 ==> &this == &self)
                    && (forall|i: int| 0 <= i < cnt - 1 ==> &*#[trigger] ms[i + 1]
                        == &*final(ms[i]))
                    && (forall|i: int|
                        0 <= i < cnt ==> call_ensures(Self::next, (#[trigger] ms[i],), rs[i]))
                    && (forall|i: int| 0 <= i < first ==> (#[trigger] rs[i]) is Some
                        && call_ensures(
                        predicate,
                        (rs[i]->0,),
                        true,
                    ))
                    && (turned ==> rs[first] is Some
                        && call_ensures(predicate, (rs[first]->0,), false))
                    && (ended ==> rs[first] is None),
            decreases if ended || turned { 0int } else { 1int }, this.bound(),
        {
            proof {
                let before = this.remaining();
                if self.lawful() && before.len() > 0 {
                    lemma_skip_head(self.remaining(), first);
                }
            }
            let ghost t0 = this;
            let verdict = match this.next() {
                Some(item) => Some(p(item)),
                None => None,
            };
            proof {
                let (sa, rg) = choose|m: &mut Self, rg: Option<Self::Item<'_>>|
                    &*m == &t0 && &*final(m) == &this
                        && #[trigger] call_ensures(Self::next, (m,), rg)
                        && match rg {
                        Some(x) => verdict matches Some(v) && call_ensures(predicate, (x,), v),
                        None => verdict is None,
                    };
                let (ms, rs) = choose|ms: Seq<&mut Self>, rs: Seq<Option<Self::Item<'_>>>|
                    #![trigger ms.len(), rs.len()]
                    ms.len() == cnt && rs.len() == cnt
                    && (cnt > 0 ==> &*ms[0] == &self && &*final(ms[cnt - 1]) == &t0)
                    && (cnt == 0 ==> &t0 == &self)
                    && (forall|i: int| 0 <= i < cnt - 1 ==> &*#[trigger] ms[i + 1]
                        == &*final(ms[i]))
                    && (forall|i: int|
                        0 <= i < cnt ==> call_ensures(Self::next, (#[trigger] ms[i],), rs[i]))
                    && (forall|i: int| 0 <= i < first ==> (#[trigger] rs[i]) is Some
                        && call_ensures(
                        predicate,
                        (rs[i]->0,),
                        true,
                    ))
                    && (turned ==> rs[first] is Some
                        && call_ensures(predicate, (rs[first]->0,), false))
                    && (ended ==> rs[first] is None);
                lemma_trace_push(
                    ms,
                    rs,
                    sa,
                    rg,
                    &self,
                    &this,
                    |m: &mut Self, r: Option<Self::Item<'_>>| call_ensures(Self::next, (m,), r),
                );
                lemma_lent_push(rs, rg);
                assert(ms.push(sa).len() == cnt + 1 && rs.push(rg).len() == cnt + 1);
                assert forall|i: int| 0 <= i < first implies (#[trigger] rs.push(rg)[i]) is Some
                    && call_ensures(
                    predicate,
                    (rs.push(rg)[i]->0,),
                    true,
                ) by {
                    assert(rs.push(rg)[i] == rs[i]);
                }
                assert(rs.push(rg)[first] == rg);
                cnt = cnt + 1;
            }
            match verdict {
                Some(true) => {
                    proof {
                        first = first + 1;
                    }
                },
                Some(false) => {
                    turned = true;
                },
                None => {
                    ended = true;
                },
            }
        }
        if ended {
            assert(self.lawful() ==> partitioned_at(self.remaining(), first, predicate));
            proof {
                let (ms, rs) = choose|ms: Seq<&mut Self>, rs: Seq<Option<Self::Item<'_>>>|
                    #![trigger ms.len(), rs.len()]
                    ms.len() == cnt && rs.len() == cnt
                    && (cnt > 0 ==> &*ms[0] == &self && &*final(ms[cnt - 1]) == &this)
                    && (cnt == 0 ==> &this == &self)
                    && (forall|i: int| 0 <= i < cnt - 1 ==> &*#[trigger] ms[i + 1]
                        == &*final(ms[i]))
                    && (forall|i: int|
                        0 <= i < cnt ==> call_ensures(Self::next, (#[trigger] ms[i],), rs[i]))
                    && (forall|i: int| 0 <= i < first ==> (#[trigger] rs[i]) is Some
                        && call_ensures(
                        predicate,
                        (rs[i]->0,),
                        true,
                    ))
                    && (turned ==> rs[first] is Some
                        && call_ensures(predicate, (rs[first]->0,), false))
                    && (ended ==> rs[first] is None);
                assert(ms.len() == rs.len());
                assert(lends_on(rs));
                assert(lent(rs).len() == first);
                assert(partitioned_at(lent(rs), first, predicate));
            }
            return true;
        }
        let ghost mut at: int = first + 1;
        proof {
            let (ms, rs) = choose|ms: Seq<&mut Self>, rs: Seq<Option<Self::Item<'_>>>|
                #![trigger ms.len(), rs.len()]
                ms.len() == cnt && rs.len() == cnt
                    && (cnt > 0 ==> &*ms[0] == &self && &*final(ms[cnt - 1]) == &this)
                    && (cnt == 0 ==> &this == &self)
                    && (forall|i: int| 0 <= i < cnt - 1 ==> &*#[trigger] ms[i + 1]
                        == &*final(ms[i]))
                    && (forall|i: int|
                        0 <= i < cnt ==> call_ensures(Self::next, (#[trigger] ms[i],), rs[i]))
                    && (forall|i: int| 0 <= i < first ==> (#[trigger] rs[i]) is Some
                        && call_ensures(
                        predicate,
                        (rs[i]->0,),
                        true,
                    ))
                    && (turned ==> rs[first] is Some
                        && call_ensures(predicate, (rs[first]->0,), false))
                    && (ended ==> rs[first] is None);
            assert(ms.len() == at && rs.len() == at);
        }
        loop
            invariant
                p == predicate,
                this.wf(),
                forall|x: Self::Item<'_>|
                    (self.lawful() ==> self.remaining().contains(x)) && self.lends(x)
                        ==> #[trigger] call_requires(
                        predicate,
                        (x,),
                    ),
                self.lawful() ==> this.lawful() && 0 <= first < at <= self.remaining().len()
                    && this.remaining() == self.remaining().skip(at),
                self.lawful() ==> call_ensures(predicate, (self.remaining()[first],), false),
                self.lawful() ==> forall|i: int|
                    0 <= i < first
                        ==> call_ensures(predicate, (#[trigger] self.remaining()[i],), true),
                self.lawful() ==> forall|i: int|
                    first < i < at
                        ==> call_ensures(predicate, (#[trigger] self.remaining()[i],), false),
                forall|x: Self::Item<'_>| #[trigger] this.lends(x) ==> self.lends(x),
                0 <= first < at,
                exists|ms: Seq<&mut Self>, rs: Seq<Option<Self::Item<'_>>>|
                    #![trigger ms.len(), rs.len()]
                    ms.len() == at && rs.len() == at
                    && (at > 0 ==> &*ms[0] == &self && &*final(ms[at - 1]) == &this)
                    && (at == 0 ==> &this == &self)
                    && (forall|i: int| 0 <= i < at - 1 ==> &*#[trigger] ms[i + 1] == &*final(ms[i]))
                    && (forall|i: int|
                        0 <= i < at ==> call_ensures(Self::next, (#[trigger] ms[i],), rs[i]))
                    && (forall|i: int| 0 <= i < at ==> (#[trigger] rs[i]) is Some)
                    && (forall|i: int| 0 <= i < first
                        ==> call_ensures(predicate, ((#[trigger] rs[i])->0,), true))
                    && (forall|i: int|
                        first <= i < at
                            ==> call_ensures(predicate, ((#[trigger] rs[i])->0,), false)),
            decreases this.bound(),
        {
            proof {
                let before = this.remaining();
                if self.lawful() && before.len() > 0 {
                    lemma_skip_head(self.remaining(), at);
                }
            }
            let ghost t0 = this;
            let verdict = match this.next() {
                Some(item) => Some(p(item)),
                None => None,
            };
            proof {
                let (sa, rg) = choose|m: &mut Self, rg: Option<Self::Item<'_>>|
                    &*m == &t0 && &*final(m) == &this
                        && #[trigger] call_ensures(Self::next, (m,), rg)
                        && match rg {
                        Some(x) => verdict matches Some(v) && call_ensures(predicate, (x,), v),
                        None => verdict is None,
                    };
                let (ms, rs) = choose|ms: Seq<&mut Self>, rs: Seq<Option<Self::Item<'_>>>|
                    #![trigger ms.len(), rs.len()]
                    ms.len() == at && rs.len() == at
                    && (at > 0 ==> &*ms[0] == &self && &*final(ms[at - 1]) == &t0)
                    && (at == 0 ==> &t0 == &self)
                    && (forall|i: int| 0 <= i < at - 1 ==> &*#[trigger] ms[i + 1] == &*final(ms[i]))
                    && (forall|i: int|
                        0 <= i < at ==> call_ensures(Self::next, (#[trigger] ms[i],), rs[i]))
                    && (forall|i: int| 0 <= i < at ==> (#[trigger] rs[i]) is Some)
                    && (forall|i: int| 0 <= i < first
                        ==> call_ensures(predicate, ((#[trigger] rs[i])->0,), true))
                    && (forall|i: int|
                        first <= i < at
                            ==> call_ensures(predicate, ((#[trigger] rs[i])->0,), false));
                lemma_trace_push(
                    ms,
                    rs,
                    sa,
                    rg,
                    &self,
                    &this,
                    |m: &mut Self, r: Option<Self::Item<'_>>| call_ensures(Self::next, (m,), r),
                );
                lemma_lent_push(rs, rg);
                assert(ms.push(sa).len() == at + 1 && rs.push(rg).len() == at + 1);
                let rs2 = rs.push(rg);
                assert forall|i: int| 0 <= i < at implies rs2[i] == rs[i] by {}
                assert forall|i: int| 0 <= i < first implies call_ensures(
                    predicate,
                    ((#[trigger] rs2[i])->0,),
                    true,
                ) by {
                    assert(rs2[i] == rs[i]);
                }
                assert forall|i: int| first <= i < at implies call_ensures(
                    predicate,
                    ((#[trigger] rs2[i])->0,),
                    false,
                ) by {
                    assert(rs2[i] == rs[i]);
                }
                if verdict == Some(true) {
                    assert forall|i: int| 0 <= i < first implies call_ensures(
                        predicate,
                        (#[trigger] lent(rs2)[i],),
                        true,
                    ) by {
                        assert(lent(rs2)[i] == rs2[i]->0);
                    }
                    assert forall|i: int| first <= i < at implies call_ensures(
                        predicate,
                        (#[trigger] lent(rs2)[i],),
                        false,
                    ) by {
                        assert(lent(rs2)[i] == rs2[i]->0);
                    }
                    assert(lent(rs2)[at] == rg->0);
                    assert(misplaced_at(lent(rs2), first, at, predicate));
                }
                if verdict is None {
                    assert forall|i: int| 0 <= i < first implies call_ensures(
                        predicate,
                        (#[trigger] lent(rs2)[i],),
                        true,
                    ) by {
                        assert(lent(rs2)[i] == rs2[i]->0);
                    }
                    assert forall|i: int| first <= i < at implies call_ensures(
                        predicate,
                        (#[trigger] lent(rs2)[i],),
                        false,
                    ) by {
                        assert(lent(rs2)[i] == rs2[i]->0);
                    }
                    assert(partitioned_at(lent(rs2), first, predicate));
                }
                if verdict == Some(false) {
                    assert(rs2[at] == rg);
                }
            }
            match verdict {
                Some(true) => {
                    assert(self.lawful() ==> misplaced_at(self.remaining(), first, at, predicate));
                    return false;
                },
                Some(false) => {
                    proof {
                        at = at + 1;
                    }
                },
                None => {
                    assert(self.lawful()
                        ==> partitioned_at(self.remaining(), first, predicate)) by {
                        if self.lawful() {
                            assert forall|i: int|
                                first <= i < self.remaining().len() implies call_ensures(
                                predicate,
                                (#[trigger] self.remaining()[i],),
                                false,
                            ) by {
                                if i > first {
                                }
                            }
                        }
                    }
                    return true;
                },
            }
        }
    }

    /// Searches for an element in an iterator, returning its index. The
    /// iterator is advanced past that element, or to its end. An index that
    /// does not fit is given as the largest number that does.
    fn position<P>(&mut self, predicate: P) -> (ret: Option<usize>) where
        P: FnMut(Self::Item<'_>) -> bool,

        requires
            old(self).wf(),
            forall|x: Self::Item<'_>|
                (old(self).lawful() ==> old(self).remaining().contains(x)) && old(self).lends(x)
                    ==> #[trigger] call_requires(predicate, (x,)),
        ensures
            ret is Some || old(self).lawful() ==> final(self).wf(),
            old(self).lawful() ==> final(self).lawful(),
            old(self).lawful() && ret is None ==> final(self).remaining().len() == 0
                && forall|i: int|
                0 <= i < old(self).remaining().len() ==> call_ensures(
                    predicate,
                    (#[trigger] old(self).remaining()[i],),
                    false,
                ),
            old(self).lawful() && old(self).remaining().len() <= usize::MAX ==> (ret matches Some(
                k,
            ) ==> k < old(self).remaining().len()
                && call_ensures(predicate, (old(self).remaining()[k as int],), true)
                    && final(self).remaining() == old(self).remaining().skip(k + 1)
                    && forall|i: int|
                0 <= i < k ==> call_ensures(
                    predicate,
                    (#[trigger] old(self).remaining()[i],),
                    false,
                )),
        default_ensures
            exists|ms: Seq<&mut Self>, rs: Seq<Option<Self::Item<'_>>>|
                #![trigger ms.len(), rs.len()]
                ms.len() == rs.len()
                && (ms.len() > 0 ==> &*ms[0] == &*old(self) && &*final(ms[ms.len() - 1])
                    == &*final(self))
                && (ms.len() == 0 ==> &*final(self) == &*old(self))
                && (forall|i: int| 0 <= i < ms.len() - 1 ==> &*#[trigger] ms[i + 1]
                    == &*final(ms[i]))
                && (forall|i: int|
                    0 <= i < ms.len() ==> call_ensures(Self::next, (#[trigger] ms[i],), rs[i]))
                && lends_on(rs) && (forall|i: int|
                    0 <= i < rs.len() - 1
                        ==> call_ensures(predicate, ((#[trigger] rs[i])->0,), false))
                        && match rs.last() {
                    Some(x) => call_ensures(predicate, (x,), true) && ret == Some(
                        if lent(rs).len() - 1 <= usize::MAX {
                            (lent(rs).len() - 1) as usize
                        } else {
                            usize::MAX
                        },
                    ),
                    None => ret is None,
                },
    {
        let mut p = predicate;
        let mut i: usize = 0;
        let ghost mut passed: int = 0;
        proof {
            let ms = Seq::<&mut Self>::empty();
            let rs = Seq::<Option<Self::Item<'_>>>::empty();
            assert(ms.len() == 0 && rs.len() == 0);
        }
        loop
            invariant
                p == predicate,
                self.wf(),
                i == if passed <= usize::MAX {
                    passed
                } else {
                    usize::MAX as int
                },
                forall|x: Self::Item<'_>|
                    (old(self).lawful() ==> old(self).remaining().contains(x)) && old(self).lends(x)
                        ==> #[trigger] call_requires(predicate, (x,)),
                old(self).lawful() ==> self.lawful() && passed <= old(self).remaining().len()
                    && self.remaining() == old(self).remaining().skip(passed),
                old(self).lawful() ==> forall|j: int|
                    0 <= j < passed ==> call_ensures(
                        predicate,
                        (#[trigger] old(self).remaining()[j],),
                        false,
                    ),
                0 <= passed,
                exists|ms: Seq<&mut Self>, rs: Seq<Option<Self::Item<'_>>>|
                    #![trigger ms.len(), rs.len()]
                    ms.len() == passed && rs.len() == passed
                    && (passed > 0 ==> &*ms[0] == &*old(self) && &*final(ms[passed - 1]) == &*self)
                    && (passed == 0 ==> &*self == &*old(self))
                    && (forall|i: int| 0 <= i < passed - 1 ==> &*#[trigger] ms[i + 1]
                        == &*final(ms[i]))
                    && (forall|i: int|
                        0 <= i < passed ==> call_ensures(Self::next, (#[trigger] ms[i],), rs[i]))
                    && (forall|i: int| 0 <= i < passed ==> (#[trigger] rs[i]) is Some)
                    && (forall|i: int| 0 <= i < passed
                        ==> call_ensures(predicate, ((#[trigger] rs[i])->0,), false)),
                forall|x: Self::Item<'_>| #[trigger] self.lends(x) ==> old(self).lends(x),
            decreases self.bound(),
        {
            proof {
                let before = self.remaining();
                if old(self).lawful() && before.len() > 0 {
                    lemma_skip_head(old(self).remaining(), passed);
                }
            }
            let ghost pre = &*self;
            let verdict = match self.next() {
                Some(item) => Some(p(item)),
                None => None,
            };
            proof {
                let (sa, rg) = choose|m: &mut Self, rg: Option<Self::Item<'_>>|
                    &*m == pre && &*final(m) == &*self
                        && #[trigger] call_ensures(Self::next, (m,), rg)
                        && match rg {
                        Some(x) => verdict matches Some(v) && call_ensures(predicate, (x,), v),
                        None => verdict is None,
                    };
                let (ms, rs) = choose|ms: Seq<&mut Self>, rs: Seq<Option<Self::Item<'_>>>|
                    #![trigger ms.len(), rs.len()]
                    ms.len() == passed && rs.len() == passed
                    && (passed > 0 ==> &*ms[0] == &*old(self) && &*final(ms[passed - 1]) == pre)
                    && (passed == 0 ==> pre == &*old(self))
                    && (forall|i: int| 0 <= i < passed - 1 ==> &*#[trigger] ms[i + 1]
                        == &*final(ms[i]))
                    && (forall|i: int|
                        0 <= i < passed ==> call_ensures(Self::next, (#[trigger] ms[i],), rs[i]))
                    && (forall|i: int| 0 <= i < passed ==> (#[trigger] rs[i]) is Some)
                    && (forall|i: int| 0 <= i < passed
                        ==> call_ensures(predicate, ((#[trigger] rs[i])->0,), false));
                lemma_trace_push(
                    ms,
                    rs,
                    sa,
                    rg,
                    &*old(self),
                    &*self,
                    |m: &mut Self, r: Option<Self::Item<'_>>| call_ensures(Self::next, (m,), r),
                );
                lemma_lent_push(rs, rg);
                assert(ms.push(sa).len() == passed + 1 && rs.push(rg).len() == passed + 1);
                assert forall|i: int| 0 <= i < passed implies call_ensures(
                    predicate,
                    ((#[trigger] rs.push(rg)[i])->0,),
                    false,
                ) by {
                    assert(rs.push(rg)[i] == rs[i]);
                }
            }
            match verdict {
                Some(true) => {
                    return Some(i);
                },
                Some(false) => {
                    if i < usize::MAX {
                        i += 1;
                    }
                    proof {
                        passed = passed + 1;
                    }
                },
                None => {
                    return None;
                },
            }
        }
    }

    /// Applies function to the elements of iterator and returns the first
    /// non-none result. The iterator is advanced past the element that gave
    /// it, or to its end.
    fn find_map<B, F>(&mut self, f: F) -> (ret: Option<B>) where
        F: FnMut(Self::Item<'_>) -> Option<B>,

        requires
            old(self).wf(),
            forall|x: Self::Item<'_>|
                (old(self).lawful() ==> old(self).remaining().contains(x)) && old(self).lends(x)
                    ==> #[trigger] call_requires(f, (x,)),
        ensures
            ret is Some || old(self).lawful() ==> final(self).wf(),
            old(self).lawful() ==> final(self).lawful(),
            old(self).lawful() && ret is None ==> final(self).remaining().len() == 0
                && forall|i: int|
                0 <= i < old(self).remaining().len() ==> call_ensures(
                    f,
                    (#[trigger] old(self).remaining()[i],),
                    None::<B>,
                ),
            old(self).lawful() && ret is Some ==> exists|k: int|
                0 <= k < old(self).remaining().len() && call_ensures(
                    f,
                    (#[trigger] old(self).remaining()[k],),
                    ret,
                ) && final(self).remaining() == old(self).remaining().skip(k + 1) && forall|i: int|
                    0 <= i < k ==> call_ensures(
                        f,
                        (#[trigger] old(self).remaining()[i],),
                        None::<B>,
                    ),
        default_ensures
            exists|ms: Seq<&mut Self>, rs: Seq<Option<Self::Item<'_>>>|
                #![trigger ms.len(), rs.len()]
                ms.len() == rs.len()
                && (ms.len() > 0 ==> &*ms[0] == &*old(self) && &*final(ms[ms.len() - 1])
                    == &*final(self))
                && (ms.len() == 0 ==> &*final(self) == &*old(self))
                && (forall|i: int| 0 <= i < ms.len() - 1 ==> &*#[trigger] ms[i + 1]
                    == &*final(ms[i]))
                && (forall|i: int|
                    0 <= i < ms.len() ==> call_ensures(Self::next, (#[trigger] ms[i],), rs[i]))
                && lends_on(rs) && (forall|i: int|
                    0 <= i < rs.len() - 1 ==> call_ensures(f, ((#[trigger] rs[i])->0,), None::<B>))
                        && match rs.last() {
                    Some(x) => ret is Some && call_ensures(f, (x,), ret),
                    None => ret is None,
                },
    {
        let mut g = f;
        let ghost mut passed: int = 0;
        proof {
            let ms = Seq::<&mut Self>::empty();
            let rs = Seq::<Option<Self::Item<'_>>>::empty();
            assert(ms.len() == 0 && rs.len() == 0);
        }
        loop
            invariant
                g == f,
                self.wf(),
                forall|x: Self::Item<'_>|
                    (old(self).lawful() ==> old(self).remaining().contains(x)) && old(self).lends(x)
                        ==> #[trigger] call_requires(f, (x,)),
                old(self).lawful() ==> self.lawful() && 0 <= passed <= old(self).remaining().len()
                    && self.remaining() == old(self).remaining().skip(passed),
                old(self).lawful() ==> forall|i: int|
                    0 <= i < passed ==> call_ensures(
                        f,
                        (#[trigger] old(self).remaining()[i],),
                        None::<B>,
                    ),
                0 <= passed,
                exists|ms: Seq<&mut Self>, rs: Seq<Option<Self::Item<'_>>>|
                    #![trigger ms.len(), rs.len()]
                    ms.len() == passed && rs.len() == passed
                    && (passed > 0 ==> &*ms[0] == &*old(self) && &*final(ms[passed - 1]) == &*self)
                    && (passed == 0 ==> &*self == &*old(self))
                    && (forall|i: int| 0 <= i < passed - 1 ==> &*#[trigger] ms[i + 1]
                        == &*final(ms[i]))
                    && (forall|i: int|
                        0 <= i < passed ==> call_ensures(Self::next, (#[trigger] ms[i],), rs[i]))
                    && (forall|i: int| 0 <= i < passed ==> (#[trigger] rs[i]) is Some)
                    && (forall|i: int| 0 <= i < passed
                        ==> call_ensures(f, ((#[trigger] rs[i])->0,), None::<B>)),
                forall|x: Self::Item<'_>| #[trigger] self.lends(x) ==> old(self).lends(x),
            decreases self.bound(),
        {
            proof {
                let before = self.remaining();
                if old(self).lawful() && before.len() > 0 {
                    lemma_skip_head(old(self).remaining(), passed);
                }
            }
            let ghost pre = &*self;
            let found = match self.next() {
                Some(item) => Some(g(item)),
                None => None,
            };
            proof {
                let (sa, rg) = choose|m: &mut Self, rg: Option<Self::Item<'_>>|
                    &*m == pre && &*final(m) == &*self
                        && #[trigger] call_ensures(Self::next, (m,), rg)
                        && match rg {
                        Some(x) => found matches Some(v) && call_ensures(f, (x,), v),
                        None => found is None,
                    };
                let (ms, rs) = choose|ms: Seq<&mut Self>, rs: Seq<Option<Self::Item<'_>>>|
                    #![trigger ms.len(), rs.len()]
                    ms.len() == passed && rs.len() == passed
                    && (passed > 0 ==> &*ms[0] == &*old(self) && &*final(ms[passed - 1]) == pre)
                    && (passed == 0 ==> pre == &*old(self))
                    && (forall|i: int| 0 <= i < passed - 1 ==> &*#[trigger] ms[i + 1]
                        == &*final(ms[i]))
                    && (forall|i: int|
                        0 <= i < passed ==> call_ensures(Self::next, (#[trigger] ms[i],), rs[i]))
                    && (forall|i: int| 0 <= i < passed ==> (#[trigger] rs[i]) is Some)
                    && (forall|i: int| 0 <= i < passed
                        ==> call_ensures(f, ((#[trigger] rs[i])->0,), None::<B>));
                lemma_trace_push(
                    ms,
                    rs,
                    sa,
                    rg,
                    &*old(self),
                    &*self,
                    |m: &mut Self, r: Option<Self::Item<'_>>| call_ensures(Self::next, (m,), r),
                );
                lemma_lent_push(rs, rg);
                assert(ms.push(sa).len() == passed + 1 && rs.push(rg).len() == passed + 1);
                assert forall|i: int| 0 <= i < passed implies call_ensures(
                    f,
                    ((#[trigger] rs.push(rg)[i])->0,),
                    None::<B>,
                ) by {
                    assert(rs.push(rg)[i] == rs[i]);
                }
            }
            match found {
                Some(Some(result)) => {
                    return Some(result);
                },
                Some(None) => {
                    proof {
                        passed = passed + 1;
                    }
                },
                None => {
                    return None;
                },
            }
        }
    }

    /// Takes two lending iterators and creates one over both in sequence.
    fn chain<I>(self, other: I) -> (r: Chain<Self, I>) where Self: Sized
        ensures
            r.a == self,
            r.b == other,
            !r.a_done,
    {
        Chain::new(self, other)
    }

    /// 'Zips up' two lending iterators into a single lending iterator of pairs.
    fn zip<I>(self, other: I) -> (r: Zip<Self, I>) where Self: Sized
        ensures
            r.a == self,
            r.b == other,
    {
        Zip::new(self, other)
    }

    /// Creates a lending iterator which gives the current iteration count as
    /// well as the next value.
    fn enumerate(self) -> (r: Enumerate<Self>) where Self: Sized
        ensures
            r.iter == self,
            r.count == 0,
    {
        Enumerate::new(self)
    }

    /// Creates a lending iterator whose next element can be looked at before
    /// it is taken. The elements must not borrow from the iterator.
    fn peekable<T>(self) -> (r: Peekable<Self, T>) where Self: Sized
        ensures
            r.iter == self,
            r.peeked is None,
    {
        Peekable { iter: self, peeked: None }
    }

    /// Creates a lending iterator that skips over the first `n` elements of self.
    fn skip(self, n: usize) -> (r: Skip<Self>) where Self: Sized
        ensures
            r.iter == self,
            r.n == n,
    {
        Skip::new(self, n)
    }
}

} // verus!
