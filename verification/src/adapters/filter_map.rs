use vstd::prelude::*;
use crate::model::{kept_images, lemma_lent_push, lemma_trace_push, lends_on, lemma_first_and_rest};
use crate::traits::functions::{FilterMapFn, OptionTrait};
use crate::traits::lending_iterator::LendingIterator;

verus! {

/// A lending iterator that uses `f` to both filter and map elements from
/// `iter`: it lends what `f` makes of an element, and passes over the
/// elements of which `f` makes nothing.
#[derive(Clone)]
pub struct FilterMap<I, F> {
    pub iter: I,
    pub f: F,
}

impl<I, F> FilterMap<I, F> {
    pub fn new(iter: I, f: F) -> (r: Self)
        ensures
            r.iter == iter,
            r.f == f,
    {
        Self { iter, f }
    }
}

impl<I, F> FilterMap<I, F> where
    I: LendingIterator + 'static,
    F: FilterMapFn<I> + 'static,
 {
    /// Whether `f` has one result only for `x`.
    pub open spec fn decides(&self, x: I::Item<'_>) -> bool {
        forall|y1: <F as FilterMapFn<I>>::Made, y2: <F as FilterMapFn<I>>::Made|
            call_ensures(self.f, (x,), y1) && call_ensures(self.f, (x,), y2) ==> y1 == y2
    }

    /// Whether `f` can make nothing of `x`.
    pub open spec fn passes(&self, x: I::Item<'_>) -> bool {
        exists|o: <F as FilterMapFn<I>>::Made| #[trigger] call_ensures(self.f, (x,), o)
            && o.option_view() is None
    }

    /// What `f` makes of `x`, as an option: its result, where it has one only.
    pub open spec fn image(&self) -> spec_fn(I::Item<'_>) -> Option<
        <<F as FilterMapFn<I>>::Made as OptionTrait>::Item,
    > {
        |x: I::Item<'_>|
            (choose|y: <F as FilterMapFn<I>>::Made| call_ensures(self.f, (x,), y)).option_view()
    }
}

impl<I, F> LendingIterator for FilterMap<I, F> where
    I: LendingIterator + 'static,
    F: FilterMapFn<I> + 'static,
 {
    type Item<'a> = <<F as FilterMapFn<I>>::Made as OptionTrait>::Item;

    /// `f` has to take every element that `iter` may lend.
    open spec fn wf(&self) -> bool {
        &&& self.iter.wf()
        &&& forall|x: I::Item<'_>|
            (self.iter.lawful() ==> self.iter.remaining().contains(x)) && self.iter.lends(x)
                ==> #[trigger] call_requires(
                self.f,
                (x,),
            )
    }

    open spec fn bound(&self) -> nat {
        self.iter.bound()
    }

    /// `f` must have one result for each element to come.
    open spec fn lawful(&self) -> bool {
        &&& self.iter.lawful()
        &&& forall|i: int|
            0 <= i < self.iter.remaining().len() ==> self.decides(
                #[trigger] self.iter.remaining()[i],
            )
    }

    open spec fn remaining<'a>(&'a self) -> Seq<Self::Item<'a>> {
        kept_images(self.iter.remaining(), self.image())
    }

    /// Asks `iter` for elements until `f` makes something of one, and lends
    /// that; lends nothing if `iter` ends first.
    fn next(&mut self) -> (ret: Option<<<F as FilterMapFn<I>>::Made as OptionTrait>::Item>)
        ensures
            final(self).f == old(self).f,
            exists|ms: Seq<&mut I>, rs: Seq<Option<I::Item<'_>>>|
                #![trigger ms.len(), rs.len()]
                ms.len() == rs.len()
                && (ms.len() > 0 ==> &*ms[0] == &old(self).iter && &*final(ms[ms.len() - 1])
                    == &final(self).iter)
                && (ms.len() == 0 ==> &final(self).iter == &old(self).iter)
                && (forall|i: int| 0 <= i < ms.len() - 1 ==> &*#[trigger] ms[i + 1]
                    == &*final(ms[i]))
                && (forall|i: int|
                    0 <= i < ms.len() ==> call_ensures(I::next, (#[trigger] ms[i],), rs[i]))
                && lends_on(rs) && (forall|i: int|
                    0 <= i < rs.len() - 1 ==> old(self).passes((#[trigger] rs[i])->0))
                        && match ret {
                    Some(y) => rs.last() matches Some(x)
                        && exists|made: <F as FilterMapFn<I>>::Made|
                        #[trigger] call_ensures(old(self).f, (x,), made) && made.option_view()
                            == Some(y),
                    None => rs.last() is None,
                },
            old(self).iter.lawful() ==> (ret matches Some(y)
                ==> exists|k: int, o: <F as FilterMapFn<I>>::Made|
                0 <= k < old(self).iter.remaining().len() && #[trigger] call_ensures(
                    old(self).f,
                    (old(self).iter.remaining()[k],),
                    o,
                ) && o.option_view() == Some(y) && final(self).iter.remaining()
                    == old(self).iter.remaining().skip(k + 1) && forall|i: int|
                    0 <= i < k ==> old(self).passes(#[trigger] old(self).iter.remaining()[i])),
            old(self).iter.lawful() ==> (ret is None ==> final(self).iter.remaining().len() == 0
                && forall|i: int|
                0 <= i < old(self).iter.remaining().len() ==> old(self).passes(
                    #[trigger] old(self).iter.remaining()[i],
                )),
    {
        let ghost mut passed: int = 0;
        proof {
            let ms = Seq::<&mut I>::empty();
            let rs = Seq::<Option<I::Item<'_>>>::empty();
            assert(ms.len() == 0 && rs.len() == 0);
        }
        loop
            invariant
                self.wf(),
                self.f == old(self).f,
                self.iter.bound() <= old(self).iter.bound(),
                old(self).lawful() ==> self.lawful() && self.remaining() == old(self).remaining(),
                old(self).iter.lawful() ==> self.iter.lawful()
                    && 0 <= passed <= old(self).iter.remaining().len() && self.iter.remaining()
                    == old(self).iter.remaining().skip(passed),
                old(self).iter.lawful() ==> forall|i: int|
                    0 <= i < passed ==> self.passes(#[trigger] old(self).iter.remaining()[i]),
                0 <= passed,
                exists|ms: Seq<&mut I>, rs: Seq<Option<I::Item<'_>>>|
                    #![trigger ms.len(), rs.len()]
                    ms.len() == passed && rs.len() == passed
                    && (passed > 0 ==> &*ms[0] == &old(self).iter && &*final(ms[passed - 1])
                        == &self.iter)
                    && (passed == 0 ==> &self.iter == &old(self).iter)
                    && (forall|i: int| 0 <= i < passed - 1 ==> &*#[trigger] ms[i + 1]
                        == &*final(ms[i]))
                    && (forall|i: int|
                        0 <= i < passed ==> call_ensures(I::next, (#[trigger] ms[i],), rs[i]))
                    && (forall|i: int| 0 <= i < passed ==> (#[trigger] rs[i]) is Some)
                    && (forall|i: int| 0 <= i < passed ==> old(self).passes((#[trigger] rs[i])->0)),
            decreases self.iter.bound(),
        {
            let ghost rem = self.iter.remaining();
            proof {
                if old(self).iter.lawful() && rem.len() > 0 {
                    assert(rem[0] == old(self).iter.remaining()[passed]);
                    assert(rem.drop_first() =~= old(self).iter.remaining().skip(passed + 1));
                }
                if rem.len() > 0 {
                    lemma_first_and_rest(rem, |x: I::Item<'_>| self.decides(x));
                }
                if self.lawful() && rem.len() > 0 {
                    if self.image()(rem[0]) is Some {
                        assert(kept_images(rem, self.image()).drop_first() =~= kept_images(
                            rem.drop_first(),
                            self.image(),
                        ));
                    }
                }
            }
            let ghost s0 = self.iter;
            let r = self.iter.next();
            let ghost rg = r;
            proof {
                let sa = choose|m: &mut I|
                    &*m == &s0 && &*final(m) == &after_borrow(self).iter
                        && call_ensures(I::next, (m,), rg);
                let (ms, rs) = choose|ms: Seq<&mut I>, rs: Seq<Option<I::Item<'_>>>|
                    #![trigger ms.len(), rs.len()]
                    ms.len() == passed && rs.len() == passed
                    && (passed > 0 ==> &*ms[0] == &old(self).iter && &*final(ms[passed - 1])
                        == &s0)
                    && (passed == 0 ==> &s0 == &old(self).iter)
                    && (forall|i: int| 0 <= i < passed - 1 ==> &*#[trigger] ms[i + 1]
                        == &*final(ms[i]))
                    && (forall|i: int|
                        0 <= i < passed
                            ==> call_ensures(I::next, (#[trigger] ms[i],), rs[i]))
                    && (forall|i: int| 0 <= i < passed ==> (#[trigger] rs[i]) is Some)
                    && (forall|i: int| 0 <= i < passed
                        ==> old(self).passes((#[trigger] rs[i])->0));
                lemma_trace_push(
                    ms,
                    rs,
                    sa,
                    rg,
                    &old(self).iter,
                    &after_borrow(self).iter,
                    |m: &mut I, r: Option<I::Item<'_>>| call_ensures(I::next, (m,), r),
                );
                lemma_lent_push(rs, rg);
                assert(ms.push(sa).len() == passed + 1 && rs.push(rg).len() == passed + 1);
                assert forall|i: int| 0 <= i < passed implies old(self).passes(
                    (#[trigger] rs.push(rg)[i])->0,
                ) by {
                    assert(rs.push(rg)[i] == rs[i]);
                }
                assert(rs.push(rg)[passed] == rg);
            }
            match r {
                Some(item) => {
                    let made = (self.f)(item);
                    let ghost mg = made;
                    let output = made.into_option();
                    if output.is_some() {
                        return output;
                    }
                    proof {
                        assert(call_ensures(old(self).f, (rg->0,), mg));
                        assert(old(self).passes(rg->0));
                        passed = passed + 1;
                    }
                },
                None => {
                    return None;
                },
            }
        }
    }
}

/// What `wf`, `lawful` and `remaining` are of a `FilterMap`. The verifier does
/// not unfold them for a particular function by itself: a caller who holds
/// one brings them in here, to show `wf` before the first call of `next`.
pub proof fn lemma_filter_map_model<I, F>(it: FilterMap<I, F>) where
    I: LendingIterator + 'static,
    F: FilterMapFn<I> + 'static,

    ensures
        it.wf() == (it.iter.wf() && forall|x: I::Item<'_>|
            (it.iter.lawful() ==> it.iter.remaining().contains(x)) && it.iter.lends(x)
                ==> #[trigger] call_requires(
                it.f,
                (x,),
            )),
        it.lawful() == (it.iter.lawful() && forall|i: int|
            0 <= i < it.iter.remaining().len() ==> it.decides(#[trigger] it.iter.remaining()[i])),
        it.remaining() == kept_images(it.iter.remaining(), it.image()),
{
}

} // verus!
