use vstd::prelude::*;
use crate::model::{kept, lemma_trace_push, lemma_first_and_rest};
use crate::traits::cursor::{moved_to, moved_at, rounds, searched, went_on, CursorCall, CursorLendingIterator};
use crate::traits::lending_iterator::LendingIterator;

verus! {

/// A lending iterator that filters the elements of `iter` with `predicate`.
pub struct Filter<I, P> {
    pub iter: I,
    pub predicate: P,
}

impl<I, P> Filter<I, P> {
    pub fn new(iter: I, predicate: P) -> (r: Self)
        ensures
            r.iter == iter,
            r.predicate == predicate,
    {
        Self { iter, predicate }
    }
}

impl<I, P> Filter<I, P> where
    I: LendingIterator + 'static,
    P: for <'a>FnMut(&I::Item<'a>) -> bool + 'static,
 {
    /// Whether the predicate can return `true` for `x`.
    pub open spec fn accepts(&self) -> spec_fn(I::Item<'_>) -> bool {
        |x: I::Item<'_>| call_ensures(self.predicate, (&x,), true)
    }

    /// Whether the predicate has one answer only for `x`.
    pub open spec fn decides(&self, x: I::Item<'_>) -> bool {
        !(call_ensures(self.predicate, (&x,), true) && call_ensures(self.predicate, (&x,), false))
    }
}

impl<I, P> LendingIterator for Filter<I, P> where
    I: CursorLendingIterator + 'static,
    P: for <'a>FnMut(&I::Item<'a>) -> bool + 'static,
 {
    type Item<'a> = I::Item<'a>;

    /// The predicate has to take every element that `iter` may lend.
    open spec fn wf(&self) -> bool {
        &&& self.iter.wf()
        &&& forall|x: I::Item<'_>|
            (self.iter.lawful() ==> self.iter.remaining().contains(x)) && self.iter.lends(x)
                ==> #[trigger] call_requires(
                self.predicate,
                (&x,),
            )
    }

    open spec fn bound(&self) -> nat {
        self.iter.bound()
    }

    /// The predicate must have one answer for each element to come.
    open spec fn lawful(&self) -> bool {
        &&& self.iter.lawful()
        &&& forall|i: int|
            0 <= i < self.iter.remaining().len() ==> self.decides(
                #[trigger] self.iter.remaining()[i],
            )
    }

    open spec fn remaining<'a>(&'a self) -> Seq<Self::Item<'a>> {
        kept(self.iter.remaining(), self.accepts())
    }

    /// Moves `iter` on until it stands on an element that the predicate
    /// takes, and lends that element; lends nothing if `iter` ends first.
    fn next(&mut self) -> (ret: Option<Self::Item<'_>>)
        ensures
            final(self).predicate == old(self).predicate,
            exists|ms: Seq<&mut I>, rs: Seq<CursorCall<I::Item<'_>>>|
                #![trigger ms.len(), rs.len()]
                ms.len() == rs.len()
                && (ms.len() > 0 ==> &*ms[0] == &old(self).iter && &*final(ms[ms.len() - 1])
                    == &final(self).iter)
                && (ms.len() == 0 ==> &final(self).iter == &old(self).iter)
                && (forall|i: int| 0 <= i < ms.len() - 1 ==> &*#[trigger] ms[i + 1]
                    == &*final(ms[i]))
                && (forall|i: int|
                    0 <= i < ms.len() ==> match rs[i] {
                        CursorCall::Advance(b) => call_ensures(I::advance, (#[trigger] ms[i],), b),
                        CursorCall::Get(x) => call_ensures(I::get, (ms[i],), x),
                    })
                && searched(old(self).predicate, rs, false, ret),
            old(self).iter.lawful() ==> (ret matches Some(x) ==> exists|k: int|
                0 <= k < old(self).iter.remaining().len() && x
                    == #[trigger] old(self).iter.remaining()[k]
                    && call_ensures(old(self).predicate, (&x,), true)
                    && final(self).iter.remaining() == old(self).iter.remaining().skip(k + 1)
                    && forall|i: int|
                    0 <= i < k ==> call_ensures(
                        old(self).predicate,
                        (&#[trigger] old(self).iter.remaining()[i],),
                        false,
                    )),
            old(self).iter.lawful() ==> (ret is None ==> final(self).iter.remaining().len() == 0
                && forall|i: int|
                0 <= i < old(self).iter.remaining().len() ==> call_ensures(
                    old(self).predicate,
                    (&#[trigger] old(self).iter.remaining()[i],),
                    false,
                )),
    {
        let ghost mut passed: int = 0;
        proof {
            let ms = Seq::<&mut I>::empty();
            let rs = Seq::<CursorCall<I::Item<'_>>>::empty();
            assert(ms.len() == 0 && rs.len() == 0);
        }
        loop
            invariant
                self.wf(),
                self.predicate == old(self).predicate,
                self.iter.bound() <= old(self).iter.bound(),
                old(self).lawful() ==> self.lawful() && self.remaining() == old(self).remaining(),
                old(self).iter.lawful() ==> self.iter.lawful()
                    && 0 <= passed <= old(self).iter.remaining().len() && self.iter.remaining()
                    == old(self).iter.remaining().skip(passed),
                old(self).iter.lawful() ==> forall|i: int|
                    0 <= i < passed ==> call_ensures(
                        old(self).predicate,
                        (&#[trigger] old(self).iter.remaining()[i],),
                        false,
                    ),
                0 <= passed,
                exists|ms: Seq<&mut I>, rs: Seq<CursorCall<I::Item<'_>>>|
                    #![trigger ms.len(), rs.len()]
                    ms.len() == 2 * passed && rs.len() == 2 * passed
                    && (2 * passed > 0 ==> &*ms[0] == &old(self).iter && &*final(ms[2 * passed - 1])
                        == &self.iter)
                    && (2 * passed == 0 ==> &self.iter == &old(self).iter)
                    && (forall|i: int| 0 <= i < 2 * passed - 1 ==> &*#[trigger] ms[i + 1]
                        == &*final(ms[i]))
                    && (forall|i: int|
                        0 <= i < 2 * passed ==> match rs[i] {
                            CursorCall::Advance(b) => call_ensures(
                                I::advance,
                                (#[trigger] ms[i],),
                                b,
                            ),
                            CursorCall::Get(x) => call_ensures(I::get, (ms[i],), x),
                        })
                    && (forall|i: int|
                        0 <= i < passed ==> rs[#[trigger] moved_at(i)]
                            == CursorCall::<I::Item<'_>>::Advance(true) && went_on(
                            old(self).predicate,
                            rs[moved_at(i) + 1],
                            false,
                        )),
            decreases self.iter.bound(),
        {
            let ghost rem = self.iter.remaining();
            proof {
                if old(self).iter.lawful() && rem.len() > 0 {
                    assert(rem[0] == old(self).iter.remaining()[passed]);
                    assert(rem.drop_first() =~= old(self).iter.remaining().skip(passed + 1));
                }
                if rem.len() > 0 {
                    lemma_first_and_rest(rem, |x: I::Item<'_>| self.decides(x));
                }
                if self.lawful() && rem.len() > 0 {
                    if self.accepts()(rem[0]) {
                        assert(kept(rem, self.accepts()).drop_first() =~= kept(
                            rem.drop_first(),
                            self.accepts(),
                        ));
                    }
                }
            }
            let ghost s0 = self.iter;
            let more = self.iter.advance();
            let ghost s1 = self.iter;
            if !more {
                proof {
                    let sa = choose|m: &mut I|
                        &*m == &s0 && &*final(m) == &s1 && call_ensures(I::advance, (m,), more);
                    let (ms, rs) = choose|ms: Seq<&mut I>, rs: Seq<CursorCall<I::Item<'_>>>|
                        #![trigger ms.len(), rs.len()]
                        ms.len() == 2 * passed && rs.len() == 2 * passed
                        && (2 * passed > 0 ==> &*ms[0] == &old(self).iter
                            && &*final(ms[2 * passed - 1]) == &s0)
                        && (2 * passed == 0 ==> &s0 == &old(self).iter)
                        && (forall|i: int| 0 <= i < 2 * passed - 1 ==> &*#[trigger] ms[i + 1]
                            == &*final(ms[i]))
                        && (forall|i: int|
                            0 <= i < 2 * passed ==> match rs[i] {
                                CursorCall::Advance(b) => call_ensures(
                                    I::advance,
                                    (#[trigger] ms[i],),
                                    b,
                                ),
                                CursorCall::Get(x) => call_ensures(I::get, (ms[i],), x),
                            })
                        && (forall|i: int|
                        0 <= i < passed ==> rs[#[trigger] moved_at(i)]
                            == CursorCall::<I::Item<'_>>::Advance(true) && went_on(
                            old(self).predicate,
                            rs[moved_at(i) + 1],
                            false,
                        ));
                    lemma_trace_push(
                        ms,
                        rs,
                        sa,
                        CursorCall::<I::Item<'_>>::Advance(false),
                        &old(self).iter,
                        &s1,
                        |m: &mut I, r: CursorCall<I::Item<'_>>| match r {
                            CursorCall::Advance(b) => call_ensures(I::advance, (m,), b),
                            CursorCall::Get(x) => call_ensures(I::get, (m,), x),
                        },
                    );
                    let rs1 = rs.push(CursorCall::<I::Item<'_>>::Advance(false));
                    assert(ms.push(sa).len() == rs1.len());
                    assert(rounds(rs1) == passed);
                    assert forall|i: int| 0 <= i < passed implies rs1[#[trigger] moved_at(i)]
                        == CursorCall::<I::Item<'_>>::Advance(true)
                        && went_on(old(self).predicate, rs1[moved_at(i) + 1], false) by {
                        assert(rs1[moved_at(i)] == rs[moved_at(i)]);
                        assert(rs1[moved_at(i) + 1] == rs[moved_at(i) + 1]);
                    }
                    assert(searched(old(self).predicate, rs1, false, None));
                }
                return None;
            }
            let keep = match self.iter.get() {
                Some(item) => (self.predicate)(&item),
                None => false,
            };
            let ghost s2 = self.iter;
            if keep {
                let ret = self.iter.get();
                let ghost rg = ret;
                proof {
                    let sa = choose|m: &mut I|
                        &*m == &s0 && &*final(m) == &s1 && call_ensures(I::advance, (m,), true);
                    let (sg, lg) = choose|m: &mut I, lg: Option<I::Item<'_>>|
                        &*m == &s1 && &*final(m) == &s2 && #[trigger] call_ensures(I::get, (m,), lg)
                            && match lg {
                            Some(x) => call_ensures(old(self).predicate, (&x,), keep),
                            None => keep == false,
                        };
                    let sr = choose|m: &mut I|
                        &*m == &s2 && &*final(m) == &after_borrow(self).iter && call_ensures(
                            I::get,
                            (m,),
                            rg,
                        );
                    let (ms, rs) = choose|ms: Seq<&mut I>, rs: Seq<CursorCall<I::Item<'_>>>|
                        #![trigger ms.len(), rs.len()]
                        ms.len() == 2 * passed && rs.len() == 2 * passed
                        && (2 * passed > 0 ==> &*ms[0] == &old(self).iter
                            && &*final(ms[2 * passed - 1]) == &s0)
                        && (2 * passed == 0 ==> &s0 == &old(self).iter)
                        && (forall|i: int| 0 <= i < 2 * passed - 1 ==> &*#[trigger] ms[i + 1]
                            == &*final(ms[i]))
                        && (forall|i: int|
                            0 <= i < 2 * passed ==> match rs[i] {
                                CursorCall::Advance(b) => call_ensures(
                                    I::advance,
                                    (#[trigger] ms[i],),
                                    b,
                                ),
                                CursorCall::Get(x) => call_ensures(I::get, (ms[i],), x),
                            })
                        && (forall|i: int|
                        0 <= i < passed ==> rs[#[trigger] moved_at(i)]
                            == CursorCall::<I::Item<'_>>::Advance(true) && went_on(
                            old(self).predicate,
                            rs[moved_at(i) + 1],
                            false,
                        ));
                    lemma_trace_push(
                        ms,
                        rs,
                        sa,
                        CursorCall::<I::Item<'_>>::Advance(true),
                        &old(self).iter,
                        &s1,
                        |m: &mut I, r: CursorCall<I::Item<'_>>| match r {
                            CursorCall::Advance(b) => call_ensures(I::advance, (m,), b),
                            CursorCall::Get(x) => call_ensures(I::get, (m,), x),
                        },
                    );
                    lemma_trace_push(
                        ms.push(sa),
                        rs.push(CursorCall::<I::Item<'_>>::Advance(true)),
                        sg,
                        CursorCall::<I::Item<'_>>::Get(lg),
                        &old(self).iter,
                        &s2,
                        |m: &mut I, r: CursorCall<I::Item<'_>>| match r {
                            CursorCall::Advance(b) => call_ensures(I::advance, (m,), b),
                            CursorCall::Get(x) => call_ensures(I::get, (m,), x),
                        },
                    );
                    lemma_trace_push(
                        ms.push(sa).push(sg),
                        rs.push(
                            CursorCall::<I::Item<'_>>::Advance(true),
                        ).push(CursorCall::<I::Item<'_>>::Get(lg)),
                        sr,
                        CursorCall::<I::Item<'_>>::Get(rg),
                        &old(self).iter,
                        &after_borrow(self).iter,
                        |m: &mut I, r: CursorCall<I::Item<'_>>| match r {
                            CursorCall::Advance(b) => call_ensures(I::advance, (m,), b),
                            CursorCall::Get(x) => call_ensures(I::get, (m,), x),
                        },
                    );
                    let rs3 = rs.push(CursorCall::<I::Item<'_>>::Advance(true)).push(
                        CursorCall::<I::Item<'_>>::Get(lg),
                    ).push(CursorCall::<I::Item<'_>>::Get(rg));
                    assert(ms.push(sa).push(sg).push(sr).len() == rs3.len());
                    assert(rounds(rs3) == passed);
                    assert forall|i: int| 0 <= i < passed implies rs3[#[trigger] moved_at(i)]
                        == CursorCall::<I::Item<'_>>::Advance(true)
                        && went_on(old(self).predicate, rs3[moved_at(i) + 1], false) by {
                        assert(rs3[moved_at(i)] == rs[moved_at(i)]);
                        assert(rs3[moved_at(i) + 1] == rs[moved_at(i) + 1]);
                    }
                    assert(searched(old(self).predicate, rs3, false, rg));
                }
                return ret;
            }
            proof {
                let sa = choose|m: &mut I|
                    &*m == &s0 && &*final(m) == &s1 && call_ensures(I::advance, (m,), true);
                let (sg, lg) = choose|m: &mut I, lg: Option<I::Item<'_>>|
                    &*m == &s1 && &*final(m) == &s2 && #[trigger] call_ensures(I::get, (m,), lg)
                        && match lg {
                        Some(x) => call_ensures(old(self).predicate, (&x,), keep),
                        None => keep == false,
                    };
                let (ms, rs) = choose|ms: Seq<&mut I>, rs: Seq<CursorCall<I::Item<'_>>>|
                    #![trigger ms.len(), rs.len()]
                    ms.len() == 2 * passed && rs.len() == 2 * passed
                    && (2 * passed > 0 ==> &*ms[0] == &old(self).iter && &*final(ms[2 * passed - 1])
                        == &s0)
                    && (2 * passed == 0 ==> &s0 == &old(self).iter)
                    && (forall|i: int| 0 <= i < 2 * passed - 1 ==> &*#[trigger] ms[i + 1]
                        == &*final(ms[i]))
                    && (forall|i: int|
                        0 <= i < 2 * passed ==> match rs[i] {
                            CursorCall::Advance(b) => call_ensures(
                                I::advance,
                                (#[trigger] ms[i],),
                                b,
                            ),
                            CursorCall::Get(x) => call_ensures(I::get, (ms[i],), x),
                        })
                    && (forall|i: int|
                        0 <= i < passed ==> rs[#[trigger] moved_at(i)]
                            == CursorCall::<I::Item<'_>>::Advance(true) && went_on(
                            old(self).predicate,
                            rs[moved_at(i) + 1],
                            false,
                        ));
                lemma_trace_push(
                    ms,
                    rs,
                    sa,
                    CursorCall::<I::Item<'_>>::Advance(true),
                    &old(self).iter,
                    &s1,
                    |m: &mut I, r: CursorCall<I::Item<'_>>| match r {
                        CursorCall::Advance(b) => call_ensures(I::advance, (m,), b),
                        CursorCall::Get(x) => call_ensures(I::get, (m,), x),
                    },
                );
                lemma_trace_push(
                    ms.push(sa),
                    rs.push(CursorCall::<I::Item<'_>>::Advance(true)),
                    sg,
                    CursorCall::<I::Item<'_>>::Get(lg),
                    &old(self).iter,
                    &s2,
                    |m: &mut I, r: CursorCall<I::Item<'_>>| match r {
                        CursorCall::Advance(b) => call_ensures(I::advance, (m,), b),
                        CursorCall::Get(x) => call_ensures(I::get, (m,), x),
                    },
                );
                let rs2 = rs.push(
                    CursorCall::<I::Item<'_>>::Advance(true),
                ).push(CursorCall::<I::Item<'_>>::Get(lg));
                assert(ms.push(sa).push(sg).len() == 2 * passed + 2 && rs2.len() == 2 * passed + 2);
                assert forall|i: int| 0 <= i < passed + 1 implies rs2[#[trigger] moved_at(i)]
                    == CursorCall::<I::Item<'_>>::Advance(true)
                    && went_on(old(self).predicate, rs2[moved_at(i) + 1], false) by {
                    if i < passed {
                        assert(rs2[moved_at(i)] == rs[moved_at(i)]);
                        assert(rs2[moved_at(i) + 1] == rs[moved_at(i) + 1]);
                    }
                }
                passed = passed + 1;
            }
        }
    }
}

impl<I, P> CursorLendingIterator for Filter<I, P> where
    I: CursorLendingIterator + 'static,
    P: for <'a>FnMut(&I::Item<'a>) -> bool + 'static,
 {
    open spec fn can_get(&self) -> bool {
        self.iter.can_get()
    }

    open spec fn current<'a>(&'a self) -> Option<Self::Item<'a>> {
        self.iter.current()
    }

    /// Moves `iter` on until it stands on an element that the predicate
    /// takes, or has ended.
    fn advance(&mut self) -> (more: bool)
        ensures
            final(self).predicate == old(self).predicate,
            exists|ms: Seq<&mut I>, rs: Seq<CursorCall<I::Item<'_>>>|
                #![trigger ms.len(), rs.len()]
                ms.len() == rs.len()
                && (ms.len() > 0 ==> &*ms[0] == &old(self).iter && &*final(ms[ms.len() - 1])
                    == &final(self).iter)
                && (ms.len() == 0 ==> &final(self).iter == &old(self).iter)
                && (forall|i: int| 0 <= i < ms.len() - 1 ==> &*#[trigger] ms[i + 1]
                    == &*final(ms[i]))
                && (forall|i: int|
                    0 <= i < ms.len() ==> match rs[i] {
                        CursorCall::Advance(b) => call_ensures(I::advance, (#[trigger] ms[i],), b),
                        CursorCall::Get(x) => call_ensures(I::get, (ms[i],), x),
                    })
                && moved_to(old(self).predicate, rs, false, more),
    {
        let ghost mut passed: int = 0;
        proof {
            let ms = Seq::<&mut I>::empty();
            let rs = Seq::<CursorCall<I::Item<'_>>>::empty();
            assert(ms.len() == 0 && rs.len() == 0);
        }
        loop
            invariant
                self.wf(),
                self.predicate == old(self).predicate,
                self.iter.bound() <= old(self).iter.bound(),
                old(self).lawful() ==> self.lawful() && self.remaining() == old(self).remaining(),
                0 <= passed,
                exists|ms: Seq<&mut I>, rs: Seq<CursorCall<I::Item<'_>>>|
                    #![trigger ms.len(), rs.len()]
                    ms.len() == 2 * passed && rs.len() == 2 * passed
                    && (2 * passed > 0 ==> &*ms[0] == &old(self).iter && &*final(ms[2 * passed - 1])
                        == &self.iter)
                    && (2 * passed == 0 ==> &self.iter == &old(self).iter)
                    && (forall|i: int| 0 <= i < 2 * passed - 1 ==> &*#[trigger] ms[i + 1]
                        == &*final(ms[i]))
                    && (forall|i: int|
                        0 <= i < 2 * passed ==> match rs[i] {
                            CursorCall::Advance(b) => call_ensures(
                                I::advance,
                                (#[trigger] ms[i],),
                                b,
                            ),
                            CursorCall::Get(x) => call_ensures(I::get, (ms[i],), x),
                        })
                    && (forall|i: int|
                        0 <= i < passed ==> rs[#[trigger] moved_at(i)]
                            == CursorCall::<I::Item<'_>>::Advance(true) && went_on(
                            old(self).predicate,
                            rs[moved_at(i) + 1],
                            false,
                        )),
            decreases self.iter.bound(),
        {
            let ghost rem = self.iter.remaining();
            proof {
                if rem.len() > 0 {
                    lemma_first_and_rest(rem, |x: I::Item<'_>| self.decides(x));
                }
                if self.lawful() && rem.len() > 0 {
                    if self.accepts()(rem[0]) {
                        assert(kept(rem, self.accepts()).drop_first() =~= kept(
                            rem.drop_first(),
                            self.accepts(),
                        ));
                    }
                }
            }
            let ghost s0 = self.iter;
            let more = self.iter.advance();
            let ghost s1 = self.iter;
            if !more {
                proof {
                    let sa = choose|m: &mut I|
                        &*m == &s0 && &*final(m) == &s1 && call_ensures(I::advance, (m,), more);
                    let (ms, rs) = choose|ms: Seq<&mut I>, rs: Seq<CursorCall<I::Item<'_>>>|
                        #![trigger ms.len(), rs.len()]
                        ms.len() == 2 * passed && rs.len() == 2 * passed
                        && (2 * passed > 0 ==> &*ms[0] == &old(self).iter
                            && &*final(ms[2 * passed - 1]) == &s0)
                        && (2 * passed == 0 ==> &s0 == &old(self).iter)
                        && (forall|i: int| 0 <= i < 2 * passed - 1 ==> &*#[trigger] ms[i + 1]
                            == &*final(ms[i]))
                        && (forall|i: int|
                            0 <= i < 2 * passed ==> match rs[i] {
                                CursorCall::Advance(b) => call_ensures(
                                    I::advance,
                                    (#[trigger] ms[i],),
                                    b,
                                ),
                                CursorCall::Get(x) => call_ensures(I::get, (ms[i],), x),
                            })
                        && (forall|i: int|
                        0 <= i < passed ==> rs[#[trigger] moved_at(i)]
                            == CursorCall::<I::Item<'_>>::Advance(true) && went_on(
                            old(self).predicate,
                            rs[moved_at(i) + 1],
                            false,
                        ));
                    lemma_trace_push(
                        ms,
                        rs,
                        sa,
                        CursorCall::<I::Item<'_>>::Advance(false),
                        &old(self).iter,
                        &s1,
                        |m: &mut I, r: CursorCall<I::Item<'_>>| match r {
                            CursorCall::Advance(b) => call_ensures(I::advance, (m,), b),
                            CursorCall::Get(x) => call_ensures(I::get, (m,), x),
                        },
                    );
                    let rs1 = rs.push(CursorCall::<I::Item<'_>>::Advance(false));
                    assert(ms.push(sa).len() == rs1.len());
                    assert forall|i: int| 0 <= i < passed implies rs1[#[trigger] moved_at(i)]
                        == CursorCall::<I::Item<'_>>::Advance(true)
                        && went_on(old(self).predicate, rs1[moved_at(i) + 1], false) by {
                        assert(rs1[moved_at(i)] == rs[moved_at(i)]);
                        assert(rs1[moved_at(i) + 1] == rs[moved_at(i) + 1]);
                    }
                    assert(moved_to(old(self).predicate, rs1, false, false));
                }
                return false;
            }
            let keep = match self.iter.get() {
                Some(item) => (self.predicate)(&item),
                None => false,
            };
            let ghost s2 = self.iter;
            proof {
                let sa = choose|m: &mut I|
                    &*m == &s0 && &*final(m) == &s1 && call_ensures(I::advance, (m,), true);
                let (sg, lg) = choose|m: &mut I, lg: Option<I::Item<'_>>|
                    &*m == &s1 && &*final(m) == &s2 && #[trigger] call_ensures(I::get, (m,), lg)
                        && match lg {
                        Some(x) => call_ensures(old(self).predicate, (&x,), keep),
                        None => keep == false,
                    };
                let (ms, rs) = choose|ms: Seq<&mut I>, rs: Seq<CursorCall<I::Item<'_>>>|
                    #![trigger ms.len(), rs.len()]
                    ms.len() == 2 * passed && rs.len() == 2 * passed
                    && (2 * passed > 0 ==> &*ms[0] == &old(self).iter && &*final(ms[2 * passed - 1])
                        == &s0)
                    && (2 * passed == 0 ==> &s0 == &old(self).iter)
                    && (forall|i: int| 0 <= i < 2 * passed - 1 ==> &*#[trigger] ms[i + 1]
                        == &*final(ms[i]))
                    && (forall|i: int|
                        0 <= i < 2 * passed ==> match rs[i] {
                            CursorCall::Advance(b) => call_ensures(
                                I::advance,
                                (#[trigger] ms[i],),
                                b,
                            ),
                            CursorCall::Get(x) => call_ensures(I::get, (ms[i],), x),
                        })
                    && (forall|i: int|
                        0 <= i < passed ==> rs[#[trigger] moved_at(i)]
                            == CursorCall::<I::Item<'_>>::Advance(true) && went_on(
                            old(self).predicate,
                            rs[moved_at(i) + 1],
                            false,
                        ));
                lemma_trace_push(
                    ms,
                    rs,
                    sa,
                    CursorCall::<I::Item<'_>>::Advance(true),
                    &old(self).iter,
                    &s1,
                    |m: &mut I, r: CursorCall<I::Item<'_>>| match r {
                        CursorCall::Advance(b) => call_ensures(I::advance, (m,), b),
                        CursorCall::Get(x) => call_ensures(I::get, (m,), x),
                    },
                );
                lemma_trace_push(
                    ms.push(sa),
                    rs.push(CursorCall::<I::Item<'_>>::Advance(true)),
                    sg,
                    CursorCall::<I::Item<'_>>::Get(lg),
                    &old(self).iter,
                    &s2,
                    |m: &mut I, r: CursorCall<I::Item<'_>>| match r {
                        CursorCall::Advance(b) => call_ensures(I::advance, (m,), b),
                        CursorCall::Get(x) => call_ensures(I::get, (m,), x),
                    },
                );
                let rs2 = rs.push(
                    CursorCall::<I::Item<'_>>::Advance(true),
                ).push(CursorCall::<I::Item<'_>>::Get(lg));
                assert(ms.push(sa).push(sg).len() == 2 * passed + 2 && rs2.len() == 2 * passed + 2);
                assert forall|i: int| 0 <= i < passed implies rs2[#[trigger] moved_at(i)]
                    == CursorCall::<I::Item<'_>>::Advance(true)
                    && went_on(old(self).predicate, rs2[moved_at(i) + 1], false) by {
                    assert(rs2[moved_at(i)] == rs[moved_at(i)]);
                    assert(rs2[moved_at(i) + 1] == rs[moved_at(i) + 1]);
                }
                if keep {
                    assert(moved_to(old(self).predicate, rs2, false, true));
                } else {
                    assert(went_on(old(self).predicate, rs2[moved_at(passed) + 1], false));
                    passed = passed + 1;
                }
            }
            if keep {
                proof {
                    assert(self.can_get() == self.iter.can_get());
                    assert(self.current() == self.iter.current());
                }
                return true;
            }
        }
    }

    fn get(&mut self) -> (ret: Option<Self::Item<'_>>)
        ensures
            final(self).predicate == old(self).predicate,
            exists|m: &mut I|
                *m == old(self).iter && *final(m) == final(self).iter && #[trigger] call_ensures(
                    I::get,
                    (m,),
                    ret,
                ),
    {
        proof {
            assert(self.can_get() == self.iter.can_get());
            assert(self.current() == self.iter.current());
        }
        self.iter.get()
    }
}

/// What `wf`, `lawful` and `remaining` are of a `Filter`. The verifier does
/// not unfold them for a particular predicate by itself: a caller who holds
/// one brings them in here, to show `wf` before the first call of `next`.
pub proof fn lemma_filter_model<I, P>(it: Filter<I, P>) where
    I: CursorLendingIterator + 'static,
    P: for <'a>FnMut(&I::Item<'a>) -> bool + 'static,

    ensures
        it.wf() == (it.iter.wf() && forall|x: I::Item<'_>|
            (it.iter.lawful() ==> it.iter.remaining().contains(x)) && it.iter.lends(x)
                ==> #[trigger] call_requires(
                it.predicate,
                (&x,),
            )),
        it.lawful() == (it.iter.lawful() && forall|i: int|
            0 <= i < it.iter.remaining().len() ==> it.decides(#[trigger] it.iter.remaining()[i])),
        it.remaining() == kept(it.iter.remaining(), it.accepts()),
{
}

} // verus!
