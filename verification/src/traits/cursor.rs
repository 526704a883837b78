use vstd::prelude::*;
use crate::model::{lemma_skip_head, lemma_trace_push};
use crate::traits::lending_iterator::LendingIterator;

verus! {

/// A call of `advance` or of `get`, with what the call returned.
pub enum CursorCall<T> {
    Advance(bool),
    Get(Option<T>),
}

/// The place of the `advance` call of round `i`, where `advance` and `get` are
/// called in turn.
pub open spec fn moved_at(i: int) -> int {
    2 * i
}

/// The number of rounds of `advance` and `get` that a search went through
/// before the one that ended it.
pub open spec fn rounds<T>(rs: Seq<CursorCall<T>>) -> int {
    if rs.len() > 0 && rs.last() is Advance {
        (rs.len() - 1) / 2
    } else {
        (rs.len() - 3) / 2
    }
}

/// Whether a search goes on after it has looked at an element: `c` is the
/// call that looked, and `pass` the answer of `p` on which the search goes
/// on. It goes on too where there was nothing to look at.
pub open spec fn went_on<T, P: FnMut(&T) -> bool>(p: P, c: CursorCall<T>, pass: bool) -> bool {
    match c {
        CursorCall::Get(Some(x)) => call_ensures(p, (&x,), pass),
        CursorCall::Get(None) => true,
        CursorCall::Advance(_) => false,
    }
}

/// Whether `rs` are the calls of a search with `p`, and `ret` what it found.
/// In every round but the last, `advance` found an element, `get` lent it,
/// and `p` gave the answer `pass` on it. Then either `advance` found no
/// element, and nothing was found; or `get` lent an element on which `p`
/// gave the other answer, and `ret` is what `get` returned when it was called
/// once more.
pub open spec fn searched<T, P: FnMut(&T) -> bool>(
    p: P,
    rs: Seq<CursorCall<T>>,
    pass: bool,
    ret: Option<T>,
) -> bool {
    let k = rounds(rs);
    &&& k >= 0
    &&& forall|i: int|
        0 <= i < k ==> rs[#[trigger] moved_at(i)] == CursorCall::<T>::Advance(true) && went_on(
            p,
            rs[moved_at(i) + 1],
            pass,
        )
    &&& if rs.last() is Advance {
        rs.len() == 2 * k + 1 && rs[2 * k] == CursorCall::<T>::Advance(false) && ret is None
    } else {
        &&& rs.len() == 2 * k + 3
        &&& rs[2 * k] == CursorCall::<T>::Advance(true)
        &&& rs[2 * k + 1] matches CursorCall::Get(Some(x)) && call_ensures(p, (&x,), !pass)
        &&& rs[2 * k + 2] == CursorCall::Get(ret)
    }
}

/// Whether `rs` are the calls of a search with `p` that moves on without
/// lending, and `more` says whether it found an element. In every round but
/// the last, `advance` found an element, `get` lent it, and `p` gave the
/// answer `pass` on it. Then either `advance` found no element, or `get` lent
/// an element on which `p` gave the other answer.
pub open spec fn moved_to<T, P: FnMut(&T) -> bool>(
    p: P,
    rs: Seq<CursorCall<T>>,
    pass: bool,
    more: bool,
) -> bool {
    let k = if more {
        (rs.len() - 2) / 2
    } else {
        (rs.len() - 1) / 2
    };
    &&& k >= 0
    &&& forall|i: int|
        0 <= i < k ==> rs[#[trigger] moved_at(i)] == CursorCall::<T>::Advance(true) && went_on(
            p,
            rs[moved_at(i) + 1],
            pass,
        )
    &&& if more {
        &&& rs.len() == 2 * k + 2
        &&& rs[2 * k] == CursorCall::<T>::Advance(true)
        &&& rs[2 * k + 1] matches CursorCall::Get(Some(x)) && call_ensures(p, (&x,), !pass)
    } else {
        rs.len() == 2 * k + 1 && rs[2 * k] == CursorCall::<T>::Advance(false)
    }
}

/// Whether a search with a predicate that may fail goes on after it has
/// looked at an element: `c` is the call that looked. It goes on where the
/// predicate went well and turned the element down, and where there was
/// nothing to look at.
pub open spec fn went_on_well<T, E, P: FnMut(&T) -> Result<bool, E>>(
    p: P,
    c: CursorCall<T>,
) -> bool {
    match c {
        CursorCall::Get(Some(x)) => call_ensures(p, (&x,), Ok::<bool, E>(false)),
        CursorCall::Get(None) => true,
        CursorCall::Advance(_) => false,
    }
}

/// Whether `rs` are the calls of a search with a predicate `p` that may fail,
/// and `ret` what came of it. In every round but the last, `advance` found an
/// element, `get` lent it, and `p` went well and turned it down. Then either
/// `advance` found no element, and nothing was found; or `p` failed on the
/// element that `get` lent, and `ret` is that failure; or `p` took it, and
/// `ret` holds what `get` returned when it was called once more.
pub open spec fn tried<T, E, P: FnMut(&T) -> Result<bool, E>>(
    p: P,
    rs: Seq<CursorCall<T>>,
    ret: Result<Option<T>, E>,
) -> bool {
    let k = if rs.len() > 0 && rs.last() is Advance {
        (rs.len() - 1) / 2
    } else if ret is Err {
        (rs.len() - 2) / 2
    } else {
        (rs.len() - 3) / 2
    };
    &&& k >= 0
    &&& forall|i: int|
        0 <= i < k ==> rs[#[trigger] moved_at(i)] == CursorCall::<T>::Advance(true)
            && went_on_well(p, rs[moved_at(i) + 1])
    &&& if rs.last() is Advance {
        rs.len() == 2 * k + 1 && rs[2 * k] == CursorCall::<T>::Advance(false) && ret == Ok::<
            Option<T>,
            E,
        >(None)
    } else if ret is Err {
        &&& rs.len() == 2 * k + 2
        &&& rs[2 * k] == CursorCall::<T>::Advance(true)
        &&& rs[2 * k + 1] matches CursorCall::Get(Some(x)) && call_ensures(
            p,
            (&x,),
            Err::<bool, E>(ret->Err_0),
        )
    } else {
        &&& rs.len() == 2 * k + 3
        &&& rs[2 * k] == CursorCall::<T>::Advance(true)
        &&& rs[2 * k + 1] matches CursorCall::Get(Some(x)) && call_ensures(
            p,
            (&x,),
            Ok::<bool, E>(true),
        )
        &&& ret is Ok && rs[2 * k + 2] == CursorCall::Get(ret->Ok_0)
    }
}

/// A lending iterator that can move on to its next element without lending
/// it, and lend the element that it stands on.
///
/// An adapter that has to look at an element before it decides whether to
/// lend it asks for this: it moves on, looks, and then asks for the element
/// once more. With `next` alone it would have to give up the element in order
/// to go on, and could not lend it after that.
pub trait CursorLendingIterator: LendingIterator {
    /// The element that a lawful iterator stands on: the one that `advance`
    /// moved to last. It is not said what this is before `advance` was
    /// called, nor after it found no element.
    open spec fn current<'a>(&'a self) -> Option<Self::Item<'a>> {
        None
    }

    /// Whether `get` may be called. It may after `advance` has found an
    /// element, and stays so while `get` alone is called; of an
    /// implementation that does not say, it may not.
    open spec fn can_get(&self) -> bool {
        false
    }

    /// Moves on to the next element and says whether there is one.
    fn advance(&mut self) -> (more: bool)
        requires
            old(self).wf(),
        ensures
            forall|x: Self::Item<'_>| #[trigger] final(self).lends(x) ==> old(self).lends(x),
            more ==> final(self).can_get(),
            more || old(self).lawful() ==> final(self).wf(),
            more ==> final(self).bound() < old(self).bound(),
            old(self).lawful() ==> final(self).lawful(),
            old(self).lawful() && old(self).remaining().len() > 0 ==> more && final(self).current()
                == Some(old(self).remaining()[0]) && final(self).remaining()
                == old(self).remaining().drop_first(),
            old(self).lawful() && old(self).remaining().len() == 0 ==> !more
                && final(self).remaining() == old(self).remaining(),
    ;

    /// Lends the element that the iterator stands on. The iterator stays
    /// where it is.
    fn get(&mut self) -> (ret: Option<Self::Item<'_>>)
        requires
            old(self).can_get(),
        ensures
            ret is Some ==> old(self).lends(ret->0),
            forall|x: Self::Item<'_>| #[trigger] final(self).lends(x) ==> old(self).lends(x),
            final(self).can_get(),
            old(self).wf() ==> final(self).wf(),
            final(self).bound() == old(self).bound(),
            old(self).lawful() ==> final(self).lawful() && ret == old(self).current()
                && final(self).current() == old(self).current() && final(self).remaining()
                == old(self).remaining(),
    ;

    /// Searches for an element of an iterator that satisfies a predicate:
    /// passes over the elements that the predicate turns down and lends the
    /// first that it takes.
    fn find<P>(&mut self, predicate: P) -> (ret: Option<Self::Item<'_>>) where
        P: FnMut(&Self::Item<'_>) -> bool,

        requires
            old(self).wf(),
            forall|x: Self::Item<'_>|
                (old(self).lawful() ==> old(self).remaining().contains(x)) && old(self).lends(x)
                    ==> #[trigger] call_requires(predicate, (&x,)),
        ensures
            ret is Some || old(self).lawful() ==> final(self).wf(),
            ret is Some ==> final(self).bound() < old(self).bound(),
            old(self).lawful() ==> final(self).lawful(),
            old(self).lawful() ==> (ret matches Some(x) ==> exists|k: int|
                0 <= k < old(self).remaining().len() && x == #[trigger] old(self).remaining()[k]
                    && call_ensures(predicate, (&x,), true) && final(self).remaining()
                        == old(self).remaining().skip(k + 1) && forall|i: int|
                    0 <= i < k ==> call_ensures(
                        predicate,
                        (&#[trigger] old(self).remaining()[i],),
                        false,
                    )),
            old(self).lawful() ==> (ret is None ==> final(self).remaining().len() == 0
                && forall|i: int|
                0 <= i < old(self).remaining().len() ==> call_ensures(
                    predicate,
                    (&#[trigger] old(self).remaining()[i],),
                    false,
                )),
        default_ensures
            exists|ms: Seq<&mut Self>, rs: Seq<CursorCall<Self::Item<'_>>>|
                #![trigger ms.len(), rs.len()]
                ms.len() == rs.len()
                && (ms.len() > 0 ==> &*ms[0] == &*old(self) && &*final(ms[ms.len() - 1])
                    == &*final(self))
                && (ms.len() == 0 ==> &*final(self) == &*old(self))
                && (forall|i: int| 0 <= i < ms.len() - 1 ==> &*#[trigger] ms[i + 1]
                    == &*final(ms[i]))
                && (forall|i: int|
                    0 <= i < ms.len() ==> match rs[i] {
                        CursorCall::Advance(b) => call_ensures(
                            Self::advance,
                            (#[trigger] ms[i],),
                            b,
                        ),
                        CursorCall::Get(x) => call_ensures(Self::get, (ms[i],), x),
                    })
                && searched(predicate, rs, false, ret),
    {
        let mut p = predicate;
        let ghost mut passed: int = 0;
        proof {
            let ms = Seq::<&mut Self>::empty();
            let rs = Seq::<CursorCall<Self::Item<'_>>>::empty();
            assert(ms.len() == 0 && rs.len() == 0);
        }
        loop
            invariant
                p == predicate,
                self.wf(),
                self.bound() <= old(self).bound(),
                forall|x: Self::Item<'_>|
                    (old(self).lawful() ==> old(self).remaining().contains(x)) && old(self).lends(x)
                        ==> #[trigger] call_requires(predicate, (&x,)),
                old(self).lawful() ==> self.lawful() && 0 <= passed <= old(self).remaining().len()
                    && self.remaining() == old(self).remaining().skip(passed),
                old(self).lawful() ==> forall|i: int|
                    0 <= i < passed ==> call_ensures(
                        predicate,
                        (&#[trigger] old(self).remaining()[i],),
                        false,
                    ),
                0 <= passed,
                exists|ms: Seq<&mut Self>, rs: Seq<CursorCall<Self::Item<'_>>>|
                    #![trigger ms.len(), rs.len()]
                    ms.len() == 2 * passed && rs.len() == 2 * passed
                    && (2 * passed > 0 ==> &*ms[0] == &*old(self) && &*final(ms[2 * passed - 1])
                        == &*self)
                    && (2 * passed == 0 ==> &*self == &*old(self))
                    && (forall|i: int| 0 <= i < 2 * passed - 1 ==> &*#[trigger] ms[i + 1]
                        == &*final(ms[i]))
                    && (forall|i: int|
                        0 <= i < 2 * passed ==> match rs[i] {
                            CursorCall::Advance(b) => call_ensures(
                                Self::advance,
                                (#[trigger] ms[i],),
                                b,
                            ),
                            CursorCall::Get(x) => call_ensures(Self::get, (ms[i],), x),
                        })
                    && (forall|i: int|
                        0 <= i < passed ==> rs[#[trigger] moved_at(i)]
                            == CursorCall::<Self::Item<'_>>::Advance(true) && went_on(
                            predicate,
                            rs[moved_at(i) + 1],
                            false,
                        )),
                forall|x: Self::Item<'_>| #[trigger] self.lends(x) ==> old(self).lends(x),
            decreases self.bound(),
        {
            let ghost before = self.remaining();
            proof {
                if old(self).lawful() && before.len() > 0 {
                    lemma_skip_head(old(self).remaining(), passed);
                }
            }
            let ghost s0 = &*self;
            let more = self.advance();
            let ghost s1 = &*self;
            if !more {
                proof {
                    let sa = choose|m: &mut Self|
                        &*m == s0 && &*final(m) == s1 && call_ensures(Self::advance, (m,), more);
                    let (ms, rs) = choose|ms: Seq<&mut Self>, rs: Seq<CursorCall<Self::Item<'_>>>|
                        #![trigger ms.len(), rs.len()]
                        ms.len() == 2 * passed && rs.len() == 2 * passed
                        && (2 * passed > 0 ==> &*ms[0] == &*old(self) && &*final(ms[2 * passed - 1])
                            == s0)
                        && (2 * passed == 0 ==> s0 == &*old(self))
                        && (forall|i: int| 0 <= i < 2 * passed - 1 ==> &*#[trigger] ms[i + 1]
                            == &*final(ms[i]))
                        && (forall|i: int|
                            0 <= i < 2 * passed ==> match rs[i] {
                                CursorCall::Advance(b) => call_ensures(
                                    Self::advance,
                                    (#[trigger] ms[i],),
                                    b,
                                ),
                                CursorCall::Get(x) => call_ensures(Self::get, (ms[i],), x),
                            })
                        && (forall|i: int|
                        0 <= i < passed ==> rs[#[trigger] moved_at(i)]
                            == CursorCall::<Self::Item<'_>>::Advance(true) && went_on(
                            predicate,
                            rs[moved_at(i) + 1],
                            false,
                        ));
                    lemma_trace_push(
                        ms,
                        rs,
                        sa,
                        CursorCall::<Self::Item<'_>>::Advance(false),
                        &*old(self),
                        s1,
                        |m: &mut Self, r: CursorCall<Self::Item<'_>>| match r {
                            CursorCall::Advance(b) => call_ensures(Self::advance, (m,), b),
                            CursorCall::Get(x) => call_ensures(Self::get, (m,), x),
                        },
                    );
                    let rs1 = rs.push(CursorCall::<Self::Item<'_>>::Advance(false));
                    assert(ms.push(sa).len() == rs1.len());
                    assert(rounds(rs1) == passed);
                    assert forall|i: int| 0 <= i < passed implies rs1[#[trigger] moved_at(i)]
                        == CursorCall::<Self::Item<'_>>::Advance(true)
                        && went_on(predicate, rs1[moved_at(i) + 1], false) by {
                        assert(rs1[moved_at(i)] == rs[moved_at(i)]);
                        assert(rs1[moved_at(i) + 1] == rs[moved_at(i) + 1]);
                    }
                    assert(searched(predicate, rs1, false, None));
                }
                return None;
            }
            let keep = match self.get() {
                Some(item) => p(&item),
                None => false,
            };
            let ghost s2 = &*self;
            if keep {
                let ret = self.get();
                let ghost rg = ret;
                proof {
                    let sa = choose|m: &mut Self|
                        &*m == s0 && &*final(m) == s1 && call_ensures(Self::advance, (m,), true);
                    let (sg, lg) = choose|m: &mut Self, lg: Option<Self::Item<'_>>|
                        &*m == s1 && &*final(m) == s2
                            && #[trigger] call_ensures(Self::get, (m,), lg)
                            && match lg {
                            Some(x) => call_ensures(predicate, (&x,), keep),
                            None => keep == false,
                        };
                    let sr = choose|m: &mut Self|
                        &*m == s2 && &*final(m) == &*after_borrow(self) && call_ensures(
                            Self::get,
                            (m,),
                            rg,
                        );
                    let (ms, rs) = choose|ms: Seq<&mut Self>, rs: Seq<CursorCall<Self::Item<'_>>>|
                        #![trigger ms.len(), rs.len()]
                        ms.len() == 2 * passed && rs.len() == 2 * passed
                        && (2 * passed > 0 ==> &*ms[0] == &*old(self) && &*final(ms[2 * passed - 1])
                            == s0)
                        && (2 * passed == 0 ==> s0 == &*old(self))
                        && (forall|i: int| 0 <= i < 2 * passed - 1 ==> &*#[trigger] ms[i + 1]
                            == &*final(ms[i]))
                        && (forall|i: int|
                            0 <= i < 2 * passed ==> match rs[i] {
                                CursorCall::Advance(b) => call_ensures(
                                    Self::advance,
                                    (#[trigger] ms[i],),
                                    b,
                                ),
                                CursorCall::Get(x) => call_ensures(Self::get, (ms[i],), x),
                            })
                        && (forall|i: int|
                        0 <= i < passed ==> rs[#[trigger] moved_at(i)]
                            == CursorCall::<Self::Item<'_>>::Advance(true) && went_on(
                            predicate,
                            rs[moved_at(i) + 1],
                            false,
                        ));
                    lemma_trace_push(
                        ms,
                        rs,
                        sa,
                        CursorCall::<Self::Item<'_>>::Advance(true),
                        &*old(self),
                        s1,
                        |m: &mut Self, r: CursorCall<Self::Item<'_>>| match r {
                            CursorCall::Advance(b) => call_ensures(Self::advance, (m,), b),
                            CursorCall::Get(x) => call_ensures(Self::get, (m,), x),
                        },
                    );
                    lemma_trace_push(
                        ms.push(sa),
                        rs.push(CursorCall::<Self::Item<'_>>::Advance(true)),
                        sg,
                        CursorCall::<Self::Item<'_>>::Get(lg),
                        &*old(self),
                        s2,
                        |m: &mut Self, r: CursorCall<Self::Item<'_>>| match r {
                            CursorCall::Advance(b) => call_ensures(Self::advance, (m,), b),
                            CursorCall::Get(x) => call_ensures(Self::get, (m,), x),
                        },
                    );
                    lemma_trace_push(
                        ms.push(sa).push(sg),
                        rs.push(
                            CursorCall::<Self::Item<'_>>::Advance(true),
                        ).push(CursorCall::<Self::Item<'_>>::Get(lg)),
                        sr,
                        CursorCall::<Self::Item<'_>>::Get(rg),
                        &*old(self),
                        &*after_borrow(self),
                        |m: &mut Self, r: CursorCall<Self::Item<'_>>| match r {
                            CursorCall::Advance(b) => call_ensures(Self::advance, (m,), b),
                            CursorCall::Get(x) => call_ensures(Self::get, (m,), x),
                        },
                    );
                    let rs3 = rs.push(CursorCall::<Self::Item<'_>>::Advance(true)).push(
                        CursorCall::<Self::Item<'_>>::Get(lg),
                    ).push(CursorCall::<Self::Item<'_>>::Get(rg));
                    assert(ms.push(sa).push(sg).push(sr).len() == rs3.len());
                    assert(rounds(rs3) == passed);
                    assert forall|i: int| 0 <= i < passed implies rs3[#[trigger] moved_at(i)]
                        == CursorCall::<Self::Item<'_>>::Advance(true)
                        && went_on(predicate, rs3[moved_at(i) + 1], false) by {
                        assert(rs3[moved_at(i)] == rs[moved_at(i)]);
                        assert(rs3[moved_at(i) + 1] == rs[moved_at(i) + 1]);
                    }
                    assert(searched(predicate, rs3, false, rg));
                }
                return ret;
            }
            proof {
                let sa = choose|m: &mut Self|
                    &*m == s0 && &*final(m) == s1 && call_ensures(Self::advance, (m,), true);
                let (sg, lg) = choose|m: &mut Self, lg: Option<Self::Item<'_>>|
                    &*m == s1 && &*final(m) == s2 && #[trigger] call_ensures(Self::get, (m,), lg)
                        && match lg {
                        Some(x) => call_ensures(predicate, (&x,), keep),
                        None => keep == false,
                    };
                let (ms, rs) = choose|ms: Seq<&mut Self>, rs: Seq<CursorCall<Self::Item<'_>>>|
                    #![trigger ms.len(), rs.len()]
                    ms.len() == 2 * passed && rs.len() == 2 * passed
                    && (2 * passed > 0 ==> &*ms[0] == &*old(self) && &*final(ms[2 * passed - 1])
                        == s0)
                    && (2 * passed == 0 ==> s0 == &*old(self))
                    && (forall|i: int| 0 <= i < 2 * passed - 1 ==> &*#[trigger] ms[i + 1]
                        == &*final(ms[i]))
                    && (forall|i: int|
                        0 <= i < 2 * passed ==> match rs[i] {
                            CursorCall::Advance(b) => call_ensures(
                                Self::advance,
                                (#[trigger] ms[i],),
                                b,
                            ),
                            CursorCall::Get(x) => call_ensures(Self::get, (ms[i],), x),
                        })
                    && (forall|i: int|
                        0 <= i < passed ==> rs[#[trigger] moved_at(i)]
                            == CursorCall::<Self::Item<'_>>::Advance(true) && went_on(
                            predicate,
                            rs[moved_at(i) + 1],
                            false,
                        ));
                lemma_trace_push(
                    ms,
                    rs,
                    sa,
                    CursorCall::<Self::Item<'_>>::Advance(true),
                    &*old(self),
                    s1,
                    |m: &mut Self, r: CursorCall<Self::Item<'_>>| match r {
                        CursorCall::Advance(b) => call_ensures(Self::advance, (m,), b),
                        CursorCall::Get(x) => call_ensures(Self::get, (m,), x),
                    },
                );
                lemma_trace_push(
                    ms.push(sa),
                    rs.push(CursorCall::<Self::Item<'_>>::Advance(true)),
                    sg,
                    CursorCall::<Self::Item<'_>>::Get(lg),
                    &*old(self),
                    s2,
                    |m: &mut Self, r: CursorCall<Self::Item<'_>>| match r {
                        CursorCall::Advance(b) => call_ensures(Self::advance, (m,), b),
                        CursorCall::Get(x) => call_ensures(Self::get, (m,), x),
                    },
                );
                let rs2 = rs.push(
                    CursorCall::<Self::Item<'_>>::Advance(true),
                ).push(CursorCall::<Self::Item<'_>>::Get(lg));
                assert(ms.push(sa).push(sg).len() == 2 * passed + 2 && rs2.len() == 2 * passed + 2);
                assert forall|i: int| 0 <= i < passed + 1 implies rs2[#[trigger] moved_at(i)]
                    == CursorCall::<Self::Item<'_>>::Advance(true)
                    && went_on(predicate, rs2[moved_at(i) + 1], false) by {
                    if i < passed {
                        assert(rs2[moved_at(i)] == rs[moved_at(i)]);
                        assert(rs2[moved_at(i) + 1] == rs[moved_at(i) + 1]);
                    }
                }
                passed = passed + 1;
            }
        }
    }

    /// Searches for an element that satisfies a predicate which may fail:
    /// the first failure ends the search and is handed back as it is.
    fn try_find<E, P>(&mut self, predicate: P) -> (ret: Result<Option<Self::Item<'_>>, E>) where
        P: FnMut(&Self::Item<'_>) -> Result<bool, E>,

        requires
            old(self).wf(),
            forall|x: Self::Item<'_>|
                (old(self).lawful() ==> old(self).remaining().contains(x)) && old(self).lends(x)
                    ==> #[trigger] call_requires(predicate, (&x,)),
        ensures
            !(ret matches Ok(None)) || old(self).lawful() ==> final(self).wf(),
            old(self).lawful() ==> final(self).lawful(),
            old(self).lawful() ==> (ret matches Ok(Some(x)) ==> exists|k: int|
                0 <= k < old(self).remaining().len() && x == #[trigger] old(self).remaining()[k]
                    && call_ensures(predicate, (&x,), Ok::<bool, E>(true))
                        && final(self).remaining() == old(self).remaining().skip(k + 1)
                        && forall|i: int|
                    0 <= i < k ==> call_ensures(
                        predicate,
                        (&#[trigger] old(self).remaining()[i],),
                        Ok::<bool, E>(false),
                    )),
            old(self).lawful() ==> (ret matches Err(e) ==> exists|k: int|
                0 <= k < old(self).remaining().len() && call_ensures(
                    predicate,
                    (&#[trigger] old(self).remaining()[k],),
                    Err::<bool, E>(e),
                ) && final(self).remaining() == old(self).remaining().skip(k + 1) && forall|i: int|
                    0 <= i < k ==> call_ensures(
                        predicate,
                        (&#[trigger] old(self).remaining()[i],),
                        Ok::<bool, E>(false),
                    )),
            old(self).lawful() ==> (ret matches Ok(None) ==> final(self).remaining().len() == 0
                && forall|i: int|
                0 <= i < old(self).remaining().len() ==> call_ensures(
                    predicate,
                    (&#[trigger] old(self).remaining()[i],),
                    Ok::<bool, E>(false),
                )),
        default_ensures
            exists|ms: Seq<&mut Self>, rs: Seq<CursorCall<Self::Item<'_>>>|
                #![trigger ms.len(), rs.len()]
                ms.len() == rs.len()
                && (ms.len() > 0 ==> &*ms[0] == &*old(self) && &*final(ms[ms.len() - 1])
                    == &*final(self))
                && (ms.len() == 0 ==> &*final(self) == &*old(self))
                && (forall|i: int| 0 <= i < ms.len() - 1 ==> &*#[trigger] ms[i + 1]
                    == &*final(ms[i]))
                && (forall|i: int|
                    0 <= i < ms.len() ==> match rs[i] {
                        CursorCall::Advance(b) => call_ensures(
                            Self::advance,
                            (#[trigger] ms[i],),
                            b,
                        ),
                        CursorCall::Get(x) => call_ensures(Self::get, (ms[i],), x),
                    })
                && tried(predicate, rs, ret),
    {
        let mut p = predicate;
        let ghost mut passed: int = 0;
        proof {
            let ms = Seq::<&mut Self>::empty();
            let rs = Seq::<CursorCall<Self::Item<'_>>>::empty();
            assert(ms.len() == 0 && rs.len() == 0);
        }
        loop
            invariant
                p == predicate,
                self.wf(),
                forall|x: Self::Item<'_>|
                    (old(self).lawful() ==> old(self).remaining().contains(x)) && old(self).lends(x)
                        ==> #[trigger] call_requires(predicate, (&x,)),
                old(self).lawful() ==> self.lawful() && 0 <= passed <= old(self).remaining().len()
                    && self.remaining() == old(self).remaining().skip(passed),
                old(self).lawful() ==> forall|i: int|
                    0 <= i < passed ==> call_ensures(
                        predicate,
                        (&#[trigger] old(self).remaining()[i],),
                        Ok::<bool, E>(false),
                    ),
                forall|x: Self::Item<'_>| #[trigger] self.lends(x) ==> old(self).lends(x),
                0 <= passed,
                exists|ms: Seq<&mut Self>, rs: Seq<CursorCall<Self::Item<'_>>>|
                    #![trigger ms.len(), rs.len()]
                    ms.len() == 2 * passed && rs.len() == 2 * passed
                    && (2 * passed > 0 ==> &*ms[0] == &*old(self) && &*final(ms[2 * passed - 1])
                        == &*self)
                    && (2 * passed == 0 ==> &*self == &*old(self))
                    && (forall|i: int| 0 <= i < 2 * passed - 1 ==> &*#[trigger] ms[i + 1]
                        == &*final(ms[i]))
                    && (forall|i: int|
                        0 <= i < 2 * passed ==> match rs[i] {
                            CursorCall::Advance(b) => call_ensures(
                                Self::advance,
                                (#[trigger] ms[i],),
                                b,
                            ),
                            CursorCall::Get(x) => call_ensures(Self::get, (ms[i],), x),
                        })
                    && (forall|i: int|
                        0 <= i < passed ==> rs[#[trigger] moved_at(i)]
                            == CursorCall::<Self::Item<'_>>::Advance(true) && went_on_well(
                            predicate,
                            rs[moved_at(i) + 1],
                        )),
            decreases self.bound(),
        {
            let ghost before = self.remaining();
            proof {
                if old(self).lawful() && before.len() > 0 {
                    lemma_skip_head(old(self).remaining(), passed);
                }
            }
            let ghost s0 = &*self;
            let more = self.advance();
            let ghost s1 = &*self;
            if !more {
                proof {
                    let sa = choose|m: &mut Self|
                        &*m == s0 && &*final(m) == s1 && call_ensures(Self::advance, (m,), more);
                    let (ms, rs) = choose|ms: Seq<&mut Self>, rs: Seq<CursorCall<Self::Item<'_>>>|
                        #![trigger ms.len(), rs.len()]
                        ms.len() == 2 * passed && rs.len() == 2 * passed
                        && (2 * passed > 0 ==> &*ms[0] == &*old(self) && &*final(ms[2 * passed - 1])
                            == s0)
                        && (2 * passed == 0 ==> s0 == &*old(self))
                        && (forall|i: int| 0 <= i < 2 * passed - 1 ==> &*#[trigger] ms[i + 1]
                            == &*final(ms[i]))
                        && (forall|i: int|
                            0 <= i < 2 * passed ==> match rs[i] {
                                CursorCall::Advance(b) => call_ensures(
                                    Self::advance,
                                    (#[trigger] ms[i],),
                                    b,
                                ),
                                CursorCall::Get(x) => call_ensures(Self::get, (ms[i],), x),
                            })
                        && (forall|i: int|
                        0 <= i < passed ==> rs[#[trigger] moved_at(i)]
                            == CursorCall::<Self::Item<'_>>::Advance(true) && went_on_well(
                            predicate,
                            rs[moved_at(i) + 1],
                        ));
                    lemma_trace_push(
                        ms,
                        rs,
                        sa,
                        CursorCall::<Self::Item<'_>>::Advance(false),
                        &*old(self),
                        s1,
                        |m: &mut Self, r: CursorCall<Self::Item<'_>>| match r {
                            CursorCall::Advance(b) => call_ensures(Self::advance, (m,), b),
                            CursorCall::Get(x) => call_ensures(Self::get, (m,), x),
                        },
                    );
                    let rs1 = rs.push(CursorCall::<Self::Item<'_>>::Advance(false));
                    assert(ms.push(sa).len() == rs1.len());
                    assert forall|i: int| 0 <= i < passed implies rs1[#[trigger] moved_at(i)]
                        == CursorCall::<Self::Item<'_>>::Advance(true)
                        && went_on_well(predicate, rs1[moved_at(i) + 1]) by {
                        assert(rs1[moved_at(i)] == rs[moved_at(i)]);
                        assert(rs1[moved_at(i) + 1] == rs[moved_at(i) + 1]);
                    }
                    assert(tried(predicate, rs1, Ok::<Option<Self::Item<'_>>, E>(None)));
                }
                return Ok(None);
            }
            let verdict = match self.get() {
                Some(item) => p(&item),
                None => Ok(false),
            };
            let ghost s2 = &*self;
            match verdict {
                Ok(true) => {
                    let ret = self.get();
                    let ghost rg = ret;
                    proof {
                        let sa = choose|m: &mut Self|
                            &*m == s0 && &*final(m) == s1
                                && call_ensures(Self::advance, (m,), true);
                        let (sg, lg) = choose|m: &mut Self, lg: Option<Self::Item<'_>>|
                            &*m == s1 && &*final(m) == s2
                                && #[trigger] call_ensures(Self::get, (m,), lg) && match lg {
                                Some(x) => call_ensures(predicate, (&x,), verdict),
                                None => verdict == Ok::<bool, E>(false),
                            };
                        let (ms, rs) = choose|ms: Seq<&mut Self>, rs: Seq<CursorCall<Self::Item<'_>>>|
                            #![trigger ms.len(), rs.len()]
                            ms.len() == 2 * passed && rs.len() == 2 * passed
                            && (2 * passed > 0 ==> &*ms[0] == &*old(self)
                                && &*final(ms[2 * passed - 1]) == s0)
                            && (2 * passed == 0 ==> s0 == &*old(self))
                            && (forall|i: int| 0 <= i < 2 * passed - 1 ==> &*#[trigger] ms[i + 1]
                                == &*final(ms[i]))
                            && (forall|i: int|
                                0 <= i < 2 * passed ==> match rs[i] {
                                    CursorCall::Advance(b) => call_ensures(
                                        Self::advance,
                                        (#[trigger] ms[i],),
                                        b,
                                    ),
                                    CursorCall::Get(x) => call_ensures(Self::get, (ms[i],), x),
                                })
                            && (forall|i: int|
                            0 <= i < passed ==> rs[#[trigger] moved_at(i)]
                                == CursorCall::<Self::Item<'_>>::Advance(true) && went_on_well(
                                predicate,
                                rs[moved_at(i) + 1],
                            ));
                        lemma_trace_push(
                            ms,
                            rs,
                            sa,
                            CursorCall::<Self::Item<'_>>::Advance(true),
                            &*old(self),
                            s1,
                            |m: &mut Self, r: CursorCall<Self::Item<'_>>| match r {
                                CursorCall::Advance(b) => call_ensures(Self::advance, (m,), b),
                                CursorCall::Get(x) => call_ensures(Self::get, (m,), x),
                            },
                        );
                        lemma_trace_push(
                            ms.push(sa),
                            rs.push(CursorCall::<Self::Item<'_>>::Advance(true)),
                            sg,
                            CursorCall::<Self::Item<'_>>::Get(lg),
                            &*old(self),
                            s2,
                            |m: &mut Self, r: CursorCall<Self::Item<'_>>| match r {
                                CursorCall::Advance(b) => call_ensures(Self::advance, (m,), b),
                                CursorCall::Get(x) => call_ensures(Self::get, (m,), x),
                            },
                        );
                        let sr = choose|m: &mut Self|
                            &*m == s2 && &*final(m) == &*after_borrow(self) && call_ensures(
                                Self::get,
                                (m,),
                                rg,
                            );
                        lemma_trace_push(
                            ms.push(sa).push(sg),
                            rs.push(
                                CursorCall::<Self::Item<'_>>::Advance(true),
                            ).push(CursorCall::<Self::Item<'_>>::Get(lg)),
                            sr,
                            CursorCall::<Self::Item<'_>>::Get(rg),
                            &*old(self),
                            &*after_borrow(self),
                            |m: &mut Self, r: CursorCall<Self::Item<'_>>| match r {
                                CursorCall::Advance(b) => call_ensures(Self::advance, (m,), b),
                                CursorCall::Get(x) => call_ensures(Self::get, (m,), x),
                            },
                        );
                        let rs3 = rs.push(CursorCall::<Self::Item<'_>>::Advance(true)).push(
                            CursorCall::<Self::Item<'_>>::Get(lg),
                        ).push(CursorCall::<Self::Item<'_>>::Get(rg));
                        assert(ms.push(sa).push(sg).push(sr).len() == rs3.len());
                        assert forall|i: int| 0 <= i < passed implies rs3[#[trigger] moved_at(i)]
                            == CursorCall::<Self::Item<'_>>::Advance(true)
                            && went_on_well(predicate, rs3[moved_at(i) + 1]) by {
                            assert(rs3[moved_at(i)] == rs[moved_at(i)]);
                            assert(rs3[moved_at(i) + 1] == rs[moved_at(i) + 1]);
                        }
                        assert(tried(predicate, rs3, Ok::<Option<Self::Item<'_>>, E>(rg)));
                    }
                    return Ok(ret);
                },
                Ok(false) => {
                    proof {
                        let sa = choose|m: &mut Self|
                            &*m == s0 && &*final(m) == s1
                                && call_ensures(Self::advance, (m,), true);
                        let (sg, lg) = choose|m: &mut Self, lg: Option<Self::Item<'_>>|
                            &*m == s1 && &*final(m) == s2
                                && #[trigger] call_ensures(Self::get, (m,), lg) && match lg {
                                Some(x) => call_ensures(predicate, (&x,), verdict),
                                None => verdict == Ok::<bool, E>(false),
                            };
                        let (ms, rs) = choose|ms: Seq<&mut Self>, rs: Seq<CursorCall<Self::Item<'_>>>|
                            #![trigger ms.len(), rs.len()]
                            ms.len() == 2 * passed && rs.len() == 2 * passed
                            && (2 * passed > 0 ==> &*ms[0] == &*old(self)
                                && &*final(ms[2 * passed - 1]) == s0)
                            && (2 * passed == 0 ==> s0 == &*old(self))
                            && (forall|i: int| 0 <= i < 2 * passed - 1 ==> &*#[trigger] ms[i + 1]
                                == &*final(ms[i]))
                            && (forall|i: int|
                                0 <= i < 2 * passed ==> match rs[i] {
                                    CursorCall::Advance(b) => call_ensures(
                                        Self::advance,
                                        (#[trigger] ms[i],),
                                        b,
                                    ),
                                    CursorCall::Get(x) => call_ensures(Self::get, (ms[i],), x),
                                })
                            && (forall|i: int|
                            0 <= i < passed ==> rs[#[trigger] moved_at(i)]
                                == CursorCall::<Self::Item<'_>>::Advance(true) && went_on_well(
                                predicate,
                                rs[moved_at(i) + 1],
                            ));
                        lemma_trace_push(
                            ms,
                            rs,
                            sa,
                            CursorCall::<Self::Item<'_>>::Advance(true),
                            &*old(self),
                            s1,
                            |m: &mut Self, r: CursorCall<Self::Item<'_>>| match r {
                                CursorCall::Advance(b) => call_ensures(Self::advance, (m,), b),
                                CursorCall::Get(x) => call_ensures(Self::get, (m,), x),
                            },
                        );
                        lemma_trace_push(
                            ms.push(sa),
                            rs.push(CursorCall::<Self::Item<'_>>::Advance(true)),
                            sg,
                            CursorCall::<Self::Item<'_>>::Get(lg),
                            &*old(self),
                            s2,
                            |m: &mut Self, r: CursorCall<Self::Item<'_>>| match r {
                                CursorCall::Advance(b) => call_ensures(Self::advance, (m,), b),
                                CursorCall::Get(x) => call_ensures(Self::get, (m,), x),
                            },
                        );
                        let rs2 = rs.push(
                            CursorCall::<Self::Item<'_>>::Advance(true),
                        ).push(CursorCall::<Self::Item<'_>>::Get(lg));
                        assert(ms.push(sa).push(sg).len() == 2 * passed + 2 && rs2.len()
                            == 2 * passed
                            + 2);
                        assert forall|i: int| 0 <= i < passed
                            + 1 implies rs2[#[trigger] moved_at(i)]
                            == CursorCall::<Self::Item<'_>>::Advance(true) && went_on_well(
                            predicate,
                            rs2[moved_at(i) + 1],
                        ) by {
                            if i < passed {
                                assert(rs2[moved_at(i)] == rs[moved_at(i)]);
                                assert(rs2[moved_at(i) + 1] == rs[moved_at(i) + 1]);
                            }
                        }
                        passed = passed + 1;
                    }
                },
                Err(e) => {
                    proof {
                        let sa = choose|m: &mut Self|
                            &*m == s0 && &*final(m) == s1
                                && call_ensures(Self::advance, (m,), true);
                        let (sg, lg) = choose|m: &mut Self, lg: Option<Self::Item<'_>>|
                            &*m == s1 && &*final(m) == s2
                                && #[trigger] call_ensures(Self::get, (m,), lg) && match lg {
                                Some(x) => call_ensures(predicate, (&x,), verdict),
                                None => verdict == Ok::<bool, E>(false),
                            };
                        let (ms, rs) = choose|ms: Seq<&mut Self>, rs: Seq<CursorCall<Self::Item<'_>>>|
                            #![trigger ms.len(), rs.len()]
                            ms.len() == 2 * passed && rs.len() == 2 * passed
                            && (2 * passed > 0 ==> &*ms[0] == &*old(self)
                                && &*final(ms[2 * passed - 1]) == s0)
                            && (2 * passed == 0 ==> s0 == &*old(self))
                            && (forall|i: int| 0 <= i < 2 * passed - 1 ==> &*#[trigger] ms[i + 1]
                                == &*final(ms[i]))
                            && (forall|i: int|
                                0 <= i < 2 * passed ==> match rs[i] {
                                    CursorCall::Advance(b) => call_ensures(
                                        Self::advance,
                                        (#[trigger] ms[i],),
                                        b,
                                    ),
                                    CursorCall::Get(x) => call_ensures(Self::get, (ms[i],), x),
                                })
                            && (forall|i: int|
                            0 <= i < passed ==> rs[#[trigger] moved_at(i)]
                                == CursorCall::<Self::Item<'_>>::Advance(true) && went_on_well(
                                predicate,
                                rs[moved_at(i) + 1],
                            ));
                        lemma_trace_push(
                            ms,
                            rs,
                            sa,
                            CursorCall::<Self::Item<'_>>::Advance(true),
                            &*old(self),
                            s1,
                            |m: &mut Self, r: CursorCall<Self::Item<'_>>| match r {
                                CursorCall::Advance(b) => call_ensures(Self::advance, (m,), b),
                                CursorCall::Get(x) => call_ensures(Self::get, (m,), x),
                            },
                        );
                        lemma_trace_push(
                            ms.push(sa),
                            rs.push(CursorCall::<Self::Item<'_>>::Advance(true)),
                            sg,
                            CursorCall::<Self::Item<'_>>::Get(lg),
                            &*old(self),
                            s2,
                            |m: &mut Self, r: CursorCall<Self::Item<'_>>| match r {
                                CursorCall::Advance(b) => call_ensures(Self::advance, (m,), b),
                                CursorCall::Get(x) => call_ensures(Self::get, (m,), x),
                            },
                        );
                        let rs2 = rs.push(
                            CursorCall::<Self::Item<'_>>::Advance(true),
                        ).push(CursorCall::<Self::Item<'_>>::Get(lg));
                        assert(ms.push(sa).push(sg).len() == rs2.len());
                        assert forall|i: int| 0 <= i < passed implies rs2[#[trigger] moved_at(i)]
                            == CursorCall::<Self::Item<'_>>::Advance(true)
                            && went_on_well(predicate, rs2[moved_at(i) + 1]) by {
                            assert(rs2[moved_at(i)] == rs[moved_at(i)]);
                            assert(rs2[moved_at(i) + 1] == rs[moved_at(i) + 1]);
                        }
                        assert(tried(predicate, rs2, Err::<Option<Self::Item<'_>>, E>(e)));
                    }
                    return Err(e);
                },
            }
        }
    }
}

} // verus!
