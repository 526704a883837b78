//! Comparisons of two lending iterators, element by element.

use vstd::prelude::*;
use core::cmp::Ordering;
use crate::model::{lemma_trace_push, lends_on, lent};
use crate::traits::lending_iterator::LendingIterator;

verus! {

/// Whether `compare` can find the first `k` elements of `a` and of `b` equal,
/// pair by pair, and `out` is what follows from there: `Equal` if both end
/// at `k`, `Less` if only `a` does, `Greater` if only `b` does, and else
/// what `compare` makes of the two elements at `k`, which is not `Equal`.
pub open spec fn cmp_by_at<A, B, F: FnMut(A, B) -> Ordering>(
    a: Seq<A>,
    b: Seq<B>,
    compare: F,
    k: int,
    out: Ordering,
) -> bool {
    &&& 0 <= k <= a.len()
    &&& k <= b.len()
    &&& forall|i: int| 0 <= i < k
        ==> call_ensures(compare, (#[trigger] a[i], b[i]), Ordering::Equal)
    &&& if k == a.len() && k == b.len() {
        out == Ordering::Equal
    } else if k == a.len() {
        out == Ordering::Less
    } else if k == b.len() {
        out == Ordering::Greater
    } else {
        out != Ordering::Equal && call_ensures(compare, (a[k], b[k]), out)
    }
}

/// As `cmp_by_at`, for a function that may find two elements not
/// comparable: then `out` is `None`.
pub open spec fn partial_cmp_by_at<A, B, F: FnMut(A, B) -> Option<Ordering>>(
    a: Seq<A>,
    b: Seq<B>,
    compare: F,
    k: int,
    out: Option<Ordering>,
) -> bool {
    &&& 0 <= k <= a.len()
    &&& k <= b.len()
    &&& forall|i: int|
        0 <= i < k ==> call_ensures(compare, (#[trigger] a[i], b[i]), Some(Ordering::Equal))
    &&& if k == a.len() && k == b.len() {
        out == Some(Ordering::Equal)
    } else if k == a.len() {
        out == Some(Ordering::Less)
    } else if k == b.len() {
        out == Some(Ordering::Greater)
    } else {
        out != Some(Ordering::Equal) && call_ensures(compare, (a[k], b[k]), out)
    }
}

/// Whether `same` can find the first `k` elements of `a` and of `b` equal,
/// pair by pair, and `out` is what follows from there: `true` if both end at
/// `k`, `false` if one of them does, and `false` too if `same` can find the
/// two elements at `k` not equal.
pub open spec fn eq_by_at<A, B, F: FnMut(A, B) -> bool>(
    a: Seq<A>,
    b: Seq<B>,
    same: F,
    k: int,
    out: bool,
) -> bool {
    &&& 0 <= k <= a.len()
    &&& k <= b.len()
    &&& forall|i: int| 0 <= i < k ==> call_ensures(same, (#[trigger] a[i], b[i]), true)
    &&& if k == a.len() && k == b.len() {
        out
    } else if k == a.len() || k == b.len() {
        !out
    } else {
        !out && call_ensures(same, (a[k], b[k]), false)
    }
}

/// As `cmp_by_at`, with the elements' own `cmp` to compare them.
pub open spec fn cmp_at<T: Ord>(a: Seq<T>, b: Seq<T>, k: int, out: Ordering) -> bool {
    &&& 0 <= k <= a.len()
    &&& k <= b.len()
    &&& forall|i: int| 0 <= i < k
        ==> call_ensures(T::cmp, (&#[trigger] a[i], &b[i]), Ordering::Equal)
    &&& if k == a.len() && k == b.len() {
        out == Ordering::Equal
    } else if k == a.len() {
        out == Ordering::Less
    } else if k == b.len() {
        out == Ordering::Greater
    } else {
        out != Ordering::Equal && call_ensures(T::cmp, (&a[k], &b[k]), out)
    }
}

/// As `partial_cmp_by_at`, with the elements' own `partial_cmp` to compare
/// them.
pub open spec fn partial_cmp_at<A: PartialOrd<B>, B>(
    a: Seq<A>,
    b: Seq<B>,
    k: int,
    out: Option<Ordering>,
) -> bool {
    &&& 0 <= k <= a.len()
    &&& k <= b.len()
    &&& forall|i: int|
        0 <= i < k
            ==> call_ensures(A::partial_cmp, (&#[trigger] a[i], &b[i]), Some(Ordering::Equal))
    &&& if k == a.len() && k == b.len() {
        out == Some(Ordering::Equal)
    } else if k == a.len() {
        out == Some(Ordering::Less)
    } else if k == b.len() {
        out == Some(Ordering::Greater)
    } else {
        out != Some(Ordering::Equal) && call_ensures(A::partial_cmp, (&a[k], &b[k]), out)
    }
}

/// As `eq_by_at`, with the elements' own `ne` to tell them apart.
pub open spec fn eq_at<A: PartialEq<B>, B>(a: Seq<A>, b: Seq<B>, k: int, out: bool) -> bool {
    &&& 0 <= k <= a.len()
    &&& k <= b.len()
    &&& forall|i: int| 0 <= i < k ==> call_ensures(A::ne, (&#[trigger] a[i], &b[i]), false)
    &&& if k == a.len() && k == b.len() {
        out
    } else if k == a.len() || k == b.len() {
        !out
    } else {
        !out && call_ensures(A::ne, (&a[k], &b[k]), true)
    }
}

/// As `eq_at`, for the opposite answer.
pub open spec fn ne_at<A: PartialEq<B>, B>(a: Seq<A>, b: Seq<B>, k: int, out: bool) -> bool {
    exists|o: bool| #[trigger] eq_at(a, b, k, o) && out == !o
}

/// Whether `partial_cmp_at` holds of a result, and `out` says whether that
/// result is `Less`.
pub open spec fn lt_at<A: PartialOrd<B>, B>(a: Seq<A>, b: Seq<B>, k: int, out: bool) -> bool {
    exists|o: Option<Ordering>|
        #[trigger] partial_cmp_at(a, b, k, o) && out == (o == Some(Ordering::Less))
}

/// Whether `partial_cmp_at` holds of a result, and `out` says whether that
/// result is `Less` or `Equal`.
pub open spec fn le_at<A: PartialOrd<B>, B>(a: Seq<A>, b: Seq<B>, k: int, out: bool) -> bool {
    exists|o: Option<Ordering>|
        #[trigger] partial_cmp_at(a, b, k, o) && out == (o == Some(Ordering::Less) || o == Some(
            Ordering::Equal,
        ))
}

/// Whether `partial_cmp_at` holds of a result, and `out` says whether that
/// result is `Greater`.
pub open spec fn gt_at<A: PartialOrd<B>, B>(a: Seq<A>, b: Seq<B>, k: int, out: bool) -> bool {
    exists|o: Option<Ordering>|
        #[trigger] partial_cmp_at(a, b, k, o) && out == (o == Some(Ordering::Greater))
}

/// Whether `partial_cmp_at` holds of a result, and `out` says whether that
/// result is `Greater` or `Equal`.
pub open spec fn ge_at<A: PartialOrd<B>, B>(a: Seq<A>, b: Seq<B>, k: int, out: bool) -> bool {
    exists|o: Option<Ordering>|
        #[trigger] partial_cmp_at(a, b, k, o) && out == (o == Some(Ordering::Greater) || o
            == Some(Ordering::Equal))
}

/// Comparisons of two lending iterators, element by element: the elements
/// are compared pair by pair, up to the first pair that decides or to the end
/// of one iterator. Both iterators are used up as far as that.
///
/// Each method says which calls of `next` were made on the two iterators,
/// each on what the call before left, what they lent, and what was found in
/// what they lent: `lent` of the results stands where the elements of a
/// lawful iterator would. Of two lawful iterators it also says so over their
/// elements. Every lending iterator has these methods.
pub trait LendingCompare: LendingIterator {
    /// Lexicographically compares the elements of this iterator with those of
    /// another.
    fn cmp<I>(self, other: I) -> (ret: Ordering) where
        Self: Sized,
        Self: 'static,
        I: for <'a>LendingIterator<Item<'a> = Self::Item<'a>> + 'static,
        for <'a>Self::Item<'a>: Ord,

        requires
            self.wf(),
            other.wf(),
        ensures
            exists|
                ma: Seq<&mut Self>,
                xa: Seq<Option<Self::Item<'_>>>,
                mb: Seq<&mut I>,
                xb: Seq<Option<I::Item<'_>>>,
            |
                #![trigger ma.len(), xa.len(), mb.len(), xb.len()]
                ma.len() == xa.len()
                    && (ma.len() > 0 ==> &*ma[0] == &self)
                    && (forall|i: int| 0 <= i < ma.len() - 1 ==> &*#[trigger] ma[i + 1]
                        == &*final(ma[i]))
                    && (forall|i: int|
                        0 <= i < ma.len() ==> call_ensures(Self::next, (#[trigger] ma[i],), xa[i]))
                    && mb.len() == xb.len()
                    && (mb.len() > 0 ==> &*mb[0] == &other)
                    && (forall|i: int| 0 <= i < mb.len() - 1 ==> &*#[trigger] mb[i + 1]
                        == &*final(mb[i]))
                    && (forall|i: int|
                        0 <= i < mb.len() ==> call_ensures(I::next, (#[trigger] mb[i],), xb[i]))
                    && xa.len() == xb.len() && lends_on(xa) && lends_on(xb) && cmp_at(
                        lent(xa),
                        lent(xb),
                        xa.len() - 1,
                        ret,
                    ),
            self.lawful() && other.lawful() ==> exists|k: int|
                #[trigger] cmp_at(self.remaining(), other.remaining(), k, ret),
    {
        let mut a = self;
        let mut b = other;
        let ghost mut k: int = 0;
        proof {
            let ma = Seq::<&mut Self>::empty();
            let xa = Seq::<Option<Self::Item<'_>>>::empty();
            let mb = Seq::<&mut I>::empty();
            let xb = Seq::<Option<I::Item<'_>>>::empty();
            assert(ma.len() == 0 && xa.len() == 0 && mb.len() == 0 && xb.len() == 0);
        }
        loop
            invariant
                a.wf(),
                b.wf(),
                self.lawful() ==> a.lawful(),
                other.lawful() ==> b.lawful(),
                0 <= k,
                self.lawful() ==> k <= self.remaining().len() && a.remaining()
                    == self.remaining().skip(k),
                other.lawful() ==> k <= other.remaining().len() && b.remaining()
                    == other.remaining().skip(k),
                self.lawful() && other.lawful() ==> forall|i: int|
                    0 <= i < k ==> call_ensures(
                        <Self::Item<'_>>::cmp,
                        (&#[trigger] self.remaining()[i], &other.remaining()[i]),
                        Ordering::Equal,
                    ),
                exists|
                    ma: Seq<&mut Self>,
                    xa: Seq<Option<Self::Item<'_>>>,
                    mb: Seq<&mut I>,
                    xb: Seq<Option<I::Item<'_>>>,
                |
                    #![trigger ma.len(), xa.len(), mb.len(), xb.len()]
                    ma.len() == k && xa.len() == k
                    && (k > 0 ==> &*ma[0] == &self && &*final(ma[k - 1]) == &a)
                    && (k == 0 ==> &a == &self)
                    && (forall|i: int| 0 <= i < k - 1 ==> &*#[trigger] ma[i + 1] == &*final(ma[i]))
                    && (forall|i: int|
                        0 <= i < k ==> call_ensures(Self::next, (#[trigger] ma[i],), xa[i]))
                    && mb.len() == k && xb.len() == k
                    && (k > 0 ==> &*mb[0] == &other && &*final(mb[k - 1]) == &b)
                    && (k == 0 ==> &b == &other)
                    && (forall|i: int| 0 <= i < k - 1 ==> &*#[trigger] mb[i + 1] == &*final(mb[i]))
                    && (forall|i: int|
                        0 <= i < k ==> call_ensures(I::next, (#[trigger] mb[i],), xb[i]))
                    && (forall|i: int|
                        0 <= i < k ==> (#[trigger] xa[i]) is Some && xb[i] is Some
                            && call_ensures(
                                <Self::Item<'_>>::cmp,
                                (&xa[i]->0, &xb[i]->0),
                                Ordering::Equal,
                            )),
            decreases a.bound(),
        {
            proof {
                if self.lawful() && a.remaining().len() > 0 {
                    assert(a.remaining()[0] == self.remaining()[k]);
                    assert(self.remaining().contains(a.remaining()[0]));
                    assert(a.remaining().drop_first() =~= self.remaining().skip(k + 1));
                }
                if other.lawful() && b.remaining().len() > 0 {
                    assert(b.remaining()[0] == other.remaining()[k]);
                    assert(other.remaining().contains(b.remaining()[0]));
                    assert(b.remaining().drop_first() =~= other.remaining().skip(k + 1));
                }
            }
            let ghost a0 = a;
            let ghost b0 = b;
            let ra = a.next();
            let ghost rag = ra;
            let rb = b.next();
            let ghost rbg = rb;
            proof {
                let sa = choose|m: &mut Self|
                    &*m == &a0 && &*final(m) == &after_borrow(a)
                        && call_ensures(Self::next, (m,), rag);
                let sb = choose|m: &mut I|
                    &*m == &b0 && &*final(m) == &after_borrow(b)
                        && call_ensures(I::next, (m,), rbg);
                let (ma, xa, mb, xb) = choose|
                    ma: Seq<&mut Self>,
                    xa: Seq<Option<Self::Item<'_>>>,
                    mb: Seq<&mut I>,
                    xb: Seq<Option<I::Item<'_>>>,
                |
                    #![trigger ma.len(), xa.len(), mb.len(), xb.len()]
                    ma.len() == k && xa.len() == k
                    && (k > 0 ==> &*ma[0] == &self && &*final(ma[k - 1]) == &a0)
                    && (k == 0 ==> &a0 == &self)
                    && (forall|i: int| 0 <= i < k - 1 ==> &*#[trigger] ma[i + 1] == &*final(ma[i]))
                    && (forall|i: int|
                        0 <= i < k ==> call_ensures(Self::next, (#[trigger] ma[i],), xa[i]))
                    && mb.len() == k && xb.len() == k
                    && (k > 0 ==> &*mb[0] == &other && &*final(mb[k - 1]) == &b0)
                    && (k == 0 ==> &b0 == &other)
                    && (forall|i: int| 0 <= i < k - 1 ==> &*#[trigger] mb[i + 1] == &*final(mb[i]))
                    && (forall|i: int|
                        0 <= i < k ==> call_ensures(I::next, (#[trigger] mb[i],), xb[i]))
                    && (forall|i: int|
                        0 <= i < k ==> (#[trigger] xa[i]) is Some && xb[i] is Some
                            && call_ensures(
                                <Self::Item<'_>>::cmp,
                                (&xa[i]->0, &xb[i]->0),
                                Ordering::Equal,
                            ));
                lemma_trace_push(
                    ma,
                    xa,
                    sa,
                    rag,
                    &self,
                    &after_borrow(a),
                    |m: &mut Self, r: Option<Self::Item<'_>>| call_ensures(Self::next, (m,), r),
                );
                lemma_trace_push(
                    mb,
                    xb,
                    sb,
                    rbg,
                    &other,
                    &after_borrow(b),
                    |m: &mut I, r: Option<I::Item<'_>>| call_ensures(I::next, (m,), r),
                );
                let xa2 = xa.push(rag);
                let xb2 = xb.push(rbg);
                assert(ma.push(sa).len() == k + 1 && mb.push(sb).len() == k + 1);
                assert(xa2[k] == rag && xb2[k] == rbg);
                assert forall|i: int| 0 <= i < k implies (#[trigger] xa2[i]) is Some
                    && xb2[i] is Some
                    && call_ensures(
                        <Self::Item<'_>>::cmp,
                        (&xa2[i]->0, &xb2[i]->0),
                        Ordering::Equal,
                    ) by {
                    assert(xa2[i] == xa[i] && xb2[i] == xb[i]);
                }
                assert(lends_on(xa2));
                assert(lends_on(xb2)) by {
                    assert forall|i: int| 0 <= i < k implies (#[trigger] xb2[i]) is Some by {
                        assert(xa2[i] is Some);
                    }
                }
                assert forall|i: int| 0 <= i < k implies call_ensures(
                    <Self::Item<'_>>::cmp,
                    (&#[trigger] lent(xa2)[i], &lent(xb2)[i]),
                    Ordering::Equal,
                ) by {
                    assert(xa2[i] is Some);
                }
                assert(rag is Some ==> lent(xa2).len() == k + 1 && lent(xa2)[k] == rag->0);
                assert(rbg is Some ==> lent(xb2).len() == k + 1 && lent(xb2)[k] == rbg->0);
                assert(rag is None ==> lent(xa2).len() == k);
                assert(rbg is None ==> lent(xb2).len() == k);
            }
            match ra {
                Some(x) => match rb {
                    Some(y) => {
                        let o = x.cmp(&y);
                        match o {
                            Ordering::Equal => {},
                            _ => {
                                assert(self.lawful() && other.lawful() ==> cmp_at(
                                    self.remaining(),
                                    other.remaining(),
                                    k,
                                    o,
                                ));
                                return o;
                            },
                        }
                        proof {
                            k = k + 1;
                        }
                    },
                    None => {
                        assert(self.lawful() && other.lawful() ==> cmp_at(
                            self.remaining(),
                            other.remaining(),
                            k,
                            Ordering::Greater,
                        ));
                        return Ordering::Greater;
                    },
                },
                None => {
                    let o = if rb.is_none() {
                        Ordering::Equal
                    } else {
                        Ordering::Less
                    };
                    assert(self.lawful() && other.lawful() ==> cmp_at(
                        self.remaining(),
                        other.remaining(),
                        k,
                        o,
                    ));
                    return o;
                },
            }
        }
    }

    /// Lexicographically compares the elements of this iterator with those of
    /// another with respect to the specified comparison function.
    fn cmp_by<I, F>(self, other: I, compare: F) -> (ret: Ordering) where
        Self: Sized,
        I: LendingIterator,
        F: FnMut(Self::Item<'_>, I::Item<'_>) -> Ordering,

        requires
            self.wf(),
            other.wf(),
            forall|x: Self::Item<'_>, y: I::Item<'_>|
                (self.lawful() ==> self.remaining().contains(x)) && (other.lawful()
                    ==> other.remaining().contains(y)) && self.lends(x) && other.lends(y)
                    ==> #[trigger] call_requires(compare, (x, y)),
        ensures
            exists|
                ma: Seq<&mut Self>,
                xa: Seq<Option<Self::Item<'_>>>,
                mb: Seq<&mut I>,
                xb: Seq<Option<I::Item<'_>>>,
            |
                #![trigger ma.len(), xa.len(), mb.len(), xb.len()]
                ma.len() == xa.len()
                    && (ma.len() > 0 ==> &*ma[0] == &self)
                    && (forall|i: int| 0 <= i < ma.len() - 1 ==> &*#[trigger] ma[i + 1]
                        == &*final(ma[i]))
                    && (forall|i: int|
                        0 <= i < ma.len() ==> call_ensures(Self::next, (#[trigger] ma[i],), xa[i]))
                    && mb.len() == xb.len()
                    && (mb.len() > 0 ==> &*mb[0] == &other)
                    && (forall|i: int| 0 <= i < mb.len() - 1 ==> &*#[trigger] mb[i + 1]
                        == &*final(mb[i]))
                    && (forall|i: int|
                        0 <= i < mb.len() ==> call_ensures(I::next, (#[trigger] mb[i],), xb[i]))
                    && xa.len() == xb.len() && lends_on(xa) && lends_on(xb) && cmp_by_at(
                        lent(xa),
                        lent(xb),
                        compare, xa.len() - 1,
                        ret,
                    ),
            self.lawful() && other.lawful() ==> exists|k: int|
                #[trigger] cmp_by_at(self.remaining(), other.remaining(), compare, k, ret),
    {
        let mut a = self;
        let mut b = other;
        let mut g = compare;
        let ghost mut k: int = 0;
        proof {
            let ma = Seq::<&mut Self>::empty();
            let xa = Seq::<Option<Self::Item<'_>>>::empty();
            let mb = Seq::<&mut I>::empty();
            let xb = Seq::<Option<I::Item<'_>>>::empty();
            assert(ma.len() == 0 && xa.len() == 0 && mb.len() == 0 && xb.len() == 0);
        }
        loop
            invariant
                a.wf(),
                b.wf(),
                g == compare,
                forall|x: Self::Item<'_>, y: I::Item<'_>|
                    (self.lawful() ==> self.remaining().contains(x)) && (other.lawful()
                        ==> other.remaining().contains(y)) && self.lends(x) && other.lends(y)
                        ==> #[trigger] call_requires(compare, (x, y)),
                forall|x: Self::Item<'_>| #[trigger] a.lends(x) ==> self.lends(x),
                forall|y: I::Item<'_>| #[trigger] b.lends(y) ==> other.lends(y),
                self.lawful() ==> a.lawful(),
                other.lawful() ==> b.lawful(),
                0 <= k,
                self.lawful() ==> k <= self.remaining().len() && a.remaining()
                    == self.remaining().skip(k),
                other.lawful() ==> k <= other.remaining().len() && b.remaining()
                    == other.remaining().skip(k),
                self.lawful() && other.lawful() ==> forall|i: int|
                    0 <= i < k ==> call_ensures(
                        compare,
                        (#[trigger] self.remaining()[i], other.remaining()[i]),
                        Ordering::Equal,
                    ),
                exists|
                    ma: Seq<&mut Self>,
                    xa: Seq<Option<Self::Item<'_>>>,
                    mb: Seq<&mut I>,
                    xb: Seq<Option<I::Item<'_>>>,
                |
                    #![trigger ma.len(), xa.len(), mb.len(), xb.len()]
                    ma.len() == k && xa.len() == k
                    && (k > 0 ==> &*ma[0] == &self && &*final(ma[k - 1]) == &a)
                    && (k == 0 ==> &a == &self)
                    && (forall|i: int| 0 <= i < k - 1 ==> &*#[trigger] ma[i + 1] == &*final(ma[i]))
                    && (forall|i: int|
                        0 <= i < k ==> call_ensures(Self::next, (#[trigger] ma[i],), xa[i]))
                    && mb.len() == k && xb.len() == k
                    && (k > 0 ==> &*mb[0] == &other && &*final(mb[k - 1]) == &b)
                    && (k == 0 ==> &b == &other)
                    && (forall|i: int| 0 <= i < k - 1 ==> &*#[trigger] mb[i + 1] == &*final(mb[i]))
                    && (forall|i: int|
                        0 <= i < k ==> call_ensures(I::next, (#[trigger] mb[i],), xb[i]))
                    && (forall|i: int|
                        0 <= i < k ==> (#[trigger] xa[i]) is Some && xb[i] is Some
                            && call_ensures(compare, (xa[i]->0, xb[i]->0), Ordering::Equal)),
            decreases a.bound(),
        {
            proof {
                if self.lawful() && a.remaining().len() > 0 {
                    assert(a.remaining()[0] == self.remaining()[k]);
                    assert(self.remaining().contains(a.remaining()[0]));
                    assert(a.remaining().drop_first() =~= self.remaining().skip(k + 1));
                }
                if other.lawful() && b.remaining().len() > 0 {
                    assert(b.remaining()[0] == other.remaining()[k]);
                    assert(other.remaining().contains(b.remaining()[0]));
                    assert(b.remaining().drop_first() =~= other.remaining().skip(k + 1));
                }
            }
            let ghost a0 = a;
            let ghost b0 = b;
            let ra = a.next();
            let ghost rag = ra;
            let rb = b.next();
            let ghost rbg = rb;
            proof {
                let sa = choose|m: &mut Self|
                    &*m == &a0 && &*final(m) == &after_borrow(a)
                        && call_ensures(Self::next, (m,), rag);
                let sb = choose|m: &mut I|
                    &*m == &b0 && &*final(m) == &after_borrow(b)
                        && call_ensures(I::next, (m,), rbg);
                let (ma, xa, mb, xb) = choose|
                    ma: Seq<&mut Self>,
                    xa: Seq<Option<Self::Item<'_>>>,
                    mb: Seq<&mut I>,
                    xb: Seq<Option<I::Item<'_>>>,
                |
                    #![trigger ma.len(), xa.len(), mb.len(), xb.len()]
                    ma.len() == k && xa.len() == k
                    && (k > 0 ==> &*ma[0] == &self && &*final(ma[k - 1]) == &a0)
                    && (k == 0 ==> &a0 == &self)
                    && (forall|i: int| 0 <= i < k - 1 ==> &*#[trigger] ma[i + 1] == &*final(ma[i]))
                    && (forall|i: int|
                        0 <= i < k ==> call_ensures(Self::next, (#[trigger] ma[i],), xa[i]))
                    && mb.len() == k && xb.len() == k
                    && (k > 0 ==> &*mb[0] == &other && &*final(mb[k - 1]) == &b0)
                    && (k == 0 ==> &b0 == &other)
                    && (forall|i: int| 0 <= i < k - 1 ==> &*#[trigger] mb[i + 1] == &*final(mb[i]))
                    && (forall|i: int|
                        0 <= i < k ==> call_ensures(I::next, (#[trigger] mb[i],), xb[i]))
                    && (forall|i: int|
                        0 <= i < k ==> (#[trigger] xa[i]) is Some && xb[i] is Some
                            && call_ensures(compare, (xa[i]->0, xb[i]->0), Ordering::Equal));
                lemma_trace_push(
                    ma,
                    xa,
                    sa,
                    rag,
                    &self,
                    &after_borrow(a),
                    |m: &mut Self, r: Option<Self::Item<'_>>| call_ensures(Self::next, (m,), r),
                );
                lemma_trace_push(
                    mb,
                    xb,
                    sb,
                    rbg,
                    &other,
                    &after_borrow(b),
                    |m: &mut I, r: Option<I::Item<'_>>| call_ensures(I::next, (m,), r),
                );
                let xa2 = xa.push(rag);
                let xb2 = xb.push(rbg);
                assert(ma.push(sa).len() == k + 1 && mb.push(sb).len() == k + 1);
                assert(xa2[k] == rag && xb2[k] == rbg);
                assert forall|i: int| 0 <= i < k implies (#[trigger] xa2[i]) is Some
                    && xb2[i] is Some
                    && call_ensures(compare, (xa2[i]->0, xb2[i]->0), Ordering::Equal) by {
                    assert(xa2[i] == xa[i] && xb2[i] == xb[i]);
                }
                assert(lends_on(xa2));
                assert(lends_on(xb2)) by {
                    assert forall|i: int| 0 <= i < k implies (#[trigger] xb2[i]) is Some by {
                        assert(xa2[i] is Some);
                    }
                }
                assert forall|i: int| 0 <= i < k implies call_ensures(
                    compare,
                    (#[trigger] lent(xa2)[i], lent(xb2)[i]),
                    Ordering::Equal,
                ) by {
                    assert(xa2[i] is Some);
                }
                assert(rag is Some ==> lent(xa2).len() == k + 1 && lent(xa2)[k] == rag->0);
                assert(rbg is Some ==> lent(xb2).len() == k + 1 && lent(xb2)[k] == rbg->0);
                assert(rag is None ==> lent(xa2).len() == k);
                assert(rbg is None ==> lent(xb2).len() == k);
            }
            match ra {
                Some(x) => match rb {
                    Some(y) => {
                        let o = g(x, y);
                        match o {
                            Ordering::Equal => {},
                            _ => {
                                assert(self.lawful() && other.lawful() ==> cmp_by_at(
                                    self.remaining(),
                                    other.remaining(),
                                    compare, k,
                                    o,
                                ));
                                return o;
                            },
                        }
                        proof {
                            k = k + 1;
                        }
                    },
                    None => {
                        assert(self.lawful() && other.lawful() ==> cmp_by_at(
                            self.remaining(),
                            other.remaining(),
                            compare, k,
                            Ordering::Greater,
                        ));
                        return Ordering::Greater;
                    },
                },
                None => {
                    let o = if rb.is_none() {
                        Ordering::Equal
                    } else {
                        Ordering::Less
                    };
                    assert(self.lawful() && other.lawful() ==> cmp_by_at(
                        self.remaining(),
                        other.remaining(),
                        compare, k,
                        o,
                    ));
                    return o;
                },
            }
        }
    }

    /// Lexicographically compares the elements of this iterator with those of
    /// another, as far as they can be compared. The comparison ends at the
    /// first pair that is not equal.
    fn partial_cmp<I>(self, other: I) -> (ret: Option<Ordering>) where
        Self: Sized,
        I: LendingIterator,
        for <'a>Self::Item<'a>: PartialOrd<I::Item<'a>>,

        requires
            self.wf(),
            other.wf(),
        ensures
            exists|
                ma: Seq<&mut Self>,
                xa: Seq<Option<Self::Item<'_>>>,
                mb: Seq<&mut I>,
                xb: Seq<Option<I::Item<'_>>>,
            |
                #![trigger ma.len(), xa.len(), mb.len(), xb.len()]
                ma.len() == xa.len()
                    && (ma.len() > 0 ==> &*ma[0] == &self)
                    && (forall|i: int| 0 <= i < ma.len() - 1 ==> &*#[trigger] ma[i + 1]
                        == &*final(ma[i]))
                    && (forall|i: int|
                        0 <= i < ma.len() ==> call_ensures(Self::next, (#[trigger] ma[i],), xa[i]))
                    && mb.len() == xb.len()
                    && (mb.len() > 0 ==> &*mb[0] == &other)
                    && (forall|i: int| 0 <= i < mb.len() - 1 ==> &*#[trigger] mb[i + 1]
                        == &*final(mb[i]))
                    && (forall|i: int|
                        0 <= i < mb.len() ==> call_ensures(I::next, (#[trigger] mb[i],), xb[i]))
                    && xa.len() == xb.len() && lends_on(xa) && lends_on(xb) && partial_cmp_at(
                        lent(xa),
                        lent(xb),
                        xa.len() - 1,
                        ret,
                    ),
            self.lawful() && other.lawful() ==> exists|k: int|
                #[trigger] partial_cmp_at(self.remaining(), other.remaining(), k, ret),
    {
        let mut a = self;
        let mut b = other;
        let ghost mut k: int = 0;
        proof {
            let ma = Seq::<&mut Self>::empty();
            let xa = Seq::<Option<Self::Item<'_>>>::empty();
            let mb = Seq::<&mut I>::empty();
            let xb = Seq::<Option<I::Item<'_>>>::empty();
            assert(ma.len() == 0 && xa.len() == 0 && mb.len() == 0 && xb.len() == 0);
        }
        loop
            invariant
                a.wf(),
                b.wf(),
                self.lawful() ==> a.lawful(),
                other.lawful() ==> b.lawful(),
                0 <= k,
                self.lawful() ==> k <= self.remaining().len() && a.remaining()
                    == self.remaining().skip(k),
                other.lawful() ==> k <= other.remaining().len() && b.remaining()
                    == other.remaining().skip(k),
                self.lawful() && other.lawful() ==> forall|i: int|
                    0 <= i < k ==> call_ensures(
                        <Self::Item<'_>>::partial_cmp,
                        (&#[trigger] self.remaining()[i], &other.remaining()[i]),
                        Some(Ordering::Equal),
                    ),
                exists|
                    ma: Seq<&mut Self>,
                    xa: Seq<Option<Self::Item<'_>>>,
                    mb: Seq<&mut I>,
                    xb: Seq<Option<I::Item<'_>>>,
                |
                    #![trigger ma.len(), xa.len(), mb.len(), xb.len()]
                    ma.len() == k && xa.len() == k
                    && (k > 0 ==> &*ma[0] == &self && &*final(ma[k - 1]) == &a)
                    && (k == 0 ==> &a == &self)
                    && (forall|i: int| 0 <= i < k - 1 ==> &*#[trigger] ma[i + 1] == &*final(ma[i]))
                    && (forall|i: int|
                        0 <= i < k ==> call_ensures(Self::next, (#[trigger] ma[i],), xa[i]))
                    && mb.len() == k && xb.len() == k
                    && (k > 0 ==> &*mb[0] == &other && &*final(mb[k - 1]) == &b)
                    && (k == 0 ==> &b == &other)
                    && (forall|i: int| 0 <= i < k - 1 ==> &*#[trigger] mb[i + 1] == &*final(mb[i]))
                    && (forall|i: int|
                        0 <= i < k ==> call_ensures(I::next, (#[trigger] mb[i],), xb[i]))
                    && (forall|i: int|
                        0 <= i < k ==> (#[trigger] xa[i]) is Some && xb[i] is Some
                            && call_ensures(
                                <Self::Item<'_>>::partial_cmp,
                                (&xa[i]->0, &xb[i]->0),
                                Some(Ordering::Equal),
                            )),
            decreases a.bound(),
        {
            proof {
                if self.lawful() && a.remaining().len() > 0 {
                    assert(a.remaining()[0] == self.remaining()[k]);
                    assert(self.remaining().contains(a.remaining()[0]));
                    assert(a.remaining().drop_first() =~= self.remaining().skip(k + 1));
                }
                if other.lawful() && b.remaining().len() > 0 {
                    assert(b.remaining()[0] == other.remaining()[k]);
                    assert(other.remaining().contains(b.remaining()[0]));
                    assert(b.remaining().drop_first() =~= other.remaining().skip(k + 1));
                }
            }
            let ghost a0 = a;
            let ghost b0 = b;
            let ra = a.next();
            let ghost rag = ra;
            let rb = b.next();
            let ghost rbg = rb;
            proof {
                let sa = choose|m: &mut Self|
                    &*m == &a0 && &*final(m) == &after_borrow(a)
                        && call_ensures(Self::next, (m,), rag);
                let sb = choose|m: &mut I|
                    &*m == &b0 && &*final(m) == &after_borrow(b)
                        && call_ensures(I::next, (m,), rbg);
                let (ma, xa, mb, xb) = choose|
                    ma: Seq<&mut Self>,
                    xa: Seq<Option<Self::Item<'_>>>,
                    mb: Seq<&mut I>,
                    xb: Seq<Option<I::Item<'_>>>,
                |
                    #![trigger ma.len(), xa.len(), mb.len(), xb.len()]
                    ma.len() == k && xa.len() == k
                    && (k > 0 ==> &*ma[0] == &self && &*final(ma[k - 1]) == &a0)
                    && (k == 0 ==> &a0 == &self)
                    && (forall|i: int| 0 <= i < k - 1 ==> &*#[trigger] ma[i + 1] == &*final(ma[i]))
                    && (forall|i: int|
                        0 <= i < k ==> call_ensures(Self::next, (#[trigger] ma[i],), xa[i]))
                    && mb.len() == k && xb.len() == k
                    && (k > 0 ==> &*mb[0] == &other && &*final(mb[k - 1]) == &b0)
                    && (k == 0 ==> &b0 == &other)
                    && (forall|i: int| 0 <= i < k - 1 ==> &*#[trigger] mb[i + 1] == &*final(mb[i]))
                    && (forall|i: int|
                        0 <= i < k ==> call_ensures(I::next, (#[trigger] mb[i],), xb[i]))
                    && (forall|i: int|
                        0 <= i < k ==> (#[trigger] xa[i]) is Some && xb[i] is Some
                            && call_ensures(
                                <Self::Item<'_>>::partial_cmp,
                                (&xa[i]->0, &xb[i]->0),
                                Some(Ordering::Equal),
                            ));
                lemma_trace_push(
                    ma,
                    xa,
                    sa,
                    rag,
                    &self,
                    &after_borrow(a),
                    |m: &mut Self, r: Option<Self::Item<'_>>| call_ensures(Self::next, (m,), r),
                );
                lemma_trace_push(
                    mb,
                    xb,
                    sb,
                    rbg,
                    &other,
                    &after_borrow(b),
                    |m: &mut I, r: Option<I::Item<'_>>| call_ensures(I::next, (m,), r),
                );
                let xa2 = xa.push(rag);
                let xb2 = xb.push(rbg);
                assert(ma.push(sa).len() == k + 1 && mb.push(sb).len() == k + 1);
                assert(xa2[k] == rag && xb2[k] == rbg);
                assert forall|i: int| 0 <= i < k implies (#[trigger] xa2[i]) is Some
                    && xb2[i] is Some
                    && call_ensures(
                        <Self::Item<'_>>::partial_cmp,
                        (&xa2[i]->0, &xb2[i]->0),
                        Some(Ordering::Equal),
                    ) by {
                    assert(xa2[i] == xa[i] && xb2[i] == xb[i]);
                }
                assert(lends_on(xa2));
                assert(lends_on(xb2)) by {
                    assert forall|i: int| 0 <= i < k implies (#[trigger] xb2[i]) is Some by {
                        assert(xa2[i] is Some);
                    }
                }
                assert forall|i: int| 0 <= i < k implies call_ensures(
                    <Self::Item<'_>>::partial_cmp,
                    (&#[trigger] lent(xa2)[i], &lent(xb2)[i]),
                    Some(Ordering::Equal),
                ) by {
                    assert(xa2[i] is Some);
                }
                assert(rag is Some ==> lent(xa2).len() == k + 1 && lent(xa2)[k] == rag->0);
                assert(rbg is Some ==> lent(xb2).len() == k + 1 && lent(xb2)[k] == rbg->0);
                assert(rag is None ==> lent(xa2).len() == k);
                assert(rbg is None ==> lent(xb2).len() == k);
            }
            match ra {
                Some(x) => match rb {
                    Some(y) => {
                        let o = x.partial_cmp(&y);
                        match o {
                            Some(Ordering::Equal) => {},
                            _ => {
                                assert(self.lawful() && other.lawful() ==> partial_cmp_at(
                                    self.remaining(),
                                    other.remaining(),
                                    k,
                                    o,
                                ));
                                return o;
                            },
                        }
                        proof {
                            k = k + 1;
                        }
                    },
                    None => {
                        assert(self.lawful() && other.lawful() ==> partial_cmp_at(
                            self.remaining(),
                            other.remaining(),
                            k,
                            Some(Ordering::Greater),
                        ));
                        return Some(Ordering::Greater);
                    },
                },
                None => {
                    let o = if rb.is_none() {
                        Some(Ordering::Equal)
                    } else {
                        Some(Ordering::Less)
                    };
                    assert(self.lawful() && other.lawful() ==> partial_cmp_at(
                        self.remaining(),
                        other.remaining(),
                        k,
                        o,
                    ));
                    return o;
                },
            }
        }
    }

    /// Lexicographically compares the elements of this iterator with those of
    /// another with respect to the specified comparison function, which may
    /// find two elements not comparable.
    fn partial_cmp_by<I, F>(self, other: I, compare: F) -> (ret: Option<Ordering>) where
        Self: Sized,
        I: LendingIterator,
        F: FnMut(Self::Item<'_>, I::Item<'_>) -> Option<Ordering>,

        requires
            self.wf(),
            other.wf(),
            forall|x: Self::Item<'_>, y: I::Item<'_>|
                (self.lawful() ==> self.remaining().contains(x)) && (other.lawful()
                    ==> other.remaining().contains(y)) && self.lends(x) && other.lends(y)
                    ==> #[trigger] call_requires(compare, (x, y)),
        ensures
            exists|
                ma: Seq<&mut Self>,
                xa: Seq<Option<Self::Item<'_>>>,
                mb: Seq<&mut I>,
                xb: Seq<Option<I::Item<'_>>>,
            |
                #![trigger ma.len(), xa.len(), mb.len(), xb.len()]
                ma.len() == xa.len()
                    && (ma.len() > 0 ==> &*ma[0] == &self)
                    && (forall|i: int| 0 <= i < ma.len() - 1 ==> &*#[trigger] ma[i + 1]
                        == &*final(ma[i]))
                    && (forall|i: int|
                        0 <= i < ma.len() ==> call_ensures(Self::next, (#[trigger] ma[i],), xa[i]))
                    && mb.len() == xb.len()
                    && (mb.len() > 0 ==> &*mb[0] == &other)
                    && (forall|i: int| 0 <= i < mb.len() - 1 ==> &*#[trigger] mb[i + 1]
                        == &*final(mb[i]))
                    && (forall|i: int|
                        0 <= i < mb.len() ==> call_ensures(I::next, (#[trigger] mb[i],), xb[i]))
                    && xa.len() == xb.len() && lends_on(xa) && lends_on(xb) && partial_cmp_by_at(
                        lent(xa),
                        lent(xb),
                        compare, xa.len() - 1,
                        ret,
                    ),
            self.lawful() && other.lawful() ==> exists|k: int|
                #[trigger] partial_cmp_by_at(self.remaining(), other.remaining(), compare, k, ret),
    {
        let mut a = self;
        let mut b = other;
        let mut g = compare;
        let ghost mut k: int = 0;
        proof {
            let ma = Seq::<&mut Self>::empty();
            let xa = Seq::<Option<Self::Item<'_>>>::empty();
            let mb = Seq::<&mut I>::empty();
            let xb = Seq::<Option<I::Item<'_>>>::empty();
            assert(ma.len() == 0 && xa.len() == 0 && mb.len() == 0 && xb.len() == 0);
        }
        loop
            invariant
                a.wf(),
                b.wf(),
                g == compare,
                forall|x: Self::Item<'_>, y: I::Item<'_>|
                    (self.lawful() ==> self.remaining().contains(x)) && (other.lawful()
                        ==> other.remaining().contains(y)) && self.lends(x) && other.lends(y)
                        ==> #[trigger] call_requires(compare, (x, y)),
                forall|x: Self::Item<'_>| #[trigger] a.lends(x) ==> self.lends(x),
                forall|y: I::Item<'_>| #[trigger] b.lends(y) ==> other.lends(y),
                self.lawful() ==> a.lawful(),
                other.lawful() ==> b.lawful(),
                0 <= k,
                self.lawful() ==> k <= self.remaining().len() && a.remaining()
                    == self.remaining().skip(k),
                other.lawful() ==> k <= other.remaining().len() && b.remaining()
                    == other.remaining().skip(k),
                self.lawful() && other.lawful() ==> forall|i: int|
                    0 <= i < k ==> call_ensures(
                        compare,
                        (#[trigger] self.remaining()[i], other.remaining()[i]),
                        Some(Ordering::Equal),
                    ),
                exists|
                    ma: Seq<&mut Self>,
                    xa: Seq<Option<Self::Item<'_>>>,
                    mb: Seq<&mut I>,
                    xb: Seq<Option<I::Item<'_>>>,
                |
                    #![trigger ma.len(), xa.len(), mb.len(), xb.len()]
                    ma.len() == k && xa.len() == k
                    && (k > 0 ==> &*ma[0] == &self && &*final(ma[k - 1]) == &a)
                    && (k == 0 ==> &a == &self)
                    && (forall|i: int| 0 <= i < k - 1 ==> &*#[trigger] ma[i + 1] == &*final(ma[i]))
                    && (forall|i: int|
                        0 <= i < k ==> call_ensures(Self::next, (#[trigger] ma[i],), xa[i]))
                    && mb.len() == k && xb.len() == k
                    && (k > 0 ==> &*mb[0] == &other && &*final(mb[k - 1]) == &b)
                    && (k == 0 ==> &b == &other)
                    && (forall|i: int| 0 <= i < k - 1 ==> &*#[trigger] mb[i + 1] == &*final(mb[i]))
                    && (forall|i: int|
                        0 <= i < k ==> call_ensures(I::next, (#[trigger] mb[i],), xb[i]))
                    && (forall|i: int|
                        0 <= i < k ==> (#[trigger] xa[i]) is Some && xb[i] is Some
                            && call_ensures(compare, (xa[i]->0, xb[i]->0), Some(Ordering::Equal))),
            decreases a.bound(),
        {
            proof {
                if self.lawful() && a.remaining().len() > 0 {
                    assert(a.remaining()[0] == self.remaining()[k]);
                    assert(self.remaining().contains(a.remaining()[0]));
                    assert(a.remaining().drop_first() =~= self.remaining().skip(k + 1));
                }
                if other.lawful() && b.remaining().len() > 0 {
                    assert(b.remaining()[0] == other.remaining()[k]);
                    assert(other.remaining().contains(b.remaining()[0]));
                    assert(b.remaining().drop_first() =~= other.remaining().skip(k + 1));
                }
            }
            let ghost a0 = a;
            let ghost b0 = b;
            let ra = a.next();
            let ghost rag = ra;
            let rb = b.next();
            let ghost rbg = rb;
            proof {
                let sa = choose|m: &mut Self|
                    &*m == &a0 && &*final(m) == &after_borrow(a)
                        && call_ensures(Self::next, (m,), rag);
                let sb = choose|m: &mut I|
                    &*m == &b0 && &*final(m) == &after_borrow(b)
                        && call_ensures(I::next, (m,), rbg);
                let (ma, xa, mb, xb) = choose|
                    ma: Seq<&mut Self>,
                    xa: Seq<Option<Self::Item<'_>>>,
                    mb: Seq<&mut I>,
                    xb: Seq<Option<I::Item<'_>>>,
                |
                    #![trigger ma.len(), xa.len(), mb.len(), xb.len()]
                    ma.len() == k && xa.len() == k
                    && (k > 0 ==> &*ma[0] == &self && &*final(ma[k - 1]) == &a0)
                    && (k == 0 ==> &a0 == &self)
                    && (forall|i: int| 0 <= i < k - 1 ==> &*#[trigger] ma[i + 1] == &*final(ma[i]))
                    && (forall|i: int|
                        0 <= i < k ==> call_ensures(Self::next, (#[trigger] ma[i],), xa[i]))
                    && mb.len() == k && xb.len() == k
                    && (k > 0 ==> &*mb[0] == &other && &*final(mb[k - 1]) == &b0)
                    && (k == 0 ==> &b0 == &other)
                    && (forall|i: int| 0 <= i < k - 1 ==> &*#[trigger] mb[i + 1] == &*final(mb[i]))
                    && (forall|i: int|
                        0 <= i < k ==> call_ensures(I::next, (#[trigger] mb[i],), xb[i]))
                    && (forall|i: int|
                        0 <= i < k ==> (#[trigger] xa[i]) is Some && xb[i] is Some
                            && call_ensures(compare, (xa[i]->0, xb[i]->0), Some(Ordering::Equal)));
                lemma_trace_push(
                    ma,
                    xa,
                    sa,
                    rag,
                    &self,
                    &after_borrow(a),
                    |m: &mut Self, r: Option<Self::Item<'_>>| call_ensures(Self::next, (m,), r),
                );
                lemma_trace_push(
                    mb,
                    xb,
                    sb,
                    rbg,
                    &other,
                    &after_borrow(b),
                    |m: &mut I, r: Option<I::Item<'_>>| call_ensures(I::next, (m,), r),
                );
                let xa2 = xa.push(rag);
                let xb2 = xb.push(rbg);
                assert(ma.push(sa).len() == k + 1 && mb.push(sb).len() == k + 1);
                assert(xa2[k] == rag && xb2[k] == rbg);
                assert forall|i: int| 0 <= i < k implies (#[trigger] xa2[i]) is Some
                    && xb2[i] is Some
                    && call_ensures(compare, (xa2[i]->0, xb2[i]->0), Some(Ordering::Equal)) by {
                    assert(xa2[i] == xa[i] && xb2[i] == xb[i]);
                }
                assert(lends_on(xa2));
                assert(lends_on(xb2)) by {
                    assert forall|i: int| 0 <= i < k implies (#[trigger] xb2[i]) is Some by {
                        assert(xa2[i] is Some);
                    }
                }
                assert forall|i: int| 0 <= i < k implies call_ensures(
                    compare,
                    (#[trigger] lent(xa2)[i], lent(xb2)[i]),
                    Some(Ordering::Equal),
                ) by {
                    assert(xa2[i] is Some);
                }
                assert(rag is Some ==> lent(xa2).len() == k + 1 && lent(xa2)[k] == rag->0);
                assert(rbg is Some ==> lent(xb2).len() == k + 1 && lent(xb2)[k] == rbg->0);
                assert(rag is None ==> lent(xa2).len() == k);
                assert(rbg is None ==> lent(xb2).len() == k);
            }
            match ra {
                Some(x) => match rb {
                    Some(y) => {
                        let o = g(x, y);
                        match o {
                            Some(Ordering::Equal) => {},
                            _ => {
                                assert(self.lawful() && other.lawful() ==> partial_cmp_by_at(
                                    self.remaining(),
                                    other.remaining(),
                                    compare, k,
                                    o,
                                ));
                                return o;
                            },
                        }
                        proof {
                            k = k + 1;
                        }
                    },
                    None => {
                        assert(self.lawful() && other.lawful() ==> partial_cmp_by_at(
                            self.remaining(),
                            other.remaining(),
                            compare, k,
                            Some(Ordering::Greater),
                        ));
                        return Some(Ordering::Greater);
                    },
                },
                None => {
                    let o = if rb.is_none() {
                        Some(Ordering::Equal)
                    } else {
                        Some(Ordering::Less)
                    };
                    assert(self.lawful() && other.lawful() ==> partial_cmp_by_at(
                        self.remaining(),
                        other.remaining(),
                        compare, k,
                        o,
                    ));
                    return o;
                },
            }
        }
    }

    /// Determines if the elements of this iterator are equal to those of
    /// another.
    fn eq<I>(self, other: I) -> (ret: bool) where
        Self: Sized,
        I: LendingIterator,
        for <'a>Self::Item<'a>: PartialEq<I::Item<'a>>,

        requires
            self.wf(),
            other.wf(),
        ensures
            exists|
                ma: Seq<&mut Self>,
                xa: Seq<Option<Self::Item<'_>>>,
                mb: Seq<&mut I>,
                xb: Seq<Option<I::Item<'_>>>,
            |
                #![trigger ma.len(), xa.len(), mb.len(), xb.len()]
                ma.len() == xa.len()
                    && (ma.len() > 0 ==> &*ma[0] == &self)
                    && (forall|i: int| 0 <= i < ma.len() - 1 ==> &*#[trigger] ma[i + 1]
                        == &*final(ma[i]))
                    && (forall|i: int|
                        0 <= i < ma.len() ==> call_ensures(Self::next, (#[trigger] ma[i],), xa[i]))
                    && mb.len() == xb.len()
                    && (mb.len() > 0 ==> &*mb[0] == &other)
                    && (forall|i: int| 0 <= i < mb.len() - 1 ==> &*#[trigger] mb[i + 1]
                        == &*final(mb[i]))
                    && (forall|i: int|
                        0 <= i < mb.len() ==> call_ensures(I::next, (#[trigger] mb[i],), xb[i]))
                    && xa.len() == xb.len() && lends_on(xa) && lends_on(xb) && eq_at(
                        lent(xa),
                        lent(xb),
                        xa.len() - 1,
                        ret,
                    ),
            self.lawful() && other.lawful() ==> exists|k: int|
                #[trigger] eq_at(self.remaining(), other.remaining(), k, ret),
    {
        let mut a = self;
        let mut b = other;
        let ghost mut k: int = 0;
        proof {
            let ma = Seq::<&mut Self>::empty();
            let xa = Seq::<Option<Self::Item<'_>>>::empty();
            let mb = Seq::<&mut I>::empty();
            let xb = Seq::<Option<I::Item<'_>>>::empty();
            assert(ma.len() == 0 && xa.len() == 0 && mb.len() == 0 && xb.len() == 0);
        }
        loop
            invariant
                a.wf(),
                b.wf(),
                self.lawful() ==> a.lawful(),
                other.lawful() ==> b.lawful(),
                0 <= k,
                self.lawful() ==> k <= self.remaining().len() && a.remaining()
                    == self.remaining().skip(k),
                other.lawful() ==> k <= other.remaining().len() && b.remaining()
                    == other.remaining().skip(k),
                self.lawful() && other.lawful() ==> forall|i: int|
                    0 <= i < k ==> call_ensures(
                        <Self::Item<'_>>::ne,
                        (&#[trigger] self.remaining()[i], &other.remaining()[i]),
                        false,
                    ),
                exists|
                    ma: Seq<&mut Self>,
                    xa: Seq<Option<Self::Item<'_>>>,
                    mb: Seq<&mut I>,
                    xb: Seq<Option<I::Item<'_>>>,
                |
                    #![trigger ma.len(), xa.len(), mb.len(), xb.len()]
                    ma.len() == k && xa.len() == k
                    && (k > 0 ==> &*ma[0] == &self && &*final(ma[k - 1]) == &a)
                    && (k == 0 ==> &a == &self)
                    && (forall|i: int| 0 <= i < k - 1 ==> &*#[trigger] ma[i + 1] == &*final(ma[i]))
                    && (forall|i: int|
                        0 <= i < k ==> call_ensures(Self::next, (#[trigger] ma[i],), xa[i]))
                    && mb.len() == k && xb.len() == k
                    && (k > 0 ==> &*mb[0] == &other && &*final(mb[k - 1]) == &b)
                    && (k == 0 ==> &b == &other)
                    && (forall|i: int| 0 <= i < k - 1 ==> &*#[trigger] mb[i + 1] == &*final(mb[i]))
                    && (forall|i: int|
                        0 <= i < k ==> call_ensures(I::next, (#[trigger] mb[i],), xb[i]))
                    && (forall|i: int|
                        0 <= i < k ==> (#[trigger] xa[i]) is Some && xb[i] is Some
                            && call_ensures(<Self::Item<'_>>::ne, (&xa[i]->0, &xb[i]->0), false)),
            decreases a.bound(),
        {
            proof {
                if self.lawful() && a.remaining().len() > 0 {
                    assert(a.remaining()[0] == self.remaining()[k]);
                    assert(self.remaining().contains(a.remaining()[0]));
                    assert(a.remaining().drop_first() =~= self.remaining().skip(k + 1));
                }
                if other.lawful() && b.remaining().len() > 0 {
                    assert(b.remaining()[0] == other.remaining()[k]);
                    assert(other.remaining().contains(b.remaining()[0]));
                    assert(b.remaining().drop_first() =~= other.remaining().skip(k + 1));
                }
            }
            let ghost a0 = a;
            let ghost b0 = b;
            let ra = a.next();
            let ghost rag = ra;
            let rb = b.next();
            let ghost rbg = rb;
            proof {
                let sa = choose|m: &mut Self|
                    &*m == &a0 && &*final(m) == &after_borrow(a)
                        && call_ensures(Self::next, (m,), rag);
                let sb = choose|m: &mut I|
                    &*m == &b0 && &*final(m) == &after_borrow(b)
                        && call_ensures(I::next, (m,), rbg);
                let (ma, xa, mb, xb) = choose|
                    ma: Seq<&mut Self>,
                    xa: Seq<Option<Self::Item<'_>>>,
                    mb: Seq<&mut I>,
                    xb: Seq<Option<I::Item<'_>>>,
                |
                    #![trigger ma.len(), xa.len(), mb.len(), xb.len()]
                    ma.len() == k && xa.len() == k
                    && (k > 0 ==> &*ma[0] == &self && &*final(ma[k - 1]) == &a0)
                    && (k == 0 ==> &a0 == &self)
                    && (forall|i: int| 0 <= i < k - 1 ==> &*#[trigger] ma[i + 1] == &*final(ma[i]))
                    && (forall|i: int|
                        0 <= i < k ==> call_ensures(Self::next, (#[trigger] ma[i],), xa[i]))
                    && mb.len() == k && xb.len() == k
                    && (k > 0 ==> &*mb[0] == &other && &*final(mb[k - 1]) == &b0)
                    && (k == 0 ==> &b0 == &other)
                    && (forall|i: int| 0 <= i < k - 1 ==> &*#[trigger] mb[i + 1] == &*final(mb[i]))
                    && (forall|i: int|
                        0 <= i < k ==> call_ensures(I::next, (#[trigger] mb[i],), xb[i]))
                    && (forall|i: int|
                        0 <= i < k ==> (#[trigger] xa[i]) is Some && xb[i] is Some
                            && call_ensures(<Self::Item<'_>>::ne, (&xa[i]->0, &xb[i]->0), false));
                lemma_trace_push(
                    ma,
                    xa,
                    sa,
                    rag,
                    &self,
                    &after_borrow(a),
                    |m: &mut Self, r: Option<Self::Item<'_>>| call_ensures(Self::next, (m,), r),
                );
                lemma_trace_push(
                    mb,
                    xb,
                    sb,
                    rbg,
                    &other,
                    &after_borrow(b),
                    |m: &mut I, r: Option<I::Item<'_>>| call_ensures(I::next, (m,), r),
                );
                let xa2 = xa.push(rag);
                let xb2 = xb.push(rbg);
                assert(ma.push(sa).len() == k + 1 && mb.push(sb).len() == k + 1);
                assert(xa2[k] == rag && xb2[k] == rbg);
                assert forall|i: int| 0 <= i < k implies (#[trigger] xa2[i]) is Some
                    && xb2[i] is Some
                    && call_ensures(<Self::Item<'_>>::ne, (&xa2[i]->0, &xb2[i]->0), false) by {
                    assert(xa2[i] == xa[i] && xb2[i] == xb[i]);
                }
                assert(lends_on(xa2));
                assert(lends_on(xb2)) by {
                    assert forall|i: int| 0 <= i < k implies (#[trigger] xb2[i]) is Some by {
                        assert(xa2[i] is Some);
                    }
                }
                assert forall|i: int| 0 <= i < k implies call_ensures(
                    <Self::Item<'_>>::ne,
                    (&#[trigger] lent(xa2)[i], &lent(xb2)[i]),
                    false,
                ) by {
                    assert(xa2[i] is Some);
                }
                assert(rag is Some ==> lent(xa2).len() == k + 1 && lent(xa2)[k] == rag->0);
                assert(rbg is Some ==> lent(xb2).len() == k + 1 && lent(xb2)[k] == rbg->0);
                assert(rag is None ==> lent(xa2).len() == k);
                assert(rbg is None ==> lent(xb2).len() == k);
            }
            match ra {
                Some(x) => match rb {
                    Some(y) => {
                        if x.ne(&y) {
                            assert(self.lawful() && other.lawful() ==> eq_at(
                                self.remaining(),
                                other.remaining(),
                                k,
                                false,
                            ));
                            return false;
                        }
                        proof {
                            k = k + 1;
                        }
                    },
                    None => {
                        assert(self.lawful() && other.lawful() ==> eq_at(
                            self.remaining(),
                            other.remaining(),
                            k,
                            false,
                        ));
                        return false;
                    },
                },
                None => {
                    let o = if rb.is_none() {
                        true
                    } else {
                        false
                    };
                    assert(self.lawful() && other.lawful() ==> eq_at(
                        self.remaining(),
                        other.remaining(),
                        k,
                        o,
                    ));
                    return o;
                },
            }
        }
    }

    /// Determines if the elements of this iterator are equal to those of
    /// another with respect to the specified equality function.
    fn eq_by<I, F>(self, other: I, same: F) -> (ret: bool) where
        Self: Sized,
        I: LendingIterator,
        F: FnMut(Self::Item<'_>, I::Item<'_>) -> bool,

        requires
            self.wf(),
            other.wf(),
            forall|x: Self::Item<'_>, y: I::Item<'_>|
                (self.lawful() ==> self.remaining().contains(x)) && (other.lawful()
                    ==> other.remaining().contains(y)) && self.lends(x) && other.lends(y)
                    ==> #[trigger] call_requires(same, (x, y)),
        ensures
            exists|
                ma: Seq<&mut Self>,
                xa: Seq<Option<Self::Item<'_>>>,
                mb: Seq<&mut I>,
                xb: Seq<Option<I::Item<'_>>>,
            |
                #![trigger ma.len(), xa.len(), mb.len(), xb.len()]
                ma.len() == xa.len()
                    && (ma.len() > 0 ==> &*ma[0] == &self)
                    && (forall|i: int| 0 <= i < ma.len() - 1 ==> &*#[trigger] ma[i + 1]
                        == &*final(ma[i]))
                    && (forall|i: int|
                        0 <= i < ma.len() ==> call_ensures(Self::next, (#[trigger] ma[i],), xa[i]))
                    && mb.len() == xb.len()
                    && (mb.len() > 0 ==> &*mb[0] == &other)
                    && (forall|i: int| 0 <= i < mb.len() - 1 ==> &*#[trigger] mb[i + 1]
                        == &*final(mb[i]))
                    && (forall|i: int|
                        0 <= i < mb.len() ==> call_ensures(I::next, (#[trigger] mb[i],), xb[i]))
                    && xa.len() == xb.len() && lends_on(xa) && lends_on(xb) && eq_by_at(
                        lent(xa),
                        lent(xb),
                        same, xa.len() - 1,
                        ret,
                    ),
            self.lawful() && other.lawful() ==> exists|k: int|
                #[trigger] eq_by_at(self.remaining(), other.remaining(), same, k, ret),
    {
        let mut a = self;
        let mut b = other;
        let mut g = same;
        let ghost mut k: int = 0;
        proof {
            let ma = Seq::<&mut Self>::empty();
            let xa = Seq::<Option<Self::Item<'_>>>::empty();
            let mb = Seq::<&mut I>::empty();
            let xb = Seq::<Option<I::Item<'_>>>::empty();
            assert(ma.len() == 0 && xa.len() == 0 && mb.len() == 0 && xb.len() == 0);
        }
        loop
            invariant
                a.wf(),
                b.wf(),
                g == same,
                forall|x: Self::Item<'_>, y: I::Item<'_>|
                    (self.lawful() ==> self.remaining().contains(x)) && (other.lawful()
                        ==> other.remaining().contains(y)) && self.lends(x) && other.lends(y)
                        ==> #[trigger] call_requires(same, (x, y)),
                forall|x: Self::Item<'_>| #[trigger] a.lends(x) ==> self.lends(x),
                forall|y: I::Item<'_>| #[trigger] b.lends(y) ==> other.lends(y),
                self.lawful() ==> a.lawful(),
                other.lawful() ==> b.lawful(),
                0 <= k,
                self.lawful() ==> k <= self.remaining().len() && a.remaining()
                    == self.remaining().skip(k),
                other.lawful() ==> k <= other.remaining().len() && b.remaining()
                    == other.remaining().skip(k),
                self.lawful() && other.lawful() ==> forall|i: int|
                    0 <= i < k ==> call_ensures(
                        same,
                        (#[trigger] self.remaining()[i], other.remaining()[i]),
                        true,
                    ),
                exists|
                    ma: Seq<&mut Self>,
                    xa: Seq<Option<Self::Item<'_>>>,
                    mb: Seq<&mut I>,
                    xb: Seq<Option<I::Item<'_>>>,
                |
                    #![trigger ma.len(), xa.len(), mb.len(), xb.len()]
                    ma.len() == k && xa.len() == k
                    && (k > 0 ==> &*ma[0] == &self && &*final(ma[k - 1]) == &a)
                    && (k == 0 ==> &a == &self)
                    && (forall|i: int| 0 <= i < k - 1 ==> &*#[trigger] ma[i + 1] == &*final(ma[i]))
                    && (forall|i: int|
                        0 <= i < k ==> call_ensures(Self::next, (#[trigger] ma[i],), xa[i]))
                    && mb.len() == k && xb.len() == k
                    && (k > 0 ==> &*mb[0] == &other && &*final(mb[k - 1]) == &b)
                    && (k == 0 ==> &b == &other)
                    && (forall|i: int| 0 <= i < k - 1 ==> &*#[trigger] mb[i + 1] == &*final(mb[i]))
                    && (forall|i: int|
                        0 <= i < k ==> call_ensures(I::next, (#[trigger] mb[i],), xb[i]))
                    && (forall|i: int|
                        0 <= i < k ==> (#[trigger] xa[i]) is Some && xb[i] is Some
                            && call_ensures(same, (xa[i]->0, xb[i]->0), true)),
            decreases a.bound(),
        {
            proof {
                if self.lawful() && a.remaining().len() > 0 {
                    assert(a.remaining()[0] == self.remaining()[k]);
                    assert(self.remaining().contains(a.remaining()[0]));
                    assert(a.remaining().drop_first() =~= self.remaining().skip(k + 1));
                }
                if other.lawful() && b.remaining().len() > 0 {
                    assert(b.remaining()[0] == other.remaining()[k]);
                    assert(other.remaining().contains(b.remaining()[0]));
                    assert(b.remaining().drop_first() =~= other.remaining().skip(k + 1));
                }
            }
            let ghost a0 = a;
            let ghost b0 = b;
            let ra = a.next();
            let ghost rag = ra;
            let rb = b.next();
            let ghost rbg = rb;
            proof {
                let sa = choose|m: &mut Self|
                    &*m == &a0 && &*final(m) == &after_borrow(a)
                        && call_ensures(Self::next, (m,), rag);
                let sb = choose|m: &mut I|
                    &*m == &b0 && &*final(m) == &after_borrow(b)
                        && call_ensures(I::next, (m,), rbg);
                let (ma, xa, mb, xb) = choose|
                    ma: Seq<&mut Self>,
                    xa: Seq<Option<Self::Item<'_>>>,
                    mb: Seq<&mut I>,
                    xb: Seq<Option<I::Item<'_>>>,
                |
                    #![trigger ma.len(), xa.len(), mb.len(), xb.len()]
                    ma.len() == k && xa.len() == k
                    && (k > 0 ==> &*ma[0] == &self && &*final(ma[k - 1]) == &a0)
                    && (k == 0 ==> &a0 == &self)
                    && (forall|i: int| 0 <= i < k - 1 ==> &*#[trigger] ma[i + 1] == &*final(ma[i]))
                    && (forall|i: int|
                        0 <= i < k ==> call_ensures(Self::next, (#[trigger] ma[i],), xa[i]))
                    && mb.len() == k && xb.len() == k
                    && (k > 0 ==> &*mb[0] == &other && &*final(mb[k - 1]) == &b0)
                    && (k == 0 ==> &b0 == &other)
                    && (forall|i: int| 0 <= i < k - 1 ==> &*#[trigger] mb[i + 1] == &*final(mb[i]))
                    && (forall|i: int|
                        0 <= i < k ==> call_ensures(I::next, (#[trigger] mb[i],), xb[i]))
                    && (forall|i: int|
                        0 <= i < k ==> (#[trigger] xa[i]) is Some && xb[i] is Some
                            && call_ensures(same, (xa[i]->0, xb[i]->0), true));
                lemma_trace_push(
                    ma,
                    xa,
                    sa,
                    rag,
                    &self,
                    &after_borrow(a),
                    |m: &mut Self, r: Option<Self::Item<'_>>| call_ensures(Self::next, (m,), r),
                );
                lemma_trace_push(
                    mb,
                    xb,
                    sb,
                    rbg,
                    &other,
                    &after_borrow(b),
                    |m: &mut I, r: Option<I::Item<'_>>| call_ensures(I::next, (m,), r),
                );
                let xa2 = xa.push(rag);
                let xb2 = xb.push(rbg);
                assert(ma.push(sa).len() == k + 1 && mb.push(sb).len() == k + 1);
                assert(xa2[k] == rag && xb2[k] == rbg);
                assert forall|i: int| 0 <= i < k implies (#[trigger] xa2[i]) is Some
                    && xb2[i] is Some
                    && call_ensures(same, (xa2[i]->0, xb2[i]->0), true) by {
                    assert(xa2[i] == xa[i] && xb2[i] == xb[i]);
                }
                assert(lends_on(xa2));
                assert(lends_on(xb2)) by {
                    assert forall|i: int| 0 <= i < k implies (#[trigger] xb2[i]) is Some by {
                        assert(xa2[i] is Some);
                    }
                }
                assert forall|i: int| 0 <= i < k implies call_ensures(
                    same,
                    (#[trigger] lent(xa2)[i], lent(xb2)[i]),
                    true,
                ) by {
                    assert(xa2[i] is Some);
                }
                assert(rag is Some ==> lent(xa2).len() == k + 1 && lent(xa2)[k] == rag->0);
                assert(rbg is Some ==> lent(xb2).len() == k + 1 && lent(xb2)[k] == rbg->0);
                assert(rag is None ==> lent(xa2).len() == k);
                assert(rbg is None ==> lent(xb2).len() == k);
            }
            match ra {
                Some(x) => match rb {
                    Some(y) => {
                        if !g(x, y) {
                            assert(self.lawful() && other.lawful() ==> eq_by_at(
                                self.remaining(),
                                other.remaining(),
                                same, k,
                                false,
                            ));
                            return false;
                        }
                        proof {
                            k = k + 1;
                        }
                    },
                    None => {
                        assert(self.lawful() && other.lawful() ==> eq_by_at(
                            self.remaining(),
                            other.remaining(),
                            same, k,
                            false,
                        ));
                        return false;
                    },
                },
                None => {
                    let o = if rb.is_none() {
                        true
                    } else {
                        false
                    };
                    assert(self.lawful() && other.lawful() ==> eq_by_at(
                        self.remaining(),
                        other.remaining(),
                        same, k,
                        o,
                    ));
                    return o;
                },
            }
        }
    }

    /// Determines if the elements of this iterator are not equal to those of
    /// another.
    fn ne<I>(self, other: I) -> (ret: bool) where
        Self: Sized,
        I: LendingIterator,
        for <'a>Self::Item<'a>: PartialEq<I::Item<'a>>,

        requires
            self.wf(),
            other.wf(),
        ensures
            exists|
                ma: Seq<&mut Self>,
                xa: Seq<Option<Self::Item<'_>>>,
                mb: Seq<&mut I>,
                xb: Seq<Option<I::Item<'_>>>,
            |
                #![trigger ma.len(), xa.len(), mb.len(), xb.len()]
                ma.len() == xa.len()
                    && (ma.len() > 0 ==> &*ma[0] == &self)
                    && (forall|i: int| 0 <= i < ma.len() - 1 ==> &*#[trigger] ma[i + 1]
                        == &*final(ma[i]))
                    && (forall|i: int|
                        0 <= i < ma.len() ==> call_ensures(Self::next, (#[trigger] ma[i],), xa[i]))
                    && mb.len() == xb.len()
                    && (mb.len() > 0 ==> &*mb[0] == &other)
                    && (forall|i: int| 0 <= i < mb.len() - 1 ==> &*#[trigger] mb[i + 1]
                        == &*final(mb[i]))
                    && (forall|i: int|
                        0 <= i < mb.len() ==> call_ensures(I::next, (#[trigger] mb[i],), xb[i]))
                    && xa.len() == xb.len() && lends_on(xa) && lends_on(xb) && ne_at(
                        lent(xa),
                        lent(xb),
                        xa.len() - 1,
                        ret,
                    ),
            self.lawful() && other.lawful() ==> exists|k: int|
                #[trigger] ne_at(self.remaining(), other.remaining(), k, ret),
    {
        let ghost a0 = self;
        let ghost b0 = other;
        let o = self.eq(other);
        let found = !o;
        proof {
            let (ma, xa, mb, xb) = choose|
                ma: Seq<&mut Self>,
                    xa: Seq<Option<Self::Item<'_>>>,
                    mb: Seq<&mut I>,
                    xb: Seq<Option<I::Item<'_>>>,
                |
                #![trigger ma.len(), xa.len(), mb.len(), xb.len()]
                ma.len() == xa.len()
                    && (ma.len() > 0 ==> &*ma[0] == &self)
                    && (forall|i: int| 0 <= i < ma.len() - 1 ==> &*#[trigger] ma[i + 1]
                        == &*final(ma[i]))
                    && (forall|i: int|
                        0 <= i < ma.len() ==> call_ensures(Self::next, (#[trigger] ma[i],), xa[i]))
                    && mb.len() == xb.len()
                    && (mb.len() > 0 ==> &*mb[0] == &other)
                    && (forall|i: int| 0 <= i < mb.len() - 1 ==> &*#[trigger] mb[i + 1]
                        == &*final(mb[i]))
                    && (forall|i: int|
                        0 <= i < mb.len() ==> call_ensures(I::next, (#[trigger] mb[i],), xb[i]))
                    && xa.len() == xb.len() && lends_on(xa) && lends_on(xb) && eq_at(
                        lent(xa),
                        lent(xb),
                        xa.len() - 1,
                        o,
                    );
            assert(ma.len() == xa.len() && mb.len() == xb.len());
            if a0.lawful() && b0.lawful() {
                let k = choose|k: int| eq_at(a0.remaining(), b0.remaining(), k, o);
                assert(eq_at(a0.remaining(), b0.remaining(), k, o));
                assert(ne_at(a0.remaining(), b0.remaining(), k, found));
            }
        }
        found
    }

    /// Determines if the elements of this iterator are lexicographically less
    /// than those of another.
    fn lt<I>(self, other: I) -> (ret: bool) where
        Self: Sized,
        I: LendingIterator,
        for <'a>Self::Item<'a>: PartialOrd<I::Item<'a>>,

        requires
            self.wf(),
            other.wf(),
        ensures
            exists|
                ma: Seq<&mut Self>,
                xa: Seq<Option<Self::Item<'_>>>,
                mb: Seq<&mut I>,
                xb: Seq<Option<I::Item<'_>>>,
            |
                #![trigger ma.len(), xa.len(), mb.len(), xb.len()]
                ma.len() == xa.len()
                    && (ma.len() > 0 ==> &*ma[0] == &self)
                    && (forall|i: int| 0 <= i < ma.len() - 1 ==> &*#[trigger] ma[i + 1]
                        == &*final(ma[i]))
                    && (forall|i: int|
                        0 <= i < ma.len() ==> call_ensures(Self::next, (#[trigger] ma[i],), xa[i]))
                    && mb.len() == xb.len()
                    && (mb.len() > 0 ==> &*mb[0] == &other)
                    && (forall|i: int| 0 <= i < mb.len() - 1 ==> &*#[trigger] mb[i + 1]
                        == &*final(mb[i]))
                    && (forall|i: int|
                        0 <= i < mb.len() ==> call_ensures(I::next, (#[trigger] mb[i],), xb[i]))
                    && xa.len() == xb.len() && lends_on(xa) && lends_on(xb) && lt_at(
                        lent(xa),
                        lent(xb),
                        xa.len() - 1,
                        ret,
                    ),
            self.lawful() && other.lawful() ==> exists|k: int|
                #[trigger] lt_at(self.remaining(), other.remaining(), k, ret),
    {
        let ghost a0 = self;
        let ghost b0 = other;
        let o = self.partial_cmp(other);
        let found = match o {
            Some(Ordering::Less) => true,
            _ => false,
        };
        proof {
            let (ma, xa, mb, xb) = choose|
                ma: Seq<&mut Self>,
                    xa: Seq<Option<Self::Item<'_>>>,
                    mb: Seq<&mut I>,
                    xb: Seq<Option<I::Item<'_>>>,
                |
                #![trigger ma.len(), xa.len(), mb.len(), xb.len()]
                ma.len() == xa.len()
                    && (ma.len() > 0 ==> &*ma[0] == &self)
                    && (forall|i: int| 0 <= i < ma.len() - 1 ==> &*#[trigger] ma[i + 1]
                        == &*final(ma[i]))
                    && (forall|i: int|
                        0 <= i < ma.len() ==> call_ensures(Self::next, (#[trigger] ma[i],), xa[i]))
                    && mb.len() == xb.len()
                    && (mb.len() > 0 ==> &*mb[0] == &other)
                    && (forall|i: int| 0 <= i < mb.len() - 1 ==> &*#[trigger] mb[i + 1]
                        == &*final(mb[i]))
                    && (forall|i: int|
                        0 <= i < mb.len() ==> call_ensures(I::next, (#[trigger] mb[i],), xb[i]))
                    && xa.len() == xb.len() && lends_on(xa) && lends_on(xb) && partial_cmp_at(
                        lent(xa),
                        lent(xb),
                        xa.len() - 1,
                        o,
                    );
            assert(ma.len() == xa.len() && mb.len() == xb.len());
            if a0.lawful() && b0.lawful() {
                let k = choose|k: int| partial_cmp_at(a0.remaining(), b0.remaining(), k, o);
                assert(partial_cmp_at(a0.remaining(), b0.remaining(), k, o));
                assert(lt_at(a0.remaining(), b0.remaining(), k, found));
            }
        }
        found
    }

    /// Determines if the elements of this iterator are lexicographically less
    /// or equal to those of another.
    fn le<I>(self, other: I) -> (ret: bool) where
        Self: Sized,
        I: LendingIterator,
        for <'a>Self::Item<'a>: PartialOrd<I::Item<'a>>,

        requires
            self.wf(),
            other.wf(),
        ensures
            exists|
                ma: Seq<&mut Self>,
                xa: Seq<Option<Self::Item<'_>>>,
                mb: Seq<&mut I>,
                xb: Seq<Option<I::Item<'_>>>,
            |
                #![trigger ma.len(), xa.len(), mb.len(), xb.len()]
                ma.len() == xa.len()
                    && (ma.len() > 0 ==> &*ma[0] == &self)
                    && (forall|i: int| 0 <= i < ma.len() - 1 ==> &*#[trigger] ma[i + 1]
                        == &*final(ma[i]))
                    && (forall|i: int|
                        0 <= i < ma.len() ==> call_ensures(Self::next, (#[trigger] ma[i],), xa[i]))
                    && mb.len() == xb.len()
                    && (mb.len() > 0 ==> &*mb[0] == &other)
                    && (forall|i: int| 0 <= i < mb.len() - 1 ==> &*#[trigger] mb[i + 1]
                        == &*final(mb[i]))
                    && (forall|i: int|
                        0 <= i < mb.len() ==> call_ensures(I::next, (#[trigger] mb[i],), xb[i]))
                    && xa.len() == xb.len() && lends_on(xa) && lends_on(xb) && le_at(
                        lent(xa),
                        lent(xb),
                        xa.len() - 1,
                        ret,
                    ),
            self.lawful() && other.lawful() ==> exists|k: int|
                #[trigger] le_at(self.remaining(), other.remaining(), k, ret),
    {
        let ghost a0 = self;
        let ghost b0 = other;
        let o = self.partial_cmp(other);
        let found = match o {
            Some(Ordering::Less) => true,
            Some(Ordering::Equal) => true,
            _ => false,
        };
        proof {
            let (ma, xa, mb, xb) = choose|
                ma: Seq<&mut Self>,
                    xa: Seq<Option<Self::Item<'_>>>,
                    mb: Seq<&mut I>,
                    xb: Seq<Option<I::Item<'_>>>,
                |
                #![trigger ma.len(), xa.len(), mb.len(), xb.len()]
                ma.len() == xa.len()
                    && (ma.len() > 0 ==> &*ma[0] == &self)
                    && (forall|i: int| 0 <= i < ma.len() - 1 ==> &*#[trigger] ma[i + 1]
                        == &*final(ma[i]))
                    && (forall|i: int|
                        0 <= i < ma.len() ==> call_ensures(Self::next, (#[trigger] ma[i],), xa[i]))
                    && mb.len() == xb.len()
                    && (mb.len() > 0 ==> &*mb[0] == &other)
                    && (forall|i: int| 0 <= i < mb.len() - 1 ==> &*#[trigger] mb[i + 1]
                        == &*final(mb[i]))
                    && (forall|i: int|
                        0 <= i < mb.len() ==> call_ensures(I::next, (#[trigger] mb[i],), xb[i]))
                    && xa.len() == xb.len() && lends_on(xa) && lends_on(xb) && partial_cmp_at(
                        lent(xa),
                        lent(xb),
                        xa.len() - 1,
                        o,
                    );
            assert(ma.len() == xa.len() && mb.len() == xb.len());
            if a0.lawful() && b0.lawful() {
                let k = choose|k: int| partial_cmp_at(a0.remaining(), b0.remaining(), k, o);
                assert(partial_cmp_at(a0.remaining(), b0.remaining(), k, o));
                assert(le_at(a0.remaining(), b0.remaining(), k, found));
            }
        }
        found
    }

    /// Determines if the elements of this iterator are lexicographically
    /// greater than those of another.
    fn gt<I>(self, other: I) -> (ret: bool) where
        Self: Sized,
        I: LendingIterator,
        for <'a>Self::Item<'a>: PartialOrd<I::Item<'a>>,

        requires
            self.wf(),
            other.wf(),
        ensures
            exists|
                ma: Seq<&mut Self>,
                xa: Seq<Option<Self::Item<'_>>>,
                mb: Seq<&mut I>,
                xb: Seq<Option<I::Item<'_>>>,
            |
                #![trigger ma.len(), xa.len(), mb.len(), xb.len()]
                ma.len() == xa.len()
                    && (ma.len() > 0 ==> &*ma[0] == &self)
                    && (forall|i: int| 0 <= i < ma.len() - 1 ==> &*#[trigger] ma[i + 1]
                        == &*final(ma[i]))
                    && (forall|i: int|
                        0 <= i < ma.len() ==> call_ensures(Self::next, (#[trigger] ma[i],), xa[i]))
                    && mb.len() == xb.len()
                    && (mb.len() > 0 ==> &*mb[0] == &other)
                    && (forall|i: int| 0 <= i < mb.len() - 1 ==> &*#[trigger] mb[i + 1]
                        == &*final(mb[i]))
                    && (forall|i: int|
                        0 <= i < mb.len() ==> call_ensures(I::next, (#[trigger] mb[i],), xb[i]))
                    && xa.len() == xb.len() && lends_on(xa) && lends_on(xb) && gt_at(
                        lent(xa),
                        lent(xb),
                        xa.len() - 1,
                        ret,
                    ),
            self.lawful() && other.lawful() ==> exists|k: int|
                #[trigger] gt_at(self.remaining(), other.remaining(), k, ret),
    {
        let ghost a0 = self;
        let ghost b0 = other;
        let o = self.partial_cmp(other);
        let found = match o {
            Some(Ordering::Greater) => true,
            _ => false,
        };
        proof {
            let (ma, xa, mb, xb) = choose|
                ma: Seq<&mut Self>,
                    xa: Seq<Option<Self::Item<'_>>>,
                    mb: Seq<&mut I>,
                    xb: Seq<Option<I::Item<'_>>>,
                |
                #![trigger ma.len(), xa.len(), mb.len(), xb.len()]
                ma.len() == xa.len()
                    && (ma.len() > 0 ==> &*ma[0] == &self)
                    && (forall|i: int| 0 <= i < ma.len() - 1 ==> &*#[trigger] ma[i + 1]
                        == &*final(ma[i]))
                    && (forall|i: int|
                        0 <= i < ma.len() ==> call_ensures(Self::next, (#[trigger] ma[i],), xa[i]))
                    && mb.len() == xb.len()
                    && (mb.len() > 0 ==> &*mb[0] == &other)
                    && (forall|i: int| 0 <= i < mb.len() - 1 ==> &*#[trigger] mb[i + 1]
                        == &*final(mb[i]))
                    && (forall|i: int|
                        0 <= i < mb.len() ==> call_ensures(I::next, (#[trigger] mb[i],), xb[i]))
                    && xa.len() == xb.len() && lends_on(xa) && lends_on(xb) && partial_cmp_at(
                        lent(xa),
                        lent(xb),
                        xa.len() - 1,
                        o,
                    );
            assert(ma.len() == xa.len() && mb.len() == xb.len());
            if a0.lawful() && b0.lawful() {
                let k = choose|k: int| partial_cmp_at(a0.remaining(), b0.remaining(), k, o);
                assert(partial_cmp_at(a0.remaining(), b0.remaining(), k, o));
                assert(gt_at(a0.remaining(), b0.remaining(), k, found));
            }
        }
        found
    }

    /// Determines if the elements of this iterator are lexicographically
    /// greater or equal to those of another.
    fn ge<I>(self, other: I) -> (ret: bool) where
        Self: Sized,
        I: LendingIterator,
        for <'a>Self::Item<'a>: PartialOrd<I::Item<'a>>,

        requires
            self.wf(),
            other.wf(),
        ensures
            exists|
                ma: Seq<&mut Self>,
                xa: Seq<Option<Self::Item<'_>>>,
                mb: Seq<&mut I>,
                xb: Seq<Option<I::Item<'_>>>,
            |
                #![trigger ma.len(), xa.len(), mb.len(), xb.len()]
                ma.len() == xa.len()
                    && (ma.len() > 0 ==> &*ma[0] == &self)
                    && (forall|i: int| 0 <= i < ma.len() - 1 ==> &*#[trigger] ma[i + 1]
                        == &*final(ma[i]))
                    && (forall|i: int|
                        0 <= i < ma.len() ==> call_ensures(Self::next, (#[trigger] ma[i],), xa[i]))
                    && mb.len() == xb.len()
                    && (mb.len() > 0 ==> &*mb[0] == &other)
                    && (forall|i: int| 0 <= i < mb.len() - 1 ==> &*#[trigger] mb[i + 1]
                        == &*final(mb[i]))
                    && (forall|i: int|
                        0 <= i < mb.len() ==> call_ensures(I::next, (#[trigger] mb[i],), xb[i]))
                    && xa.len() == xb.len() && lends_on(xa) && lends_on(xb) && ge_at(
                        lent(xa),
                        lent(xb),
                        xa.len() - 1,
                        ret,
                    ),
            self.lawful() && other.lawful() ==> exists|k: int|
                #[trigger] ge_at(self.remaining(), other.remaining(), k, ret),
    {
        let ghost a0 = self;
        let ghost b0 = other;
        let o = self.partial_cmp(other);
        let found = match o {
            Some(Ordering::Greater) => true,
            Some(Ordering::Equal) => true,
            _ => false,
        };
        proof {
            let (ma, xa, mb, xb) = choose|
                ma: Seq<&mut Self>,
                    xa: Seq<Option<Self::Item<'_>>>,
                    mb: Seq<&mut I>,
                    xb: Seq<Option<I::Item<'_>>>,
                |
                #![trigger ma.len(), xa.len(), mb.len(), xb.len()]
                ma.len() == xa.len()
                    && (ma.len() > 0 ==> &*ma[0] == &self)
                    && (forall|i: int| 0 <= i < ma.len() - 1 ==> &*#[trigger] ma[i + 1]
                        == &*final(ma[i]))
                    && (forall|i: int|
                        0 <= i < ma.len() ==> call_ensures(Self::next, (#[trigger] ma[i],), xa[i]))
                    && mb.len() == xb.len()
                    && (mb.len() > 0 ==> &*mb[0] == &other)
                    && (forall|i: int| 0 <= i < mb.len() - 1 ==> &*#[trigger] mb[i + 1]
                        == &*final(mb[i]))
                    && (forall|i: int|
                        0 <= i < mb.len() ==> call_ensures(I::next, (#[trigger] mb[i],), xb[i]))
                    && xa.len() == xb.len() && lends_on(xa) && lends_on(xb) && partial_cmp_at(
                        lent(xa),
                        lent(xb),
                        xa.len() - 1,
                        o,
                    );
            assert(ma.len() == xa.len() && mb.len() == xb.len());
            if a0.lawful() && b0.lawful() {
                let k = choose|k: int| partial_cmp_at(a0.remaining(), b0.remaining(), k, o);
                assert(partial_cmp_at(a0.remaining(), b0.remaining(), k, o));
                assert(ge_at(a0.remaining(), b0.remaining(), k, found));
            }
        }
        found
    }
}

impl<T: LendingIterator> LendingCompare for T {

}

} // verus!
