//! Specification functions over sequences that the contracts share.

use vstd::prelude::*;

verus! {

/// Whether a size hint is sound for an iterator that has `len` elements left.
pub open spec fn hint_holds(hint: (usize, Option<usize>), len: nat) -> bool {
    &&& hint.0 <= len
    &&& hint.1 matches Some(upper) ==> len <= upper
}

/// Whether a size hint says exactly how many elements are left, and that
/// there are some.
pub open spec fn hint_is_exact(hint: (usize, Option<usize>)) -> bool {
    hint.1 == Some(hint.0) && hint.0 > 0
}

/// The smaller of two numbers.
pub open spec fn min_nat(a: nat, b: nat) -> nat {
    if a <= b { a } else { b }
}

/// What is left of `s` once `n` elements are gone, or nothing if it is shorter.
pub open spec fn skipped<T>(s: Seq<T>, n: nat) -> Seq<T> {
    s.skip(min_nat(n, s.len()) as int)
}

/// The first `n` elements of `s`, or all of it if it is shorter.
pub open spec fn taken<T>(s: Seq<T>, n: nat) -> Seq<T> {
    s.take(min_nat(n, s.len()) as int)
}

/// The pairs of elements that stand at the same place in `a` and in `b`.
pub open spec fn zipped<A, B>(a: Seq<A>, b: Seq<B>) -> Seq<(A, B)> {
    Seq::new(min_nat(a.len(), b.len()), |i: int| (a[i], b[i]))
}

/// The elements of `s` paired with their place, counted from `start`.
pub open spec fn numbered<T>(s: Seq<T>, start: usize) -> Seq<(usize, T)> {
    Seq::new(s.len(), |i: int| ((start + i) as usize, s[i]))
}

/// The first element of `s` and then every element that stands `gap + 1` places
/// after the one before.
pub open spec fn stepped<T>(s: Seq<T>, gap: nat) -> Seq<T>
    decreases s.len(),
{
    if s.len() == 0 {
        Seq::empty()
    } else {
        seq![s[0]] + stepped(skipped(s, gap + 1), gap)
    }
}

/// The elements of `s` that meet `keep`, in their order.
pub open spec fn kept<T>(s: Seq<T>, keep: spec_fn(T) -> bool) -> Seq<T>
    decreases s.len(),
{
    if s.len() == 0 {
        Seq::empty()
    } else if keep(s[0]) {
        seq![s[0]] + kept(s.drop_first(), keep)
    } else {
        kept(s.drop_first(), keep)
    }
}

/// What `g` makes of the elements of `s`, in their order, without those of
/// which it makes nothing.
pub open spec fn kept_images<T, U>(s: Seq<T>, g: spec_fn(T) -> Option<U>) -> Seq<U>
    decreases s.len(),
{
    if s.len() == 0 {
        Seq::empty()
    } else {
        match g(s[0]) {
            Some(y) => seq![y] + kept_images(s.drop_first(), g),
            None => kept_images(s.drop_first(), g),
        }
    }
}

/// The elements of `s` with `sep` between each two of them, and before the
/// first one if `lead` is set.
pub open spec fn interspersed<T>(s: Seq<T>, sep: T, lead: bool) -> Seq<T>
    decreases s.len(), if lead { 1int } else { 0int },
{
    if s.len() == 0 {
        Seq::empty()
    } else if lead {
        seq![sep] + interspersed(s, sep, false)
    } else {
        seq![s[0]] + interspersed(s.drop_first(), sep, true)
    }
}

/// The longest front of `s` whose elements all meet `keep`.
pub open spec fn prefix_while<T>(s: Seq<T>, keep: spec_fn(T) -> bool) -> Seq<T>
    decreases s.len(),
{
    if s.len() == 0 || !keep(s[0]) {
        Seq::empty()
    } else {
        seq![s[0]] + prefix_while(s.drop_first(), keep)
    }
}

/// What is left of `s` from its first element that does not meet `pass` on.
pub open spec fn suffix_from<T>(s: Seq<T>, pass: spec_fn(T) -> bool) -> Seq<T>
    decreases s.len(),
{
    if s.len() == 0 || !pass(s[0]) {
        s
    } else {
        suffix_from(s.drop_first(), pass)
    }
}

/// The front holds the first elements of the sequence as they are, each of
/// them meets `keep`, and the element after the front, if there is one, does
/// not.
pub proof fn lemma_prefix_while<T>(s: Seq<T>, keep: spec_fn(T) -> bool)
    ensures
        prefix_while(s, keep).len() <= s.len(),
        forall|i: int|
            0 <= i < prefix_while(s, keep).len() ==> #[trigger] prefix_while(s, keep)[i] == s[i]
                && keep(s[i]),
        prefix_while(s, keep).len() < s.len() ==> !keep(s[prefix_while(s, keep).len() as int]),
    decreases s.len(),
{
    if s.len() > 0 && keep(s[0]) {
        let rest = s.drop_first();
        lemma_prefix_while(rest, keep);
        let front = prefix_while(s, keep);
        assert(front =~= seq![s[0]] + prefix_while(rest, keep));
        assert forall|i: int| 0 <= i < front.len() implies #[trigger] front[i] == s[i] && keep(
            s[i],
        ) by {
            if i > 0 {
                assert(front[i] == prefix_while(rest, keep)[i - 1]);
                assert(rest[i - 1] == s[i]);
            }
        }
        if front.len() < s.len() {
            assert(rest[prefix_while(rest, keep).len() as int] == s[front.len() as int]);
        }
    }
}

/// What is left of a sequence is no longer than the sequence.
pub proof fn lemma_suffix_from_len<T>(s: Seq<T>, pass: spec_fn(T) -> bool)
    ensures
        suffix_from(s, pass).len() <= s.len(),
    decreases s.len(),
{
    if s.len() > 0 && pass(s[0]) {
        lemma_suffix_from_len(s.drop_first(), pass);
    }
}

/// Whether `p` can take each of the first `k` elements of `s` and turn down
/// each one that follows.
pub open spec fn partitioned_at<T, P: FnMut(T) -> bool>(s: Seq<T>, k: int, p: P) -> bool {
    &&& 0 <= k <= s.len()
    &&& forall|i: int| 0 <= i < k ==> call_ensures(p, (#[trigger] s[i],), true)
    &&& forall|i: int| k <= i < s.len() ==> call_ensures(p, (#[trigger] s[i],), false)
}

/// Whether `p` can take each of the first `k` elements of `s`, turn down each
/// one from `k` up to `j`, and take the one at `j`: that one stands after one
/// that was turned down.
pub open spec fn misplaced_at<T, P: FnMut(T) -> bool>(s: Seq<T>, k: int, j: int, p: P) -> bool {
    &&& 0 <= k < j < s.len()
    &&& forall|i: int| 0 <= i < k ==> call_ensures(p, (#[trigger] s[i],), true)
    &&& forall|i: int| k <= i < j ==> call_ensures(p, (#[trigger] s[i],), false)
    &&& call_ensures(p, (s[j],), true)
}

/// Whether folding the elements of `s` into `acc` with `f`, from the first to
/// the last, can give `out`.
pub open spec fn folds_to<T, B, F: FnMut(B, T) -> B>(f: F, acc: B, s: Seq<T>, out: B) -> bool
    decreases s.len(),
{
    if s.len() == 0 {
        out == acc
    } else {
        exists|mid: B|
            #[trigger] call_ensures(f, (acc, s[0]), mid) && folds_to(f, mid, s.drop_first(), out)
    }
}

/// Whether folding the elements of `s` into `acc` with `f`, from the first to
/// the last and up to the first step that fails, can give `out`: then `rest`
/// is what was not reached.
pub open spec fn tries_to<T, B, E, F: FnMut(B, T) -> Result<B, E>>(
    f: F,
    acc: B,
    s: Seq<T>,
    out: Result<B, E>,
    rest: Seq<T>,
) -> bool
    decreases s.len(),
{
    if s.len() == 0 {
        out == Ok::<B, E>(acc) && rest == s
    } else {
        exists|step: Result<B, E>| #[trigger]
            call_ensures(f, (acc, s[0]), step) && match step {
                Ok(mid) => tries_to(f, mid, s.drop_first(), out, rest),
                Err(e) => out == Err::<B, E>(e) && rest == s.drop_first(),
            }
    }
}

/// One step that went well, put in front of what followed.
pub proof fn lemma_tries_to_step<T, B, E, F: FnMut(B, T) -> Result<B, E>>(
    f: F,
    acc: B,
    s: Seq<T>,
    mid: B,
    out: Result<B, E>,
    rest: Seq<T>,
)
    requires
        s.len() > 0,
        call_ensures(f, (acc, s[0]), Ok::<B, E>(mid)),
        tries_to(f, mid, s.drop_first(), out, rest),
    ensures
        tries_to(f, acc, s, out, rest),
{
}

/// One more step, after the steps on `s` went well, with nothing left behind
/// it: its result is the result of the whole.
pub proof fn lemma_tries_to_push<T, B, E, F: FnMut(B, T) -> Result<B, E>>(
    f: F,
    init: B,
    s: Seq<T>,
    acc: B,
    x: T,
    step: Result<B, E>,
)
    requires
        tries_to(f, init, s, Ok::<B, E>(acc), Seq::<T>::empty()),
        call_ensures(f, (acc, x), step),
    ensures
        tries_to(f, init, s.push(x), step, Seq::<T>::empty()),
    decreases s.len(),
{
    if s.len() == 0 {
        assert(s.push(x).drop_first() =~= Seq::<T>::empty());
        assert(s.push(x)[0] == x);
        match step {
            Ok(mid) => {
                assert(tries_to(f, mid, s.push(x).drop_first(), step, Seq::<T>::empty()));
            },
            Err(e) => {},
        }
    } else {
        let first = choose|first: Result<B, E>| #[trigger]
            call_ensures(f, (init, s[0]), first) && match first {
                Ok(mid) => tries_to(f, mid, s.drop_first(), Ok::<B, E>(acc), Seq::<T>::empty()),
                Err(e) => Ok::<B, E>(acc) == Err::<B, E>(e) && Seq::<T>::empty()
                    == s.drop_first(),
            };
        let mid = first->Ok_0;
        lemma_tries_to_push(f, mid, s.drop_first(), acc, x, step);
        assert(s.push(x).drop_first() =~= s.drop_first().push(x));
        assert(s.push(x)[0] == s[0]);
    }
}

/// One step of a fold, put in front of a fold of the rest, is a fold of the
/// whole.
pub proof fn lemma_folds_to_step<T, B, F: FnMut(B, T) -> B>(
    f: F,
    acc: B,
    s: Seq<T>,
    mid: B,
    out: B,
)
    requires
        s.len() > 0,
        call_ensures(f, (acc, s[0]), mid),
        folds_to(f, mid, s.drop_first(), out),
    ensures
        folds_to(f, acc, s, out),
{
}

/// A trace of calls with one more call at its end is a trace again. `ms` are
/// the borrows that the calls were made on, each one of the value that the
/// call before left, and `rs` what the calls returned; `step` says what a
/// call may do.
pub proof fn lemma_trace_push<I: ?Sized, R>(
    ms: Seq<&mut I>,
    rs: Seq<R>,
    m: &mut I,
    r: R,
    start: &I,
    end: &I,
    step: spec_fn(&mut I, R) -> bool,
)
    requires
        ms.len() == rs.len(),
        ms.len() > 0 ==> &*ms[0] == start && &*final(ms[ms.len() - 1]) == &*m,
        ms.len() == 0 ==> &*m == start,
        forall|i: int| 0 <= i < ms.len() - 1 ==> &*#[trigger] ms[i + 1] == &*final(ms[i]),
        forall|i: int| 0 <= i < ms.len() ==> step(#[trigger] ms[i], rs[i]),
        &*final(m) == end,
        step(m, r),
    ensures
        ms.push(m).len() == ms.len() + 1,
        rs.push(r).len() == ms.len() + 1,
        &*ms.push(m)[0] == start,
        &*final(ms.push(m)[ms.len() as int]) == end,
        forall|i: int|
            0 <= i < ms.len() ==> &*#[trigger] ms.push(m)[i + 1] == &*final(ms.push(m)[i]),
        forall|i: int| 0 <= i <= ms.len() ==> step(#[trigger] ms.push(m)[i], rs.push(r)[i]),
        forall|i: int| 0 <= i < ms.len() ==> #[trigger] rs.push(r)[i] == rs[i],
        rs.push(r)[ms.len() as int] == r,
{
    let ms2 = ms.push(m);
    assert forall|i: int| 0 <= i < ms.len() implies &*#[trigger] ms2[i + 1] == &*final(ms2[i]) by {
        if i < ms.len() - 1 {
            assert(ms2[i + 1] == ms[i + 1]);
            assert(ms2[i] == ms[i]);
        }
    }
}

/// Whether every result but the last one holds an element: the calls went
/// on until the last.
pub open spec fn lends_on<T>(rs: Seq<Option<T>>) -> bool {
    rs.len() > 0 && forall|i: int| 0 <= i < rs.len() - 1 ==> (#[trigger] rs[i]) is Some
}

/// The elements that the results hold, where every result but the last one
/// holds one: all of them, or all but the last where that is `None`.
pub open spec fn lent<T>(rs: Seq<Option<T>>) -> Seq<T> {
    Seq::new(
        if rs.len() > 0 && rs.last() is Some {
            rs.len()
        } else {
            (rs.len() - 1) as nat
        },
        |i: int| rs[i]->0,
    )
}

/// The elements that the results hold, where every one of them holds one.
pub open spec fn lent_all<T>(rs: Seq<Option<T>>) -> Seq<T> {
    Seq::new(rs.len(), |i: int| rs[i]->0)
}

/// Results that all hold an element, with one more result at their end, went
/// on until the last; what they lent is what the first ones hold, and the
/// element of the last one if it holds one.
pub proof fn lemma_lent_push<T>(rs: Seq<Option<T>>, r: Option<T>)
    requires
        forall|i: int| 0 <= i < rs.len() ==> (#[trigger] rs[i]) is Some,
    ensures
        rs.push(r).len() == rs.len() + 1,
        rs.push(r).last() == r,
        lends_on(rs.push(r)),
        lent(rs.push(r)).len() == if r is Some {
            rs.len() + 1
        } else {
            rs.len()
        },
        r is None ==> lent(rs.push(r)) == lent_all(rs),
        r is Some ==> lent(rs.push(r)) == lent_all(rs).push(r->0),
        r is Some ==> lent_all(rs.push(r)) == lent_all(rs).push(r->0),
        r is Some ==> forall|i: int| 0 <= i <= rs.len() ==> (#[trigger] rs.push(r)[i]) is Some,
{
    let rs2 = rs.push(r);
    assert forall|i: int| 0 <= i < rs2.len() - 1 implies (#[trigger] rs2[i]) is Some by {
        assert(rs2[i] == rs[i]);
    }
    if r is None {
        assert(lent(rs2) =~= lent_all(rs));
    } else {
        assert(lent(rs2) =~= lent_all(rs).push(r->0));
        assert(lent_all(rs2) =~= lent_all(rs).push(r->0));
    }
}

/// Folding one more element, after those of `s`, goes on from what folding
/// `s` gave.
pub proof fn lemma_folds_to_push<T, B, F: FnMut(B, T) -> B>(
    f: F,
    init: B,
    s: Seq<T>,
    acc: B,
    x: T,
    out: B,
)
    requires
        folds_to(f, init, s, acc),
        call_ensures(f, (acc, x), out),
    ensures
        folds_to(f, init, s.push(x), out),
    decreases s.len(),
{
    if s.len() == 0 {
        assert(s.push(x).drop_first() =~= s);
        assert(folds_to(f, out, s.push(x).drop_first(), out));
        assert(s.push(x)[0] == x);
    } else {
        let mid = choose|mid: B|
            #[trigger] call_ensures(f, (init, s[0]), mid) && folds_to(f, mid, s.drop_first(), acc);
        lemma_folds_to_push(f, mid, s.drop_first(), acc, x, out);
        assert(s.push(x).drop_first() =~= s.drop_first().push(x));
        assert(s.push(x)[0] == s[0]);
    }
}

/// The element at `k` is the first of what is left from `k` on, it is one of
/// the sequence's elements, and what is left after it is what is left from
/// `k + 1` on.
pub proof fn lemma_skip_head<T>(s: Seq<T>, k: int)
    requires
        0 <= k < s.len(),
    ensures
        s.skip(k)[0] == s[k],
        s.contains(s[k]),
        s.skip(k).drop_first() == s.skip(k + 1),
{
    assert(s.skip(k).drop_first() =~= s.skip(k + 1));
}

/// Of a sequence with a first element: the first element is one of its
/// elements, and so is every element after the first; and what holds of every
/// element holds of the first and of every one after it.
pub proof fn lemma_first_and_rest<T>(s: Seq<T>, p: spec_fn(T) -> bool)
    requires
        s.len() > 0,
    ensures
        s.contains(s[0]),
        forall|x: T| s.drop_first().contains(x) ==> s.contains(x),
        (forall|i: int| 0 <= i < s.len() ==> p(#[trigger] s[i])) ==> p(s[0]) && forall|i: int|
            0 <= i < s.drop_first().len() ==> p(#[trigger] s.drop_first()[i]),
{
    lemma_drop_first_contains(s);
    assert(s.contains(s[0]));
    if forall|i: int| 0 <= i < s.len() ==> p(#[trigger] s[i]) {
        assert forall|i: int| 0 <= i < s.drop_first().len() implies p(
            #[trigger] s.drop_first()[i],
        ) by {
            assert(s.drop_first()[i] == s[i + 1]);
        }
    }
}

pub proof fn lemma_drop_first_contains<T>(s: Seq<T>)
    requires
        s.len() > 0,
    ensures
        forall|x: T| s.drop_first().contains(x) ==> s.contains(x),
{
    assert forall|x: T| s.drop_first().contains(x) implies s.contains(x) by {
        let i = choose|i: int| 0 <= i < s.drop_first().len() && s.drop_first()[i] == x;
        assert(s[i + 1] == x);
    }
}

} // verus!
