use vstd::prelude::*;
use vstd::std_specs::iter::IteratorSpec;
use crate::traits::lending_iterator::LendingIterator;

verus! {

/// A lending iterator that iterates over an iterator: each element is the
/// iterator's own, handed on as it is.
#[derive(Clone, Debug)]
pub struct IntoLending<I: Iterator> {
    pub iter: I,
}

impl<I: Iterator> IntoLending<I> {
    pub fn new(iter: I) -> (r: Self)
        ensures
            r.iter == iter,
    {
        Self { iter }
    }
}

/// Calls `Iterator::size_hint`. The standard library does not hold an
/// implementation to its hint, so nothing is claimed of the result.
#[verifier::external_body]
pub(crate) fn source_size_hint<I: Iterator>(iter: &I) -> (hint: (usize, Option<usize>)) {
    iter.size_hint()
}

impl<I: Iterator + 'static> LendingIterator for IntoLending<I> {
    type Item<'a> = I::Item;

    /// The iterator below has to end, and to say by which number it gets
    /// there.
    open spec fn wf(&self) -> bool {
        self.iter.obeys_prophetic_iter_laws() && self.iter.decrease() is Some
    }

    open spec fn bound(&self) -> nat {
        self.iter.decrease()->0
    }

    /// What an arbitrary iterator will yield is not a function of its state,
    /// so the elements are stated by `next` itself.
    open spec fn lawful(&self) -> bool {
        false
    }

    open spec fn remaining<'a>(&'a self) -> Seq<Self::Item<'a>> {
        Seq::empty()
    }

    /// Exactly the iterator's own `next`.
    fn next(&mut self) -> (ret: Option<I::Item>)
        ensures
            final(self).wf(),
            old(self).iter.remaining().len() > 0 ==> ret == Some(old(self).iter.remaining()[0])
                && final(self).iter.remaining() == old(self).iter.remaining().drop_first(),
            old(self).iter.remaining().len() == 0 ==> ret is None && final(self).iter.remaining()
                == old(self).iter.remaining(),
    {
        self.iter.next()
    }

    fn size_hint(&self) -> (hint: (usize, Option<usize>)) {
        source_size_hint(&self.iter)
    }

    /// Passes over `n` elements of the iterator below and hands on the one
    /// after them; stops as soon as the iterator below yields nothing.
    fn nth(&mut self, n: usize) -> (ret: Option<I::Item>)
        ensures
            final(self).wf(),
            n < old(self).iter.remaining().len() ==> ret == Some(
                old(self).iter.remaining()[n as int],
            ) && final(self).iter.remaining() == old(self).iter.remaining().skip(n + 1),
            n >= old(self).iter.remaining().len() ==> ret is None
                && final(self).iter.remaining().len() == 0,
    {
        let mut i: usize = 0;
        while i < n
            invariant
                i <= n,
                self.wf(),
                self.bound() <= old(self).bound(),
                i <= old(self).iter.remaining().len(),
                self.iter.remaining() == old(self).iter.remaining().skip(i as int),
            decreases n - i,
        {
            if self.iter.next().is_none() {
                return None;
            }
            i += 1;
        }
        self.iter.next()
    }

    /// As many elements as the iterator below has still to yield; a number
    /// that does not fit is given as the largest that does.
    fn count(self) -> (n: usize)
        ensures
            n == if self.iter.remaining().len() <= usize::MAX {
                self.iter.remaining().len() as int
            } else {
                usize::MAX as int
            },
    {
        let mut iter = self.iter;
        let mut n: usize = 0;
        loop
            invariant
                iter.obeys_prophetic_iter_laws(),
                iter.decrease() is Some,
                n + iter.decrease()->0 <= self.iter.decrease()->0,
                iter.remaining().len() <= self.iter.remaining().len(),
                n == if self.iter.remaining().len() - iter.remaining().len() <= usize::MAX {
                    self.iter.remaining().len() - iter.remaining().len()
                } else {
                    usize::MAX as int
                },
            decreases iter.decrease()->0,
        {
            match iter.next() {
                Some(_) => {
                    if n < usize::MAX {
                        n = n + 1;
                    }
                },
                None => {
                    return n;
                },
            }
        }
    }
}

/// Of any run of `next` calls on a lifted iterator, each on the state that
/// the call before it left: the call at place `i` yields the iterator's
/// element at place `i`, and nothing once the elements are spent.
pub proof fn lemma_into_lending_calls<I: Iterator + 'static>(
    start: &IntoLending<I>,
    ms: Seq<&mut IntoLending<I>>,
    rs: Seq<Option<I::Item>>,
    n: int,
)
    requires
        ms.len() == rs.len(),
        0 <= n < ms.len(),
        &*ms[0] == start,
        forall|i: int| 0 <= i < ms.len() - 1 ==> &*#[trigger] ms[i + 1] == &*final(ms[i]),
        forall|i: int|
            0 <= i < ms.len() ==> call_ensures(
                IntoLending::<I>::next,
                (#[trigger] ms[i],),
                rs[i],
            ),
    ensures
        n < start.iter.remaining().len() ==> rs[n] == Some(start.iter.remaining()[n])
            && final(ms[n]).iter.remaining() == start.iter.remaining().skip(n + 1),
        n >= start.iter.remaining().len() ==> rs[n] is None
            && final(ms[n]).iter.remaining().len() == 0,
    decreases n,
{
    let rem = start.iter.remaining();
    if n > 0 {
        lemma_into_lending_calls(start, ms, rs, n - 1);
        assert(&*ms[n - 1 + 1] == &*final(ms[n - 1]));
        if n < rem.len() {
            assert(rem.skip(n).drop_first() == rem.skip(n + 1));
            assert(rem.skip(n)[0] == rem[n]);
        }
    } else {
        assert(rem.skip(0) == rem);
        if rem.len() > 0 {
            assert(rem.drop_first() == rem.skip(1));
        }
    }
}

} // verus!
