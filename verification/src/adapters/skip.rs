use vstd::prelude::*;
use crate::model::skipped;
use crate::traits::cursor::CursorLendingIterator;
use crate::traits::lending_iterator::LendingIterator;

verus! {

/// A lending iterator that skips over the first `n` elements of `iter`.
#[derive(Clone)]
pub struct Skip<I> {
    pub n: usize,
    pub iter: I,
}

impl<I> Skip<I> {
    pub fn new(iter: I, n: usize) -> (r: Skip<I>)
        ensures
            r.iter == iter,
            r.n == n,
    {
        Skip { iter, n }
    }
}

/// What is left of a number once `n` are gone, or nothing if it is smaller.
pub open spec fn less_skipped(count: usize, n: usize) -> usize {
    if count >= n {
        (count - n) as usize
    } else {
        0
    }
}

/// The size hint of an iterator that skips `n` elements, where `inner` is the
/// hint of the iterator below it: both bounds less `n`, an open upper bound
/// left open.
pub open spec fn skip_hint(inner: (usize, Option<usize>), n: usize) -> (usize, Option<usize>) {
    (
        less_skipped(inner.0, n),
        match inner.1 {
            Some(upper) => Some(less_skipped(upper, n)),
            None => None,
        },
    )
}

/// The size hint of an iterator that skips `n` elements, from the hint of the
/// iterator below it.
pub fn skip_size_hint(inner: (usize, Option<usize>), n: usize) -> (hint: (usize, Option<usize>))
    ensures
        hint == skip_hint(inner, n),
{
    let (lower, upper) = inner;
    let lower = lower.saturating_sub(n);
    let upper = match upper {
        Some(x) => Some(x.saturating_sub(n)),
        None => None,
    };
    (lower, upper)
}

impl<I> LendingIterator for Skip<I> where I: LendingIterator + 'static {
    type Item<'a> = I::Item<'a>;

    open spec fn wf(&self) -> bool {
        self.iter.wf()
    }

    open spec fn bound(&self) -> nat {
        self.iter.bound()
    }

    open spec fn lawful(&self) -> bool {
        self.iter.lawful()
    }

    open spec fn remaining<'a>(&'a self) -> Seq<Self::Item<'a>> {
        skipped(self.iter.remaining(), self.n as nat)
    }

    /// The first call passes over `n` elements of `iter` and lends the one
    /// after them; every later call passes on what `iter` lends.
    fn next(&mut self) -> (ret: Option<I::Item<'_>>)
        ensures
            final(self).n == 0,
            old(self).n > 0 ==> exists|m: &mut I|
                *m == old(self).iter && *final(m) == final(self).iter && #[trigger] call_ensures(
                    I::nth,
                    (m, old(self).n),
                    ret,
                ),
            old(self).n == 0 ==> exists|m: &mut I|
                *m == old(self).iter && *final(m) == final(self).iter && #[trigger] call_ensures(
                    I::next,
                    (m,),
                    ret,
                ),
    {
        if self.n > 0 {
            let n = self.n;
            self.n = 0;
            self.iter.nth(n)
        } else {
            self.iter.next()
        }
    }

    /// The hint of `iter`, with both bounds less `n`.
    fn size_hint(&self) -> (hint: (usize, Option<usize>))
        ensures
            exists|inner: (usize, Option<usize>)|
                #[trigger] call_ensures(I::size_hint, (&self.iter,), inner) && hint == skip_hint(
                    inner,
                    self.n,
                ),
    {
        skip_size_hint(self.iter.size_hint(), self.n)
    }
}

/// A lawful iterator that skips `n` elements is lawful, and lends its own
/// elements from the one at `n` on: as many as its own number less `n`, and
/// none if that number is smaller.
pub proof fn lemma_skip_count<I: LendingIterator + 'static>(iter: I, n: usize)
    requires
        iter.lawful(),
    ensures
        (Skip { iter, n }).lawful(),
        (Skip { iter, n }).remaining().len() == if iter.remaining().len() >= n {
            iter.remaining().len() - n
        } else {
            0
        },
        iter.remaining().len() >= n ==> (Skip { iter, n }).remaining() == iter.remaining().skip(
            n as int,
        ),
{
}

impl<I> CursorLendingIterator for Skip<I> where I: CursorLendingIterator + 'static {
    open spec fn can_get(&self) -> bool {
        self.iter.can_get()
    }

    open spec fn current<'a>(&'a self) -> Option<Self::Item<'a>> {
        self.iter.current()
    }

    /// The first call passes over `n` elements of `iter` and moves on to the
    /// one after them; every later call moves `iter` on by one.
    fn advance(&mut self) -> (more: bool)
        ensures
            final(self).n == 0,
            old(self).n == 0 ==> exists|m: &mut I|
                *m == old(self).iter && *final(m) == final(self).iter && #[trigger] call_ensures(
                    I::advance,
                    (m,),
                    more,
                ),
            old(self).n > 0 ==> exists|m: &mut I, passed: Result<(), usize>|
                *m == old(self).iter && #[trigger] call_ensures(
                    I::advance_by,
                    (m, old(self).n),
                    passed,
                ) && match passed {
                    Ok(_) => exists|k: &mut I|
                        *k == *final(m) && *final(k) == final(self).iter && #[trigger] call_ensures(
                            I::advance,
                            (k,),
                            more,
                        ),
                    Err(_) => !more && *final(m) == final(self).iter,
                },
    {
        let more = if self.n > 0 {
            let n = self.n;
            self.n = 0;
            match self.iter.advance_by(n) {
                Ok(()) => self.iter.advance(),
                Err(_) => false,
            }
        } else {
            self.iter.advance()
        };
        proof {
            assert(self.can_get() == self.iter.can_get());
            assert(self.current() == self.iter.current());
        }
        more
    }

    fn get(&mut self) -> (ret: Option<Self::Item<'_>>)
        ensures
            final(self).n == old(self).n,
            exists|m: &mut I|
                *m == old(self).iter && *final(m) == final(self).iter && #[trigger] call_ensures(
                    I::get,
                    (m,),
                    ret,
                ),
    {
        proof {
            assert(self.can_get() == self.iter.can_get());
            assert(self.current() == self.iter.current());
        }
        self.iter.get()
    }
}

} // verus!
