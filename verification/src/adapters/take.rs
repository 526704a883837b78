use vstd::prelude::*;
use crate::model::{min_nat, taken};
use crate::traits::cursor::CursorLendingIterator;
use crate::traits::lending_iterator::LendingIterator;

verus! {

/// A lending iterator that only lends the first `n` elements of `iter`.
pub struct Take<I> {
    pub iter: I,
    pub n: usize,
}

impl<I> Take<I> {
    pub fn new(iter: I, n: usize) -> (r: Take<I>)
        ensures
            r.iter == iter,
            r.n == n,
    {
        Take { iter, n }
    }
}

impl<I> LendingIterator for Take<I> where I: LendingIterator + 'static {
    type Item<'a> = I::Item<'a>;

    /// Once `n` elements were lent, `iter` is not asked, and need not be fit
    /// to be.
    open spec fn wf(&self) -> bool {
        self.n == 0 || self.iter.wf()
    }

    /// No more than `n` elements come, and no more than `iter` has.
    open spec fn bound(&self) -> nat {
        min_nat(self.n as nat, self.iter.bound())
    }

    open spec fn lawful(&self) -> bool {
        self.iter.lawful()
    }

    open spec fn remaining<'a>(&'a self) -> Seq<Self::Item<'a>> {
        taken(self.iter.remaining(), self.n as nat)
    }

    /// Lends the next element of `iter` as long as fewer than `n` were lent.
    /// Once `n` have been, `iter` is not asked again.
    fn next(&mut self) -> (ret: Option<Self::Item<'_>>)
        ensures
            old(self).n == 0 ==> ret is None && *final(self) == *old(self),
            old(self).n > 0 ==> final(self).n == old(self).n - 1 && exists|m: &mut I|
                *m == old(self).iter && *final(m) == final(self).iter && #[trigger] call_ensures(
                    I::next,
                    (m,),
                    ret,
                ),
    {
        if self.n != 0 {
            self.n -= 1;
            self.iter.next()
        } else {
            None
        }
    }
}

/// A lawful iterator cut at `n` is lawful, and lends its own first elements:
/// as many as the smaller of `n` and its own number says.
pub proof fn lemma_take_count<I: LendingIterator + 'static>(iter: I, n: usize)
    requires
        iter.lawful(),
    ensures
        (Take { iter, n }).lawful(),
        (Take { iter, n }).remaining().len() == min_nat(n as nat, iter.remaining().len()),
        (Take { iter, n }).remaining() == iter.remaining().take(
            min_nat(n as nat, iter.remaining().len()) as int,
        ),
{
}

impl<I> CursorLendingIterator for Take<I> where I: CursorLendingIterator + 'static {
    open spec fn can_get(&self) -> bool {
        self.iter.can_get()
    }

    open spec fn current<'a>(&'a self) -> Option<Self::Item<'a>> {
        self.iter.current()
    }

    /// Moves `iter` on as long as fewer than `n` elements were passed.
    fn advance(&mut self) -> (more: bool)
        ensures
            old(self).n == 0 ==> !more && *final(self) == *old(self),
            old(self).n > 0 ==> final(self).n == old(self).n - 1,
            old(self).n > 0 ==> exists|m: &mut I|
                *m == old(self).iter && *final(m) == final(self).iter && #[trigger] call_ensures(
                    I::advance,
                    (m,),
                    more,
                ),
    {
        if self.n != 0 {
            self.n -= 1;
            let more = self.iter.advance();
            proof {
                assert(self.can_get() == self.iter.can_get());
                assert(self.current() == self.iter.current());
            }
            more
        } else {
            false
        }
    }

    fn get(&mut self) -> (ret: Option<Self::Item<'_>>)
        ensures
            final(self).n == old(self).n,
            exists|m: &mut I|
                *m == old(self).iter && *final(m) == final(self).iter && #[trigger] call_ensures(
                    I::get,
                    (m,),
                    ret,
                ),
    {
        proof {
            assert(self.can_get() == self.iter.can_get());
            assert(self.current() == self.iter.current());
        }
        self.iter.get()
    }
}

} // verus!
