use vstd::prelude::*;
use vstd::std_specs::iter::IteratorSpec;
use crate::traits::cursor::CursorLendingIterator;
use crate::traits::lending_iterator::LendingIterator;

verus! {

/// A lending iterator that, given an iterator, lends references to the given
/// iterator's items. The item that was lent last is kept in `item`.
#[derive(Clone, Debug)]
pub struct LendRefs<I: Iterator> {
    pub item: Option<I::Item>,
    pub iter: I,
}

impl<I: Iterator> LendRefs<I> {
    pub fn new(iter: I) -> (r: LendRefs<I>)
        ensures
            r.iter == iter,
            r.item is None,
    {
        LendRefs { item: None, iter }
    }
}

impl<I> LendingIterator for LendRefs<I> where I: Iterator + 'static {
    type Item<'a> = &'a I::Item;

    open spec fn wf(&self) -> bool {
        self.iter.obeys_prophetic_iter_laws() && self.iter.decrease() is Some
    }

    open spec fn bound(&self) -> nat {
        self.iter.decrease()->0
    }

    open spec fn lawful(&self) -> bool {
        false
    }

    open spec fn remaining<'a>(&'a self) -> Seq<Self::Item<'a>> {
        Seq::empty()
    }

    /// Moves the iterator's next item into `item`, in place of the one
    /// before, and lends a reference to it.
    fn next(&mut self) -> (ret: Option<&I::Item>)
        ensures
            final(self).wf(),
            old(self).iter.remaining().len() > 0 ==> ret == Some(&old(self).iter.remaining()[0])
                && final(self).iter.remaining() == old(self).iter.remaining().drop_first(),
            old(self).iter.remaining().len() == 0 ==> ret is None && final(self).iter.remaining()
                == old(self).iter.remaining(),
            final(self).item == match ret {
                Some(r) => Some(*r),
                None => None,
            },
    {
        self.item = self.iter.next();
        self.item.as_ref()
    }

    /// As many elements as the iterator below has still to yield; a number
    /// that does not fit is given as the largest that does.
    fn count(self) -> (n: usize)
        ensures
            n == if self.iter.remaining().len() <= usize::MAX {
                self.iter.remaining().len() as int
            } else {
                usize::MAX as int
            },
    {
        let mut this = self;
        let mut n: usize = 0;
        loop
            invariant
                this.wf(),
                n + this.bound() <= self.bound(),
                this.iter.remaining().len() <= self.iter.remaining().len(),
                n == if self.iter.remaining().len() - this.iter.remaining().len() <= usize::MAX {
                    self.iter.remaining().len() - this.iter.remaining().len()
                } else {
                    usize::MAX as int
                },
            decreases this.bound(),
        {
            match this.next() {
                Some(_) => {
                    if n < usize::MAX {
                        n = n + 1;
                    }
                },
                None => {
                    return n;
                },
            }
        }
    }
}

impl<I> CursorLendingIterator for LendRefs<I> where I: Iterator + 'static {
    /// The slot can be lent at any time.
    open spec fn can_get(&self) -> bool {
        true
    }

    /// Moves the iterator's next item into `item`, in place of the one
    /// before.
    fn advance(&mut self) -> (more: bool)
        ensures
            old(self).iter.remaining().len() > 0 ==> more && final(self).item == Some(
                old(self).iter.remaining()[0],
            ) && final(self).iter.remaining() == old(self).iter.remaining().drop_first(),
            old(self).iter.remaining().len() == 0 ==> !more && final(self).item is None
                && final(self).iter.remaining() == old(self).iter.remaining(),
    {
        self.item = self.iter.next();
        proof {
            assert(self.can_get());
        }
        self.item.is_some()
    }

    /// Lends a reference to `item`.
    fn get(&mut self) -> (ret: Option<&I::Item>)
        ensures
            *final(self) == *old(self),
            ret == match old(self).item {
                Some(x) => Some(&x),
                None => None,
            },
    {
        proof {
            assert(self.can_get());
        }
        self.item.as_ref()
    }
}

} // verus!
