use vstd::prelude::*;
use crate::traits::cursor::CursorLendingIterator;
use crate::traits::exact_size::{ExactSizeLendingIterator, HasNextLendingIterator};
use crate::traits::lending_iterator::LendingIterator;

verus! {

/// Creates an iterator that lends an element exactly once.
pub fn once<T>(value: T) -> (r: Once<T>)
    ensures
        !r.done,
        r.item == Some(value),
{
    Once { done: false, item: Some(value) }
}

/// An iterator that lends an element exactly once.
pub struct Once<T> {
    pub done: bool,
    pub item: Option<T>,
}

impl<T: 'static> LendingIterator for Once<T> {
    type Item<'a> = &'a T;

    open spec fn wf(&self) -> bool {
        true
    }

    open spec fn bound(&self) -> nat {
        if self.done { 0 } else { 1 }
    }

    open spec fn lawful(&self) -> bool {
        true
    }

    open spec fn remaining<'a>(&'a self) -> Seq<&'a T> {
        if self.done || self.item is None {
            Seq::empty()
        } else {
            seq![&self.item->0]
        }
    }

    /// The first call lends the element; every later call drops it and lends
    /// nothing.
    fn next(&mut self) -> (ret: Option<&T>)
        ensures
            final(self).done,
            !old(self).done ==> final(self).item == old(self).item,
            old(self).done ==> final(self).item is None,
    {
        if self.done {
            self.item = None;
        } else {
            self.done = true;
        }
        self.item.as_ref()
    }

    /// One element is left until it was lent, and none after that.
    fn size_hint(&self) -> (hint: (usize, Option<usize>))
        ensures
            hint == if self.done || self.item is None {
                (0usize, Some(0usize))
            } else {
                (1usize, Some(1usize))
            },
    {
        if self.done || self.item.is_none() {
            (0, Some(0))
        } else {
            (1, Some(1))
        }
    }
}

impl<T: 'static> ExactSizeLendingIterator for Once<T> {

}

impl<T: 'static> HasNextLendingIterator for Once<T> {
    fn has_next(&self) -> (b: bool) {
        !self.done && self.item.is_some()
    }
}

impl<T: 'static> CursorLendingIterator for Once<T> {
    /// The element can be asked for at any time.
    open spec fn can_get(&self) -> bool {
        true
    }

    /// The element, once `advance` or `next` has moved to it.
    open spec fn current<'a>(&'a self) -> Option<&'a T> {
        if self.done && self.item is Some {
            Some(&self.item->0)
        } else {
            None
        }
    }

    fn advance(&mut self) -> (more: bool)
        ensures
            final(self).done,
    {
        if self.done {
            self.item = None;
        } else {
            self.done = true;
        }
        proof {
            assert(self.can_get());
            assert(self.current() == if self.item is Some {
                Some(&self.item->0)
            } else {
                None
            });
            assert(old(self).remaining().len() > 0 ==> self.remaining()
                =~= old(self).remaining().drop_first());
        }
        self.item.is_some()
    }

    fn get(&mut self) -> (ret: Option<&T>)
        ensures
            *final(self) == *old(self),
    {
        proof {
            assert(self.current() == if self.done && self.item is Some {
                Some(&self.item->0)
            } else {
                None
            });
        }
        if self.done {
            self.item.as_ref()
        } else {
            None
        }
    }
}

} // verus!

