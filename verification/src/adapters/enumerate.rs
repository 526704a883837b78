use vstd::prelude::*;
use crate::model::numbered;
use crate::traits::cursor::CursorLendingIterator;
use crate::traits::lending_iterator::LendingIterator;

verus! {

/// A lending iterator that yields the current count and the element during
/// iteration.
#[derive(Clone, Debug)]
pub struct Enumerate<I> {
    pub count: usize,
    pub iter: I,
}

impl<I> Enumerate<I> {
    pub fn new(iter: I) -> (r: Self)
        ensures
            r.iter == iter,
            r.count == 0,
    {
        Enumerate { iter, count: 0 }
    }
}

impl<I: LendingIterator + 'static> LendingIterator for Enumerate<I> {
    type Item<'a> = (usize, I::Item<'a>);

    open spec fn wf(&self) -> bool {
        self.iter.wf()
    }

    open spec fn bound(&self) -> nat {
        self.iter.bound()
    }

    /// The count must have room for every element that may still come.
    open spec fn lawful(&self) -> bool {
        self.iter.lawful() && self.count + self.iter.remaining().len() <= usize::MAX
    }


    open spec fn remaining<'a>(&'a self) -> Seq<Self::Item<'a>> {
        numbered(self.iter.remaining(), self.count)
    }

    /// Pairs the next element of `iter` with the count, and raises the count
    /// by one if there was an element. After the largest number the count
    /// starts again at zero.
    fn next(&mut self) -> (ret: Option<Self::Item<'_>>)
        ensures
            ret matches Some(pair) ==> pair.0 == old(self).count && final(self).count
                == if old(self).count < usize::MAX {
                old(self).count + 1
            } else {
                0
            },
            ret is None ==> final(self).count == old(self).count,
            exists|m: &mut I, inner: Option<I::Item<'_>>|
                *m == old(self).iter && *final(m) == final(self).iter && #[trigger] call_ensures(
                    I::next,
                    (m,),
                    inner,
                ) && ret == match inner {
                    Some(x) => Some((old(self).count, x)),
                    None => None,
                },
    {
        match self.iter.next() {
            Some(item) => {
                let count = self.count;
                self.count = count.wrapping_add(1);
                Some((count, item))
            },
            None => None,
        }
    }
}

/// The number before `count`, counted round as the count is: the number that
/// the element was given that `iter` was moved to last.
pub open spec fn number_before(count: usize) -> usize {
    if count == 0 {
        usize::MAX
    } else {
        (count - 1) as usize
    }
}

impl<I> CursorLendingIterator for Enumerate<I> where I: CursorLendingIterator + 'static {
    open spec fn can_get(&self) -> bool {
        self.iter.can_get()
    }

    /// The element that `iter` stands on, with the number that it was given.
    open spec fn current<'a>(&'a self) -> Option<Self::Item<'a>> {
        match self.iter.current() {
            Some(x) => Some((number_before(self.count), x)),
            None => None,
        }
    }

    /// Moves `iter` on, and raises the count by one if there was an element.
    fn advance(&mut self) -> (more: bool)
        ensures
            more ==> final(self).count == if old(self).count < usize::MAX {
                old(self).count + 1
            } else {
                0
            },
            !more ==> final(self).count == old(self).count,
            exists|m: &mut I|
                *m == old(self).iter && *final(m) == final(self).iter && #[trigger] call_ensures(
                    I::advance,
                    (m,),
                    more,
                ),
    {
        let more = self.iter.advance();
        if more {
            self.count = self.count.wrapping_add(1);
        }
        proof {
            assert(self.can_get() == self.iter.can_get());
            assert(self.current() == match self.iter.current() {
                Some(x) => Some((number_before(self.count), x)),
                None => None,
            });
        }
        more
    }

    /// Pairs the element that `iter` stands on with the number that it was
    /// given when `iter` was moved to it.
    fn get(&mut self) -> (ret: Option<Self::Item<'_>>)
        ensures
            final(self).count == old(self).count,
            exists|m: &mut I, inner: Option<I::Item<'_>>|
                *m == old(self).iter && *final(m) == final(self).iter && #[trigger] call_ensures(
                    I::get,
                    (m,),
                    inner,
                ) && ret == match inner {
                    Some(x) => Some((number_before(old(self).count), x)),
                    None => None,
                },
    {
        proof {
            assert(self.can_get() == self.iter.can_get());
            assert(self.current() == match self.iter.current() {
                Some(x) => Some((number_before(self.count), x)),
                None => None,
            });
        }
        let number = self.count.wrapping_sub(1);
        match self.iter.get() {
            Some(item) => Some((number, item)),
            None => None,
        }
    }
}

} // verus!
