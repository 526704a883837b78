use vstd::prelude::*;
use vstd::std_specs::iter::IteratorSpec;
use crate::model::{skipped, taken};
use crate::to_lending::windows::{appended, prefill, window, window_start};
use crate::traits::cursor::CursorLendingIterator;
use crate::traits::lending_iterator::LendingIterator;

verus! {

/// A lending iterator over mutable windows: each element is a mutable slice
/// of the `size` elements that the iterator below yielded last, as earlier
/// callers left them.
///
/// The windows lie in `buf`, which grows to at most `2 * size - 1` elements.
#[derive(Clone, Debug)]
pub struct WindowsMut<I: Iterator> {
    pub iter: I,
    pub size: usize,
    pub buf: Vec<I::Item>,
}

impl<I: Iterator> WindowsMut<I> {
    /// Takes the first `size - 1` elements of `iter` into the buffer, or as
    /// many as it has.
    pub fn new(iter: I, size: usize) -> (r: Self)
        requires
            1 <= size,
        ensures
            r.size == size,
            r.buf@.len() <= size - 1,
            r.iter.obeys_prophetic_iter_laws() == iter.obeys_prophetic_iter_laws(),
            iter.obeys_prophetic_iter_laws() ==> (iter.decrease() is Some
                <==> r.iter.decrease() is Some),
            iter.obeys_prophetic_iter_laws() ==> r.buf@ == taken(
                iter.remaining(),
                (size - 1) as nat,
            ) && r.iter.remaining() == skipped(iter.remaining(), (size - 1) as nat),
    {
        let (iter, buf) = prefill(iter, size);
        Self { iter, size, buf }
    }

    /// Appends `next` to the buffer, without its oldest `size` elements if it
    /// had grown to `2 * size - 1`.
    pub fn append(&mut self, next: I::Item)
        requires
            1 <= old(self).size <= usize::MAX / 2,
        ensures
            final(self).buf@ == appended(old(self).buf@, old(self).size as nat, next),
            final(self).size == old(self).size,
            final(self).iter == old(self).iter,
    {
        if self.buf.len() == self.size * 2 - 1 {
            let rest = self.buf.split_off(self.size);
            self.buf = rest;
        }
        self.buf.push(next);
    }

    /// Appends `next` to the buffer as `append` does, and lends the window at
    /// its end. What the caller writes into the window stays in the buffer.
    pub fn push_window(&mut self, next: I::Item) -> (w: &mut [I::Item])
        requires
            1 <= old(self).size <= usize::MAX / 2,
        ensures
            w@ == window(
                appended(old(self).buf@, old(self).size as nat, next),
                old(self).size as nat,
            ),
            final(self).buf@ == appended(old(self).buf@, old(self).size as nat, next).take(
                window_start(
                    appended(old(self).buf@, old(self).size as nat, next).len(),
                    old(self).size as nat,
                ) as int,
            ) + final(w)@,
            final(self).size == old(self).size,
            final(self).iter == old(self).iter,
    {
        self.append(next);
        let len = self.buf.len();
        let start = if len >= self.size {
            len - self.size
        } else {
            0
        };
        let (_, w) = self.buf.as_mut_slice().split_at_mut(start);
        w
    }
}

impl<I: Iterator + 'static> LendingIterator for WindowsMut<I> {
    type Item<'a> = &'a mut [I::Item];

    /// The buffer's length is not part of this: nothing tells that a window
    /// comes back as long as it was lent, and no step depends on it.
    open spec fn wf(&self) -> bool {
        &&& self.iter.obeys_prophetic_iter_laws()
        &&& self.iter.decrease() is Some
        &&& 1 <= self.size <= usize::MAX / 2
    }

    open spec fn bound(&self) -> nat {
        self.iter.decrease()->0
    }

    /// What is lent next depends on what the caller wrote into the windows
    /// before.
    open spec fn lawful(&self) -> bool {
        false
    }

    /// A window holds at most `size` elements, and at least one unless
    /// `size` is zero.
    open spec fn lends<'a>(&'a self, x: &'a mut [I::Item]) -> bool {
        x@.len() <= self.size && (self.size >= 1 ==> x@.len() >= 1)
    }

    open spec fn remaining<'a>(&'a self) -> Seq<Self::Item<'a>> {
        Seq::empty()
    }

    /// Asks the iterator below for one element. If there is one, it is
    /// appended to the buffer and the window at the buffer's end is lent; if
    /// not, the buffer stays as it is.
    fn next(&mut self) -> (ret: Option<&mut [I::Item]>)
        ensures
            final(self).wf(),
            final(self).size == old(self).size,
            old(self).iter.remaining().len() > 0 ==> ret is Some && ret->0@ == window(
                appended(old(self).buf@, old(self).size as nat, old(self).iter.remaining()[0]),
                old(self).size as nat,
            ) && final(self).buf@ == appended(
                old(self).buf@,
                old(self).size as nat,
                old(self).iter.remaining()[0],
            ).take(
                window_start(
                    appended(
                        old(self).buf@,
                        old(self).size as nat,
                        old(self).iter.remaining()[0],
                    ).len(),
                    old(self).size as nat,
                ) as int,
            ) + final(ret->0)@ && final(self).iter.remaining()
                == old(self).iter.remaining().drop_first(),
            old(self).iter.remaining().len() == 0 ==> ret is None && final(self).buf@
                == old(self).buf@ && final(self).iter.remaining() == old(self).iter.remaining(),
    {
        let ghost pre = *self;
        match self.iter.next() {
            Some(next) => {
                let w = self.push_window(next);
                proof {
                    assert(pre.lends(w));
                    assert forall|x: &mut [I::Item]| #[trigger]
                        after_borrow(self).lends(x) implies pre.lends(x) by {}
                }
                Some(w)
            },
            None => None,
        }
    }

    /// As many elements as the iterator below has still to yield; a number
    /// that does not fit is given as the largest that does.
    fn count(self) -> (n: usize)
        ensures
            n == if self.iter.remaining().len() <= usize::MAX {
                self.iter.remaining().len() as int
            } else {
                usize::MAX as int
            },
    {
        let mut this = self;
        let mut n: usize = 0;
        loop
            invariant
                this.wf(),
                n + this.bound() <= self.bound(),
                this.iter.remaining().len() <= self.iter.remaining().len(),
                n == if self.iter.remaining().len() - this.iter.remaining().len() <= usize::MAX {
                    self.iter.remaining().len() - this.iter.remaining().len()
                } else {
                    usize::MAX as int
                },
            decreases this.bound(),
        {
            match this.next() {
                Some(_) => {
                    if n < usize::MAX {
                        n = n + 1;
                    }
                },
                None => {
                    return n;
                },
            }
        }
    }
}

impl<I: Iterator + 'static> CursorLendingIterator for WindowsMut<I> {
    /// The buffer can be looked into at any time.
    open spec fn can_get(&self) -> bool {
        true
    }

    /// Asks the iterator below for one element and appends it to the buffer
    /// if there is one.
    fn advance(&mut self) -> (more: bool)
        ensures
            final(self).size == old(self).size,
            old(self).iter.remaining().len() > 0 ==> more && final(self).buf@ == appended(
                old(self).buf@,
                old(self).size as nat,
                old(self).iter.remaining()[0],
            ) && final(self).iter.remaining() == old(self).iter.remaining().drop_first(),
            old(self).iter.remaining().len() == 0 ==> !more && final(self).buf@ == old(self).buf@
                && final(self).iter.remaining() == old(self).iter.remaining(),
    {
        let more = match self.iter.next() {
            Some(next) => {
                self.append(next);
                true
            },
            None => false,
        };
        proof {
            assert(self.can_get());
        }
        more
    }

    /// Lends the window at the buffer's end, if the buffer holds a whole one.
    /// What the caller writes into it stays in the buffer.
    fn get(&mut self) -> (ret: Option<&mut [I::Item]>)
        ensures
            final(self).size == old(self).size,
            final(self).iter == old(self).iter,
            old(self).buf@.len() >= old(self).size ==> ret is Some && ret->0@ == window(
                old(self).buf@,
                old(self).size as nat,
            ) && final(self).buf@ == old(self).buf@.take(old(self).buf@.len() - old(self).size)
                + final(ret->0)@,
            old(self).buf@.len() < old(self).size ==> ret is None && final(self).buf@
                == old(self).buf@,
    {
        proof {
            assert(self.can_get());
        }
        let ghost pre = *self;
        let len = self.buf.len();
        if len >= self.size {
            let (_, w) = self.buf.as_mut_slice().split_at_mut(len - self.size);
            proof {
                assert(pre.lends(w));
                assert forall|x: &mut [I::Item]| #[trigger]
                    after_borrow(self).lends(x) implies pre.lends(x) by {}
            }
            Some(w)
        } else {
            None
        }
    }
}

} // verus!
