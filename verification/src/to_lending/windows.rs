use vstd::prelude::*;
use vstd::std_specs::iter::IteratorSpec;
use vstd::slice::slice_subrange;
use crate::model::{skipped, taken};
use crate::traits::cursor::CursorLendingIterator;
use crate::traits::lending_iterator::LendingIterator;

verus! {

/// The buffer as it is before an element is appended: without its oldest
/// `size` elements once it has grown to `2 * size - 1`.
pub open spec fn evicted<T>(buf: Seq<T>, size: nat) -> Seq<T> {
    if buf.len() == 2 * size - 1 {
        buf.skip(size as int)
    } else {
        buf
    }
}

/// The buffer after `next` was appended to it.
pub open spec fn appended<T>(buf: Seq<T>, size: nat, next: T) -> Seq<T> {
    evicted(buf, size).push(next)
}

/// Where the window starts in a buffer of `len` elements: `size` before its
/// end, or at its start if it is shorter.
pub open spec fn window_start(len: nat, size: nat) -> nat {
    if len >= size {
        (len - size) as nat
    } else {
        0
    }
}

/// The most recent `size` elements of the buffer, or all of it if it holds
/// fewer.
pub open spec fn window<T>(buf: Seq<T>, size: nat) -> Seq<T> {
    buf.skip(window_start(buf.len(), size) as int)
}

/// Whether a window size and a buffer fit together: the size is at least one,
/// twice the size can be computed, and the buffer has not outgrown
/// `2 * size - 1`.
pub open spec fn buffer_fits(len: nat, size: usize) -> bool {
    1 <= size <= usize::MAX / 2 && len <= 2 * size - 1
}

/// Takes the first `size - 1` elements of `iter`, or as many as it has, into a
/// new buffer, and hands back the iterator with what is left.
pub fn prefill<I: Iterator>(iter: I, size: usize) -> (r: (I, Vec<I::Item>))
    requires
        1 <= size,
    ensures
        r.1@.len() <= size - 1,
        r.0.obeys_prophetic_iter_laws() == iter.obeys_prophetic_iter_laws(),
        iter.obeys_prophetic_iter_laws() ==> (iter.decrease() is Some <==> r.0.decrease() is Some),
        iter.obeys_prophetic_iter_laws() ==> r.1@ == taken(iter.remaining(), (size - 1) as nat)
            && r.0.remaining() == skipped(iter.remaining(), (size - 1) as nat),
{
    let mut rest = iter;
    let mut buf: Vec<I::Item> = Vec::new();
    let mut i: usize = 0;
    let mut more = true;
    while more && i < size - 1
        invariant
            i <= size - 1,
            buf@.len() == i,
            rest.obeys_prophetic_iter_laws() == iter.obeys_prophetic_iter_laws(),
            iter.obeys_prophetic_iter_laws() ==> (iter.decrease() is Some
                <==> rest.decrease() is Some),
            iter.obeys_prophetic_iter_laws() ==> i <= iter.remaining().len() && buf@
                == iter.remaining().take(i as int) && rest.remaining() == iter.remaining().skip(
                i as int,
            ),
            iter.obeys_prophetic_iter_laws() && !more ==> i == iter.remaining().len(),
        decreases size - 1 - i + if more { 1int } else { 0int },
    {
        match rest.next() {
            Some(x) => {
                buf.push(x);
                i += 1;
            },
            None => {
                more = false;
            },
        }
    }
    (rest, buf)
}

/// A lending iterator over windows: each element is a slice of the `size`
/// elements that the iterator below yielded last.
///
/// The windows lie in `buf`, which grows to at most `2 * size - 1` elements:
/// so the elements are moved once in `size` steps, not in every step.
#[derive(Clone, Debug)]
pub struct Windows<I: Iterator> {
    pub iter: I,
    pub size: usize,
    pub buf: Vec<I::Item>,
}

impl<I: Iterator> Windows<I> {
    /// Takes the first `size - 1` elements of `iter` into the buffer, or as
    /// many as it has.
    pub fn new(iter: I, size: usize) -> (r: Self)
        requires
            1 <= size,
        ensures
            r.size == size,
            r.buf@.len() <= size - 1,
            r.iter.obeys_prophetic_iter_laws() == iter.obeys_prophetic_iter_laws(),
            iter.obeys_prophetic_iter_laws() ==> (iter.decrease() is Some
                <==> r.iter.decrease() is Some),
            iter.obeys_prophetic_iter_laws() ==> r.buf@ == taken(
                iter.remaining(),
                (size - 1) as nat,
            ) && r.iter.remaining() == skipped(iter.remaining(), (size - 1) as nat),
    {
        let (iter, buf) = prefill(iter, size);
        Self { iter, size, buf }
    }

    /// Appends `next` to the buffer, without its oldest `size` elements if it
    /// had grown to `2 * size - 1`, and lends the window at its end.
    pub fn push_window(&mut self, next: I::Item) -> (w: &[I::Item])
        requires
            buffer_fits(old(self).buf@.len(), old(self).size),
        ensures
            final(self).buf@ == appended(old(self).buf@, old(self).size as nat, next),
            final(self).size == old(self).size,
            final(self).iter == old(self).iter,
            buffer_fits(final(self).buf@.len(), final(self).size),
            w@ == window(final(self).buf@, old(self).size as nat),
            w@.len() <= old(self).size,
            w@.len() == old(self).size || w@.len() > old(self).buf@.len(),
            final(self).buf@.len() == old(self).size
                || final(self).buf@.len() > old(self).buf@.len(),
    {
        if self.buf.len() == self.size * 2 - 1 {
            let rest = self.buf.split_off(self.size);
            self.buf = rest;
        }
        self.buf.push(next);
        let len = self.buf.len();
        let start = if len >= self.size {
            len - self.size
        } else {
            0
        };
        slice_subrange(self.buf.as_slice(), start, len)
    }
}

impl<I: Iterator + 'static> LendingIterator for Windows<I> {
    type Item<'a> = &'a [I::Item];

    open spec fn wf(&self) -> bool {
        &&& self.iter.obeys_prophetic_iter_laws()
        &&& self.iter.decrease() is Some
        &&& buffer_fits(self.buf@.len(), self.size)
    }

    open spec fn bound(&self) -> nat {
        self.iter.decrease()->0
    }

    open spec fn lawful(&self) -> bool {
        false
    }

    /// A window holds `size` elements, or fewer while the buffer has not
    /// grown to that: then at least as many as the buffer holds now.
    open spec fn lends<'a>(&'a self, x: &'a [I::Item]) -> bool {
        x@.len() <= self.size && (x@.len() == self.size || x@.len() >= self.buf@.len())
    }

    open spec fn remaining<'a>(&'a self) -> Seq<Self::Item<'a>> {
        Seq::empty()
    }

    /// Asks the iterator below for one element. If there is one, it is
    /// appended to the buffer and the window at the buffer's end is lent; if
    /// not, the buffer stays as it is.
    fn next(&mut self) -> (ret: Option<&[I::Item]>)
        ensures
            final(self).wf(),
            final(self).size == old(self).size,
            old(self).iter.remaining().len() > 0 ==> ret is Some && final(self).buf@ == appended(
                old(self).buf@,
                old(self).size as nat,
                old(self).iter.remaining()[0],
            ) && ret->0@ == window(final(self).buf@, old(self).size as nat)
                && final(self).iter.remaining() == old(self).iter.remaining().drop_first(),
            old(self).iter.remaining().len() == 0 ==> ret is None && final(self).buf@
                == old(self).buf@ && final(self).iter.remaining() == old(self).iter.remaining(),
    {
        let ghost pre = *self;
        match self.iter.next() {
            Some(next) => {
                let w = self.push_window(next);
                proof {
                    assert(pre.lends(w));
                    assert forall|x: &[I::Item]| #[trigger]
                        after_borrow(self).lends(x) implies pre.lends(x) by {}
                }
                Some(w)
            },
            None => None,
        }
    }

    /// As many elements as the iterator below has still to yield; a number
    /// that does not fit is given as the largest that does.
    fn count(self) -> (n: usize)
        ensures
            n == if self.iter.remaining().len() <= usize::MAX {
                self.iter.remaining().len() as int
            } else {
                usize::MAX as int
            },
    {
        let mut this = self;
        let mut n: usize = 0;
        loop
            invariant
                this.wf(),
                n + this.bound() <= self.bound(),
                this.iter.remaining().len() <= self.iter.remaining().len(),
                n == if self.iter.remaining().len() - this.iter.remaining().len() <= usize::MAX {
                    self.iter.remaining().len() - this.iter.remaining().len()
                } else {
                    usize::MAX as int
                },
            decreases this.bound(),
        {
            match this.next() {
                Some(_) => {
                    if n < usize::MAX {
                        n = n + 1;
                    }
                },
                None => {
                    return n;
                },
            }
        }
    }
}

impl<I: Iterator + 'static> CursorLendingIterator for Windows<I> {
    /// The buffer can be looked into at any time.
    open spec fn can_get(&self) -> bool {
        true
    }

    /// Asks the iterator below for one element and appends it to the buffer
    /// if there is one.
    fn advance(&mut self) -> (more: bool)
        ensures
            final(self).wf(),
            final(self).size == old(self).size,
            old(self).iter.remaining().len() > 0 ==> more && final(self).buf@ == appended(
                old(self).buf@,
                old(self).size as nat,
                old(self).iter.remaining()[0],
            ) && final(self).iter.remaining() == old(self).iter.remaining().drop_first(),
            old(self).iter.remaining().len() == 0 ==> !more && final(self).buf@ == old(self).buf@
                && final(self).iter.remaining() == old(self).iter.remaining(),
    {
        let more = match self.iter.next() {
            Some(next) => {
                let _ = self.push_window(next);
                true
            },
            None => false,
        };
        proof {
            assert(self.can_get());
        }
        more
    }

    /// Lends the window at the buffer's end, if the buffer holds a whole one.
    fn get(&mut self) -> (ret: Option<&[I::Item]>)
        ensures
            *final(self) == *old(self),
            old(self).buf@.len() >= old(self).size ==> ret is Some && ret->0@ == window(
                old(self).buf@,
                old(self).size as nat,
            ),
            old(self).buf@.len() < old(self).size ==> ret is None,
    {
        proof {
            assert(self.can_get());
        }
        let len = self.buf.len();
        if len >= self.size {
            Some(slice_subrange(self.buf.as_slice(), len - self.size, len))
        } else {
            None
        }
    }
}

} // verus!
