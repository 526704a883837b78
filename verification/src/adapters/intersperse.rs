use vstd::prelude::*;
use crate::model::interspersed;
use crate::traits::exact_size::HasNextLendingIterator;
use crate::traits::lending_iterator::LendingIterator;

verus! {

/// A lending iterator that lends what `separator` makes between each two
/// elements of `iter`. `needs_sep` is set while the separator is due.
pub struct IntersperseWith<I, G> {
    pub separator: G,
    pub iter: I,
    pub needs_sep: bool,
}

impl<I, G> IntersperseWith<I, G> {
    pub fn new(iter: I, separator: G) -> (r: Self)
        ensures
            r.iter == iter,
            r.separator == separator,
            !r.needs_sep,
    {
        Self { iter, separator, needs_sep: false }
    }
}

impl<I, G> IntersperseWith<I, G> where
    I: HasNextLendingIterator + 'static,
    for <'all>G: FnMut(&'all ()) -> I::Item<'all> + 'static,
 {
    /// Whether `separator` has one result only.
    pub open spec fn decides(&self) -> bool {
        forall|y1: I::Item<'_>, y2: I::Item<'_>|
            call_ensures(self.separator, (&(),), y1) && call_ensures(self.separator, (&(),), y2)
                ==> y1 == y2
    }

    /// What `separator` makes: its result, where it has one only.
    pub open spec fn sep(&self) -> I::Item<'_> {
        choose|y: I::Item<'_>| call_ensures(self.separator, (&(),), y)
    }
}

impl<I, G> LendingIterator for IntersperseWith<I, G> where
    I: HasNextLendingIterator + 'static,
    for <'all>G: FnMut(&'all ()) -> I::Item<'all> + 'static,
 {
    type Item<'a> = I::Item<'a>;

    open spec fn wf(&self) -> bool {
        self.iter.wf() && call_requires(self.separator, (&(),))
    }

    /// An element costs two and a separator one, so each of them brings the
    /// number down.
    open spec fn bound(&self) -> nat {
        2 * self.iter.bound() + if self.needs_sep {
            1nat
        } else {
            0nat
        }
    }

    open spec fn lawful(&self) -> bool {
        self.iter.lawful() && self.decides()
    }

    open spec fn remaining<'a>(&'a self) -> Seq<Self::Item<'a>> {
        interspersed(self.iter.remaining(), self.sep(), self.needs_sep)
    }

    /// If `iter` has no element left, nothing is lent. Else, if the separator
    /// is due, it is made and lent; if not, the next element of `iter` is
    /// lent, and the separator is due after it.
    fn next(&mut self) -> (ret: Option<I::Item<'_>>)
        ensures
            final(self).separator == old(self).separator,
            exists|more: bool| #[trigger]
                call_ensures(I::has_next, (&old(self).iter,), more) && if !more {
                    ret is None && final(self).needs_sep == old(self).needs_sep && final(self).iter
                        == old(self).iter
                } else if old(self).needs_sep {
                    ret is Some && call_ensures(old(self).separator, (&(),), ret->0)
                        && !final(self).needs_sep && final(self).iter == old(self).iter
                } else {
                    final(self).needs_sep == ret is Some && exists|m: &mut I|
                        *m == old(self).iter && *final(m) == final(self).iter
                            && #[trigger] call_ensures(I::next, (m,), ret)
                },
    {
        proof {
            let rem = self.iter.remaining();
            if self.lawful() && rem.len() > 0 {
                if self.needs_sep {
                    assert(interspersed(rem, self.sep(), true).drop_first() =~= interspersed(
                        rem,
                        self.sep(),
                        false,
                    ));
                } else {
                    assert(interspersed(rem, self.sep(), false).drop_first() =~= interspersed(
                        rem.drop_first(),
                        self.sep(),
                        true,
                    ));
                }
            }
        }
        if self.iter.has_next() {
            if self.needs_sep {
                self.needs_sep = false;
                Some((self.separator)(&()))
            } else {
                match self.iter.next() {
                    Some(item) => {
                        self.needs_sep = true;
                        Some(item)
                    },
                    None => None,
                }
            }
        } else {
            None
        }
    }
}

/// What `wf`, `lawful` and `remaining` are of an `IntersperseWith`. The verifier does
/// not unfold them for a particular separator by itself: a caller who holds
/// one brings them in here, to show `wf` before the first call of `next`.
pub proof fn lemma_intersperse_model<I, G>(it: IntersperseWith<I, G>) where
    I: HasNextLendingIterator + 'static,
    for <'all>G: FnMut(&'all ()) -> I::Item<'all> + 'static,

    ensures
        it.wf() == (it.iter.wf() && call_requires(it.separator, (&(),))),
        it.lawful() == (it.iter.lawful() && it.decides()),
        it.remaining() == interspersed(it.iter.remaining(), it.sep(), it.needs_sep),
{
}

} // verus!
