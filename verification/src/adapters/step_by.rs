use vstd::prelude::*;
use crate::model::{skipped, stepped};
use crate::traits::lending_iterator::LendingIterator;

verus! {

/// A lending iterator that lends the first element of `iter` and then, each
/// time, passes over `step` elements and lends the one after them: every
/// element that stands `step + 1` places after the one before.
pub struct StepBy<I> {
    pub iter: I,
    /// The number of elements that are passed over between two that are
    /// lent.
    pub step: usize,
    pub first_take: bool,
}

impl<I> StepBy<I> {
    /// `step` is the number of elements that are passed over between two
    /// that are lent. It must not be zero.
    pub fn new(iter: I, step: usize) -> (r: StepBy<I>)
        requires
            step != 0,
        ensures
            r.iter == iter,
            r.step == step,
            r.first_take,
    {
        StepBy { iter, step, first_take: true }
    }
}

impl<I> LendingIterator for StepBy<I> where I: LendingIterator + 'static {
    type Item<'a> = I::Item<'a>;

    open spec fn wf(&self) -> bool {
        self.iter.wf()
    }

    open spec fn bound(&self) -> nat {
        self.iter.bound()
    }

    open spec fn lawful(&self) -> bool {
        self.iter.lawful()
    }

    open spec fn remaining<'a>(&'a self) -> Seq<Self::Item<'a>> {
        if self.first_take {
            stepped(self.iter.remaining(), self.step as nat)
        } else {
            stepped(skipped(self.iter.remaining(), self.step as nat), self.step as nat)
        }
    }

    /// The first call lends the next element of `iter`; every later call
    /// passes over `step` elements and lends the one after them.
    fn next(&mut self) -> (ret: Option<Self::Item<'_>>)
        ensures
            !final(self).first_take,
            final(self).step == old(self).step,
            old(self).first_take ==> exists|m: &mut I|
                *m == old(self).iter && *final(m) == final(self).iter && #[trigger] call_ensures(
                    I::next,
                    (m,),
                    ret,
                ),
            !old(self).first_take ==> exists|m: &mut I|
                *m == old(self).iter && *final(m) == final(self).iter && #[trigger] call_ensures(
                    I::nth,
                    (m, old(self).step),
                    ret,
                ),
    {
        proof {
            let s = self.iter.remaining();
            let gap = self.step as nat;
            let t = skipped(s, gap);
            lemma_stepped_unfold(s, gap);
            lemma_stepped_unfold(t, gap);
            assert(skipped(skipped(t, 1), gap) =~= skipped(skipped(s, gap + 1), gap));
            if s.len() > 0 {
                assert(s.drop_first() =~= skipped(s, 1));
            } else {
                assert(t =~= s);
            }
            if t.len() == 0 {
                assert(skipped(skipped(s, gap + 1), gap) =~= t);
            }
        }
        if self.first_take {
            self.first_take = false;
            self.iter.next()
        } else {
            self.iter.nth(self.step)
        }
    }
}

/// What `stepped` is of a sequence with a first element.
pub proof fn lemma_stepped_unfold<T>(s: Seq<T>, gap: nat)
    ensures
        s.len() == 0 ==> stepped(s, gap).len() == 0,
        s.len() > 0 ==> stepped(s, gap).len() > 0 && stepped(s, gap)[0] == s[0] && stepped(
            s,
            gap,
        ).drop_first() == stepped(skipped(skipped(s, 1), gap), gap),
{
    if s.len() > 0 {
        let rest = stepped(skipped(s, gap + 1), gap);
        assert(stepped(s, gap) == seq![s[0]] + rest);
        assert(stepped(s, gap).drop_first() =~= rest);
        assert(skipped(s, gap + 1) =~= skipped(skipped(s, 1), gap));
    }
}

} // verus!
