use vstd::prelude::*;
use crate::traits::cursor::CursorLendingIterator;
use crate::traits::lending_iterator::LendingIterator;

verus! {

/// A lending iterator that iterates over the elements of two iterators in
/// sequence.
#[derive(Clone, Debug)]
pub struct Chain<A, B> {
    pub a: A,
    pub b: B,
    pub a_done: bool,
}

impl<A, B> Chain<A, B> {
    pub fn new(a: A, b: B) -> (r: Chain<A, B>)
        ensures
            r.a == a,
            r.b == b,
            !r.a_done,
    {
        Chain { a, b, a_done: false }
    }
}

impl<A, B> LendingIterator for Chain<A, B> where
    A: LendingIterator + 'static,
    for <'a>B: LendingIterator<Item<'a> = A::Item<'a>> + 'static,
 {
    type Item<'a> = A::Item<'a>;

    /// Once `a` has ended only `b` is asked.
    open spec fn wf(&self) -> bool {
        (self.a_done || self.a.wf()) && self.b.wf()
    }

    open spec fn bound(&self) -> nat {
        if self.a_done {
            self.b.bound()
        } else {
            self.a.bound() + self.b.bound() + 1
        }
    }

    open spec fn lawful(&self) -> bool {
        &&& self.a.lawful()
        &&& self.b.lawful()
        &&& self.a_done ==> self.a.remaining().len() == 0
    }

    /// What `a` has left, unless it is done with, and then what `b` has.
    open spec fn remaining<'a>(&'a self) -> Seq<Self::Item<'a>> {
        if self.a_done {
            self.b.remaining()
        } else {
            self.a.remaining() + self.b.remaining()
        }
    }

    /// Lends from `a` until it ends, and from `b` after that. Once `a` has
    /// ended it is not asked again.
    fn next(&mut self) -> (ret: Option<A::Item<'_>>)
        ensures
            old(self).a_done ==> final(self).a_done && final(self).a == old(self).a
                && exists|k: &mut B|
                *k == old(self).b && *final(k) == final(self).b && #[trigger] call_ensures(
                    B::next,
                    (k,),
                    ret,
                ),
            !old(self).a_done ==> exists|m: &mut A, first: Option<A::Item<'_>>|
                *m == old(self).a && *final(m) == final(self).a && #[trigger] call_ensures(
                    A::next,
                    (m,),
                    first,
                ) && match first {
                    Some(x) => ret == first && !final(self).a_done && final(self).b == old(self).b,
                    None => final(self).a_done && exists|k: &mut B|
                        *k == old(self).b && *final(k) == final(self).b && #[trigger] call_ensures(
                            B::next,
                            (k,),
                            ret,
                        ),
                },
            old(self).lawful() && old(self).a.remaining().len() == 0 ==> final(self).a_done,
    {
        if self.a_done {
            self.b.next()
        } else {
            match self.a.next() {
                Some(x) => Some(x),
                None => {
                    self.a_done = true;
                    self.b.next()
                },
            }
        }
    }
}

/// A chain of two lawful iterators is lawful, and lends the elements of the
/// first, in their order, and then those of the second, in theirs. So it
/// counts as many as both count together.
pub proof fn lemma_chain_count<A, B>(a: A, b: B) where
    A: LendingIterator + 'static,
    for <'a>B: LendingIterator<Item<'a> = A::Item<'a>> + 'static,

    requires
        a.lawful(),
        b.lawful(),
    ensures
        (Chain { a, b, a_done: false }).lawful(),
        (Chain { a, b, a_done: false }).remaining() == a.remaining() + b.remaining(),
        (Chain { a, b, a_done: false }).remaining().len() == a.remaining().len()
            + b.remaining().len(),
{
}

impl<A, B> CursorLendingIterator for Chain<A, B> where
    A: CursorLendingIterator + 'static,
    for <'a>B: CursorLendingIterator<Item<'a> = A::Item<'a>> + 'static,
 {
    open spec fn can_get(&self) -> bool {
        if self.a_done {
            self.b.can_get()
        } else {
            self.a.can_get()
        }
    }

    open spec fn current<'a>(&'a self) -> Option<Self::Item<'a>> {
        if self.a_done {
            self.b.current()
        } else {
            self.a.current()
        }
    }

    /// Moves `a` on until it ends, and `b` after that.
    fn advance(&mut self) -> (more: bool)
        ensures
            old(self).a_done ==> final(self).a_done && final(self).a == old(self).a,
            old(self).a_done ==> exists|m: &mut B|
                *m == old(self).b && *final(m) == final(self).b && #[trigger] call_ensures(
                    B::advance,
                    (m,),
                    more,
                ),
            !old(self).a_done ==> exists|m: &mut A, first: bool|
                *m == old(self).a && *final(m) == final(self).a && #[trigger] call_ensures(
                    A::advance,
                    (m,),
                    first,
                ) && if first {
                    more && !final(self).a_done && final(self).b == old(self).b
                } else {
                    final(self).a_done && exists|k: &mut B|
                        *k == old(self).b && *final(k) == final(self).b && #[trigger] call_ensures(
                            B::advance,
                            (k,),
                            more,
                        )
                },
    {
        let more = if self.a_done {
            self.b.advance()
        } else {
            if self.a.advance() {
                true
            } else {
                self.a_done = true;
                self.b.advance()
            }
        };
        proof {
            assert(self.can_get()
                == (if self.a_done { self.b.can_get() } else { self.a.can_get() }));
            assert(self.current() == if self.a_done {
                self.b.current()
            } else {
                self.a.current()
            });
        }
        more
    }

    /// Lends the element that `a` stands on until `a` has ended, and the one
    /// that `b` stands on after that.
    fn get(&mut self) -> (ret: Option<Self::Item<'_>>)
        ensures
            final(self).a_done == old(self).a_done,
            old(self).a_done ==> final(self).a == old(self).a && exists|m: &mut B|
                    *m == old(self).b && *final(m) == final(self).b && #[trigger] call_ensures(
                        B::get,
                        (m,),
                        ret,
                    ),
            !old(self).a_done ==> final(self).b == old(self).b && exists|m: &mut A|
                    *m == old(self).a && *final(m) == final(self).a && #[trigger] call_ensures(
                        A::get,
                        (m,),
                        ret,
                    ),
    {
        proof {
            assert(self.can_get()
                == (if self.a_done { self.b.can_get() } else { self.a.can_get() }));
            assert(self.current() == if self.a_done {
                self.b.current()
            } else {
                self.a.current()
            });
        }
        if self.a_done {
            self.b.get()
        } else {
            self.a.get()
        }
    }
}

} // verus!
