use vstd::prelude::*;
use crate::model::{min_nat, zipped};
use crate::traits::cursor::CursorLendingIterator;
use crate::traits::lending_iterator::LendingIterator;

verus! {

/// A lending iterator that iterates two other lending iterators
/// simultaneously.
#[derive(Clone, Debug)]
pub struct Zip<A, B> {
    pub a: A,
    pub b: B,
}

impl<A, B> Zip<A, B> {
    pub fn new(a: A, b: B) -> (r: Zip<A, B>)
        ensures
            r.a == a,
            r.b == b,
    {
        Zip { a, b }
    }
}

impl<A, B> LendingIterator for Zip<A, B> where
    A: LendingIterator + 'static,
    B: LendingIterator + 'static,
 {
    type Item<'a> = (A::Item<'a>, B::Item<'a>);

    open spec fn wf(&self) -> bool {
        self.a.wf() && self.b.wf()
    }

    open spec fn bound(&self) -> nat {
        self.a.bound() + self.b.bound()
    }

    open spec fn lawful(&self) -> bool {
        self.a.lawful() && self.b.lawful()
    }

    open spec fn remaining<'a>(&'a self) -> Seq<Self::Item<'a>> {
        zipped(self.a.remaining(), self.b.remaining())
    }

    /// Advances `a` and, if it lent an element, `b`; lends the pair if both
    /// did.
    fn next(&mut self) -> (ret: Option<Self::Item<'_>>)
        ensures
            exists|m: &mut A, first: Option<A::Item<'_>>|
                *m == old(self).a && *final(m) == final(self).a && #[trigger] call_ensures(
                    A::next,
                    (m,),
                    first,
                ) && match first {
                    Some(x) => exists|k: &mut B, second: Option<B::Item<'_>>|
                        *k == old(self).b && *final(k) == final(self).b && #[trigger] call_ensures(
                            B::next,
                            (k,),
                            second,
                        ) && ret == match second {
                            Some(y) => Some((x, y)),
                            None => None,
                        },
                    None => ret is None && final(self).b == old(self).b,
                },
    {
        match self.a.next() {
            Some(a) => match self.b.next() {
                Some(b) => Some((a, b)),
                None => None,
            },
            None => None,
        }
    }
}

/// Two lawful iterators zipped are lawful, and lend the pairs of their
/// elements, as many as the shorter of them has elements.
pub proof fn lemma_zip_count<A, B>(a: A, b: B) where
    A: LendingIterator + 'static,
    B: LendingIterator + 'static,

    requires
        a.lawful(),
        b.lawful(),
    ensures
        (Zip { a, b }).lawful(),
        (Zip { a, b }).remaining().len() == min_nat(a.remaining().len(), b.remaining().len()),
        forall|i: int|
            0 <= i < (Zip { a, b }).remaining().len() ==> #[trigger] (Zip { a, b }).remaining()[i]
                == (a.remaining()[i], b.remaining()[i]),
{
}

impl<A, B> CursorLendingIterator for Zip<A, B> where
    A: CursorLendingIterator + 'static,
    B: CursorLendingIterator + 'static,
 {
    open spec fn can_get(&self) -> bool {
        self.a.can_get() && self.b.can_get()
    }

    /// The pair of the elements that `a` and `b` stand on.
    open spec fn current<'a>(&'a self) -> Option<Self::Item<'a>> {
        match (self.a.current(), self.b.current()) {
            (Some(x), Some(y)) => Some((x, y)),
            _ => None,
        }
    }

    /// Moves `a` on and, if it found an element, `b`.
    fn advance(&mut self) -> (more: bool)
        ensures
            exists|m: &mut A, first: bool|
                *m == old(self).a && *final(m) == final(self).a && #[trigger] call_ensures(
                    A::advance,
                    (m,),
                    first,
                ) && if first {
                    exists|k: &mut B|
                        *k == old(self).b && *final(k) == final(self).b && #[trigger] call_ensures(
                            B::advance,
                            (k,),
                            more,
                        )
                } else {
                    !more && final(self).b == old(self).b
                },
    {
        let first = self.a.advance();
        let more = if first {
            self.b.advance()
        } else {
            false
        };
        proof {
            assert(self.can_get() == (self.a.can_get() && self.b.can_get()));
            assert(self.current() == match (self.a.current(), self.b.current()) {
                (Some(x), Some(y)) => Some((x, y)),
                _ => None,
            });
        }
        more
    }

    /// Pairs the elements that `a` and `b` stand on; `b` is asked only if `a`
    /// lent one.
    fn get(&mut self) -> (ret: Option<Self::Item<'_>>)
        ensures
            exists|m: &mut A, first: Option<A::Item<'_>>|
                *m == old(self).a && *final(m) == final(self).a && #[trigger] call_ensures(
                    A::get,
                    (m,),
                    first,
                ) && match first {
                    Some(x) => exists|k: &mut B, second: Option<B::Item<'_>>|
                        *k == old(self).b && *final(k) == final(self).b && #[trigger] call_ensures(
                            B::get,
                            (k,),
                            second,
                        ) && ret == match second {
                            Some(y) => Some((x, y)),
                            None => None,
                        },
                    None => ret is None && final(self).b == old(self).b,
                },
    {
        proof {
            assert(self.can_get() == (self.a.can_get() && self.b.can_get()));
            assert(self.current() == match (self.a.current(), self.b.current()) {
                (Some(x), Some(y)) => Some((x, y)),
                _ => None,
            });
        }
        match self.a.get() {
            Some(a) => match self.b.get() {
                Some(b) => Some((a, b)),
                None => None,
            },
            None => None,
        }
    }
}

} // verus!
