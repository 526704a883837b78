use vstd::prelude::*;
use crate::traits::lending_iterator::LendingIterator;

verus! {

/// A lending iterator that knows its exact length: its size hint has an
/// upper bound that is equal to the lower one.
pub trait ExactSizeLendingIterator: LendingIterator {
    /// Returns the exact remaining length of the iterator: the lower bound of
    /// its size hint, which has to be equal to the upper one.
    fn len(&self) -> (n: usize)
        requires
            forall|hint: (usize, Option<usize>)|
                #[trigger] call_ensures(Self::size_hint, (self,), hint) ==> hint.1 == Some(hint.0),
        ensures
            exists|hint: (usize, Option<usize>)|
                #[trigger] call_ensures(Self::size_hint, (self,), hint) && n == hint.0,
            self.lawful() ==> n == self.remaining().len(),
    {
        let (lower, _) = self.size_hint();
        lower
    }

    /// Returns `true` if the iterator is empty: if the lower bound of its
    /// size hint, which has to be equal to the upper one, is zero.
    fn is_empty(&self) -> (b: bool)
        requires
            forall|hint: (usize, Option<usize>)|
                #[trigger] call_ensures(Self::size_hint, (self,), hint) ==> hint.1 == Some(hint.0),
        ensures
            exists|hint: (usize, Option<usize>)|
                #[trigger] call_ensures(Self::size_hint, (self,), hint) && b == (hint.0 == 0),
            self.lawful() ==> b == (self.remaining().len() == 0),
    {
        self.len() == 0
    }
}

/// A lending iterator that does not know its exact length but knows when it
/// is empty.
pub trait HasNextLendingIterator: LendingIterator {
    /// Returns `true` if the iterator has more items or `false` if it is empty.
    fn has_next(&self) -> (b: bool)
        ensures
            self.lawful() ==> b == (self.remaining().len() > 0),
    ;
}

} // verus!
