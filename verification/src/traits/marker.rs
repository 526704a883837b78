use vstd::prelude::*;
use crate::sources::once::Once;
use crate::traits::lending_iterator::LendingIterator;

verus! {

/// A lending iterator that reports an accurate length using `size_hint`.
///
/// The promise is a proof that the implementation gives: of a lawful
/// iterator, a hint with an upper bound has both bounds equal to the number
/// of elements that are left, and a hint without one says that the number is
/// too large to be given. Code that is generic over this trait may rest on
/// the hint; only what was proved can implement it.
pub trait TrustedLen: LendingIterator {
    /// What the size hint of a lawful iterator says of its elements.
    proof fn hint_is_accurate(&self, hint: (usize, Option<usize>))
        requires
            self.lawful(),
            call_ensures(Self::size_hint, (self,), hint),
        ensures
            hint.1 matches Some(upper) ==> hint.0 == upper && upper == self.remaining().len(),
            hint.1 is None ==> hint.0 == usize::MAX && self.remaining().len() > usize::MAX,
    ;
}

impl<T: 'static> TrustedLen for Once<T> {
    proof fn hint_is_accurate(&self, hint: (usize, Option<usize>)) {
    }
}

} // verus!
