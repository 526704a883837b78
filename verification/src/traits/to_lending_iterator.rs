use vstd::prelude::*;
use vstd::std_specs::iter::IteratorSpec;
use crate::model::{skipped, taken};
use crate::to_lending::into_lending::IntoLending;
use crate::to_lending::lend_refs::LendRefs;
use crate::to_lending::lend_refs_mut::LendRefsMut;
use crate::to_lending::windows::Windows;
use crate::to_lending::windows_mut::WindowsMut;

verus! {

/// An extension trait for iterators that allows turning them into lending
/// iterators. Nothing is taken from the iterator until the lending iterator
/// is advanced.
pub trait ToLendingIterator: Iterator {
    /// Turns this iterator into a lending iterator over windows of elements
    /// (`&[Item]`), after taking its first `size - 1` elements into the
    /// buffer that holds the windows.
    ///
    /// The buffer grows to at most `2 * size - 1` elements: a buffer of
    /// `size` would have every element moved in every step.
    fn windows(self, size: usize) -> (r: Windows<Self>) where Self: Sized
        requires
            1 <= size,
        ensures
            r.size == size,
            r.buf@.len() <= size - 1,
            r.iter.obeys_prophetic_iter_laws() == self.obeys_prophetic_iter_laws(),
            self.obeys_prophetic_iter_laws() ==> (self.decrease() is Some
                <==> r.iter.decrease() is Some),
            self.obeys_prophetic_iter_laws() ==> r.buf@ == taken(
                self.remaining(),
                (size - 1) as nat,
            ) && r.iter.remaining() == skipped(self.remaining(), (size - 1) as nat),
    {
        Windows::new(self, size)
    }

    /// Turns this iterator into a lending iterator over mutable windows of
    /// elements (`&mut [Item]`), after taking its first `size - 1` elements
    /// into the buffer that holds the windows.
    fn windows_mut(self, size: usize) -> (r: WindowsMut<Self>) where Self: Sized
        requires
            1 <= size,
        ensures
            r.size == size,
            r.buf@.len() <= size - 1,
            r.iter.obeys_prophetic_iter_laws() == self.obeys_prophetic_iter_laws(),
            self.obeys_prophetic_iter_laws() ==> (self.decrease() is Some
                <==> r.iter.decrease() is Some),
            self.obeys_prophetic_iter_laws() ==> r.buf@ == taken(
                self.remaining(),
                (size - 1) as nat,
            ) && r.iter.remaining() == skipped(self.remaining(), (size - 1) as nat),
    {
        WindowsMut::new(self, size)
    }

    /// Turns this iterator into a lending iterator trivially.
    fn into_lending(self) -> (r: IntoLending<Self>) where Self: Sized
        ensures
            r.iter == self,
    {
        IntoLending::new(self)
    }

    /// Turns this iterator into a lending iterator that lends references to
    /// the iterator's items.
    fn lend_refs(self) -> (r: LendRefs<Self>) where Self: Sized
        ensures
            r.iter == self,
            r.item is None,
    {
        LendRefs::new(self)
    }

    /// Turns this iterator into a lending iterator that lends mutable
    /// references to the iterator's items.
    fn lend_refs_mut(self) -> (r: LendRefsMut<Self>) where Self: Sized
        ensures
            r.iter == self,
            r.item is None,
    {
        LendRefsMut::new(self)
    }
}

impl<I: Iterator> ToLendingIterator for I {
}

} // verus!
