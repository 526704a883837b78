//! Iterators whose elements may borrow from the iterator itself.
//!
//! A [`LendingIterator`] hands out each element under the exclusive borrow
//! that advanced it, so an element has to be released before the next one is
//! asked for. That makes room for iterators that a plain [`Iterator`] cannot
//! be: one over overlapping windows of a buffer that it fills as it goes, or
//! one that lends a slot which it overwrites in every step.
//!
//! Every lending iterator carries a model. A *lawful* iterator has a
//! sequence of elements that it has still to lend, and `next` takes that
//! sequence's first element; the adapters say what their sequence is in
//! terms of the sequences below them, and the consuming methods say what
//! they return in terms of it. An iterator that is made from a plain
//! [`Iterator`] is not lawful in this sense, since what a plain iterator will
//! yield is no function of its state: such an iterator says in the contract
//! of its own `next` what it lends. The same holds of an iterator that lends
//! `&mut`, where the caller's writes decide what comes next.
//!
//! So every contract speaks of every iterator, lawful or not, through the
//! calls that were made. An adapter that asks the iterator below it once
//! says so: what it lends is what the contract of the `next` below allows.
//! A method that asks again and again says that there is a run of calls of
//! `next`, each on the state that the call before it left, and states its
//! result over what those calls returned. A caller who knows what one call
//! does, as of a lifted vector, learns from that what the method returns.
//!
//! What a function has to accept in order to be called on the elements is
//! said by `lends`: what an iterator knows beforehand of everything that it
//! may lend, as an iterator over windows knows their length.
//!
//! An adapter that must look at an element before it lends it, as `filter`
//! does, asks for a [`CursorLendingIterator`] below it: an iterator that can
//! move on without lending, and lend the element that it stands on.

pub mod model;
pub mod traits;
pub mod adapters;
pub mod to_lending;
pub mod sources;

pub use crate::traits::compare::LendingCompare;
pub use crate::traits::cursor::CursorLendingIterator;
pub use crate::traits::exact_size::{ExactSizeLendingIterator, HasNextLendingIterator};
pub use crate::traits::functions::{
    FilterMapFn, OptionTrait, SingleArgFn, SingleArgFnMut, SingleArgFnOnce,
};
pub use crate::traits::lending_iterator::LendingIterator;
pub use crate::traits::marker::TrustedLen;
pub use crate::traits::to_lending_iterator::ToLendingIterator;
pub use crate::adapters::chain::Chain;
pub use crate::adapters::cloned::Cloned;
pub use crate::adapters::enumerate::Enumerate;
pub use crate::adapters::filter::Filter;
pub use crate::adapters::filter_map::FilterMap;
pub use crate::adapters::intersperse::IntersperseWith;
pub use crate::adapters::map::{IntoIter, Mapped};
pub use crate::adapters::peekable::Peekable;
pub use crate::adapters::skip::Skip;
pub use crate::adapters::skip_while::SkipWhile;
pub use crate::adapters::step_by::StepBy;
pub use crate::adapters::take::Take;
pub use crate::adapters::take_while::TakeWhile;
pub use crate::adapters::zip::Zip;
pub use crate::to_lending::into_lending::IntoLending;
pub use crate::to_lending::lend_refs::LendRefs;
pub use crate::to_lending::lend_refs_mut::LendRefsMut;
pub use crate::to_lending::windows::Windows;
pub use crate::to_lending::windows_mut::WindowsMut;
pub use crate::sources::once::{once, Once};
