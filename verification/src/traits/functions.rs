//! Traits that give a name to the output of a function of one argument, so
//! that an adapter can hold a function whose output borrows from its input.

use vstd::prelude::*;
use crate::traits::lending_iterator::LendingIterator;

verus! {

/// A function of one argument that can be called once. `Output` is what it
/// returns for an argument of type `Arg`.
pub trait SingleArgFnOnce<Arg>: FnOnce(Arg) -> <Self as SingleArgFnOnce<Arg>>::Output {
    /// The output type of the function.
    type Output;
}

impl<F, Arg, O> SingleArgFnOnce<Arg> for F where F: FnOnce(Arg) -> O {
    type Output = O;
}

/// A function of one argument that can be called through `&mut`.
pub trait SingleArgFnMut<Arg>: SingleArgFnOnce<Arg> + FnMut(Arg) -> <Self as SingleArgFnOnce<
    Arg,
>>::Output {

}

impl<F, Arg, O> SingleArgFnMut<Arg> for F where F: FnMut(Arg) -> O {

}

/// A function of one argument that can be called through `&`.
pub trait SingleArgFn<Arg>: SingleArgFnMut<Arg> + Fn(Arg) -> <Self as SingleArgFnOnce<
    Arg,
>>::Output {

}

impl<F, Arg, O> SingleArgFn<Arg> for F where F: Fn(Arg) -> O {

}

/// Used in cases that a function needs to return an [`Option`] whose lifetime
/// is tied to the input.
pub trait OptionTrait {
    /// The type of the item in the option.
    type Item;

    /// The option that `self` stands for.
    spec fn option_view(self) -> Option<Self::Item>;

    /// Converts `self` into an `Option`.
    fn into_option(self) -> (r: Option<Self::Item>)
        ensures
            r == self.option_view(),
    ;
}

impl<T> OptionTrait for Option<T> {
    type Item = T;

    open spec fn option_view(self) -> Option<T> {
        self
    }

    fn into_option(self) -> (r: Option<T>) {
        self
    }
}

/// A function that makes of every element of `I` an option of one and the
/// same type, under whichever borrow the element is lent: so what it makes
/// does not borrow from the element. `Made` is that type.
pub trait FilterMapFn<I: LendingIterator
    + 'static>: for <'a>FnMut(I::Item<'a>) -> <Self as FilterMapFn<
    I,
>>::Made {
    /// What the function returns.
    type Made: OptionTrait;
}

impl<I, F, O> FilterMapFn<I> for F where
    I: LendingIterator + 'static,
    F: for <'a>FnMut(I::Item<'a>) -> O,
    O: OptionTrait,
 {
    type Made = O;
}

} // verus!
