use gat_lending_iterator::{LendingIterator, ToLendingIterator};

// A non-fused iterator for testing that we match std's behavior
struct Delay<I> {
    countdown: usize,
    iter: I,
}

impl<I> Delay<I> {
    fn new(countdown: usize, iter: I) -> Self {
        Delay { countdown, iter }
    }
}

impl<I: LendingIterator> LendingIterator for Delay<I> {
    type Item<'a> = I::Item<'a> where Self: 'a;
    fn next(&mut self) -> Option<Self::Item<'_>> {
        if self.countdown == 0 {
            self.iter.next()
        } else {
            self.countdown -= 1;
            None
        }
    }
}

impl<I: Iterator> Iterator for Delay<I> {
    type Item = I::Item;
    fn next(&mut self) -> Option<Self::Item> {
        if self.countdown == 0 {
            self.iter.next()
        } else {
            self.countdown -= 1;
            None
        }
    }
}

#[test]
fn enumerate_test() {
    let first = Some((0, ()));
    let second = Some((1, ()));
    let mut delay_iter = Delay::new(1, core::iter::repeat(()).take(2)).enumerate();
    let mut delay_lending =
        Delay::new(1, core::iter::repeat(()).into_lending().take(2)).enumerate();

    assert_eq!((None, None), (delay_iter.next(), delay_lending.next()));
    assert_eq!((first, first), (delay_iter.next(), delay_lending.next()));
    assert_eq!((second, second), (delay_iter.next(), delay_lending.next()));
    assert_eq!((None, None), (delay_iter.next(), delay_lending.next()));
}

#[test]
fn skip_test() {
    assert_eq!((0..5).into_lending().skip(1).nth(1), (0..5).skip(1).nth(1))
}

#[test]
fn take_test() {
    assert_eq!(
        std::iter::repeat(())
            .into_lending()
            .take(5)
            .fold(0, |count, ()| { count + 1 }),
        5
    );
}
