use gat_lending_iterator::{LendingIterator, Peekable, ToLendingIterator};
use std::cell::Cell;
use std::rc::Rc;

/// An iterator that counts how often it is asked.
struct Counting<I> {
    inner: I,
    pulls: Rc<Cell<usize>>,
}

impl<I: Iterator> Iterator for Counting<I> {
    type Item = I::Item;
    fn next(&mut self) -> Option<I::Item> {
        self.pulls.set(self.pulls.get() + 1);
        self.inner.next()
    }
}

fn counting<I: Iterator>(inner: I) -> (Counting<I>, Rc<Cell<usize>>) {
    let pulls = Rc::new(Cell::new(0));
    (
        Counting {
            inner,
            pulls: pulls.clone(),
        },
        pulls,
    )
}

fn collect<L>(it: L) -> Vec<i32>
where
    L: for<'a> LendingIterator<Item<'a> = i32> + 'static,
{
    it.fold(Vec::new(), |mut v, x| {
        v.push(x);
        v
    })
}

#[test]
fn lifted_count_is_source_count() {
    for n in [0usize, 1, 2, 7, 100] {
        assert_eq!((0..n).into_lending().count(), (0..n).count());
        assert_eq!((0..n).lend_refs().count(), n);
        assert_eq!((0..n).lend_refs_mut().count(), n);
    }
    assert_eq!(vec![3, 1, 4, 1, 5].into_iter().into_lending().count(), 5);
}

#[test]
fn chain_counts_both_and_keeps_order() {
    let a = (0..3).into_lending();
    let b = (10..12).into_lending();
    assert_eq!(collect(a.chain(b)), vec![0, 1, 2, 10, 11]);
    for (n, m) in [(0, 0), (0, 3), (4, 0), (5, 6)] {
        let count = (0..n).into_lending().chain((0..m).into_lending()).count();
        assert_eq!(count, (0..n).count() + (0..m).count());
    }
}

#[test]
fn zip_counts_the_shorter() {
    for (n, m) in [(0usize, 0usize), (0, 3), (4, 0), (5, 6), (6, 5), (4, 4)] {
        let count = (0..n).into_lending().zip((0..m).into_lending()).count();
        assert_eq!(count, n.min(m));
    }
    let pairs = (0..3)
        .into_lending()
        .zip((10..20).into_lending())
        .fold(Vec::new(), |mut v, p| {
            v.push(p);
            v
        });
    assert_eq!(pairs, vec![(0, 10), (1, 11), (2, 12)]);
}

#[test]
fn take_counts_the_smaller() {
    for (n, len) in [(0usize, 0usize), (0, 5), (3, 5), (5, 5), (9, 5)] {
        assert_eq!((0..len).into_lending().take(n).count(), n.min(len));
    }
    assert_eq!(collect((0..10).into_lending().take(3)), vec![0, 1, 2]);
}

#[test]
fn take_zero_never_advances() {
    let (source, pulls) = counting(0..5);
    let mut taken = source.into_lending().take(0);
    assert_eq!(taken.next(), None);
    assert_eq!(taken.next(), None);
    assert_eq!(pulls.get(), 0);
}

#[test]
fn take_stops_asking_after_n() {
    let (source, pulls) = counting(0..5);
    let mut taken = source.into_lending().take(2);
    assert_eq!(taken.next(), Some(0));
    assert_eq!(taken.next(), Some(1));
    assert_eq!(taken.next(), None);
    assert_eq!(taken.next(), None);
    assert_eq!(pulls.get(), 2);
}

#[test]
fn skip_counts_what_is_left() {
    for (n, len) in [(0usize, 0usize), (0, 5), (3, 5), (5, 5), (9, 5)] {
        assert_eq!(
            (0..len).into_lending().skip(n).count(),
            len.saturating_sub(n)
        );
    }
    assert_eq!(collect((0..6).into_lending().skip(4)), vec![4, 5]);
}

#[test]
fn adapters_are_lazy() {
    let (a, pulls_a) = counting(0..5);
    let (b, pulls_b) = counting(5..9);
    let chain = a
        .lend_refs()
        .chain(b.lend_refs())
        .filter(|x| **x % 2 == 0)
        .skip_while(|x| **x < 2)
        .map(|x: &i32| *x + 1)
        .take(10)
        .skip(1)
        .step_by(1)
        .enumerate();
    assert_eq!(pulls_a.get(), 0);
    assert_eq!(pulls_b.get(), 0);
    let seen = chain.fold(Vec::new(), |mut v, p| {
        v.push(p);
        v
    });
    assert_eq!(seen, vec![(0, 5), (1, 9)]);
    assert!(pulls_a.get() > 0);
}

#[test]
fn peek_does_not_advance() {
    let (source, pulls) = counting(vec![7, 8, 9].into_iter());
    let mut peekable = Peekable::new(source.into_lending());
    assert_eq!(pulls.get(), 0);
    let first = peekable.peek().copied();
    let second = peekable.peek().copied();
    assert_eq!(first, Some(7));
    assert_eq!(first, second);
    assert_eq!(pulls.get(), 1);
    assert_eq!(peekable.next(), Some(7));
    assert_eq!(pulls.get(), 1);
    assert_eq!(peekable.peek(), Some(&8));
    assert_eq!(peekable.count(), 2);
}

#[test]
fn count_after_peek_is_one_more() {
    let mut peekable = Peekable::new((0..6).into_lending());
    assert_eq!(peekable.next(), Some(0));
    assert_eq!(peekable.peek(), Some(&1));
    let inner_left = (2..6).count();
    assert_eq!(peekable.count(), 1 + inner_left);

    let mut ended = Peekable::new((0..0).into_lending());
    assert_eq!(ended.peek(), None);
    assert_eq!(ended.count(), 0);
}

#[test]
fn take_while_is_fused() {
    let (source, pulls) = counting(vec![1, 2, 9, 3, 4].into_iter());
    let mut it = source.into_lending().take_while(|x| *x < 5);
    assert_eq!(it.next(), Some(1));
    assert_eq!(it.next(), Some(2));
    assert_eq!(it.next(), None);
    assert_eq!(pulls.get(), 3);
    for _ in 0..10 {
        assert_eq!(it.next(), None);
    }
    assert_eq!(pulls.get(), 3);
    assert_eq!(it.size_hint(), (0, Some(0)));
}

#[test]
fn cloned_gives_equal_values() {
    let source = vec![String::from("a"), String::from("bc"), String::new()];
    let mut direct = Vec::new();
    source
        .clone()
        .into_iter()
        .lend_refs()
        .for_each(|s: &String| direct.push(s.clone()));
    let mut plain = source.clone().into_iter().lend_refs().cloned().into_iter();
    let mut cloned = Vec::new();
    while let Some(s) = plain.next() {
        cloned.push(s);
    }
    assert_eq!(cloned, direct);
    assert_eq!(cloned, source);
}

/// A lending iterator that is not fused: it lends nothing once, and numbers
/// after that.
struct Late {
    waited: bool,
    next: i32,
}

impl LendingIterator for Late {
    type Item<'a> = i32;
    fn next(&mut self) -> Option<i32> {
        if self.waited {
            self.next += 1;
            Some(self.next)
        } else {
            self.waited = true;
            None
        }
    }
}

#[test]
fn take_while_is_fused_at_the_end_below() {
    let late = Late {
        waited: false,
        next: 0,
    };
    let mut it = late.take_while(|_| true);
    assert_eq!(it.next(), None);
    assert!(it.done);
    for _ in 0..5 {
        assert_eq!(it.next(), None);
    }
    assert!(!it.iter.waited || it.iter.next == 0);

    let mut ended = (0..2).into_lending().take_while(|x| *x < 9);
    assert_eq!(ended.next(), Some(0));
    assert_eq!(ended.next(), Some(1));
    assert!(!ended.done);
    assert_eq!(ended.next(), None);
    assert!(ended.done);
    assert_eq!(ended.size_hint(), (0, Some(0)));
}
