use gat_lending_iterator::adapters::peekable::peekable_size_hint;
use gat_lending_iterator::adapters::skip::skip_size_hint;
use gat_lending_iterator::adapters::skip_while::skip_while_size_hint;
use gat_lending_iterator::adapters::take_while::take_while_size_hint;
use gat_lending_iterator::{
    once, CursorLendingIterator, ExactSizeLendingIterator, HasNextLendingIterator,
    IntersperseWith, LendingIterator, OptionTrait, Peekable, StepBy, ToLendingIterator,
};

/// A lending iterator over a vector that knows whether it has more.
struct Lender {
    items: Vec<i32>,
    at: usize,
}

impl LendingIterator for Lender {
    type Item<'a> = &'a i32;
    fn next(&mut self) -> Option<&i32> {
        let item = self.items.get(self.at);
        if item.is_some() {
            self.at += 1;
        }
        item
    }
}

impl HasNextLendingIterator for Lender {
    fn has_next(&self) -> bool {
        self.at < self.items.len()
    }
}

fn separator<'a>(_: &'a ()) -> &'a i32 {
    &0
}

fn collect<L>(it: L) -> Vec<i32>
where
    L: for<'a> LendingIterator<Item<'a> = i32> + 'static,
{
    it.fold(Vec::new(), |mut v, x| {
        v.push(x);
        v
    })
}

fn collect_refs<L>(it: L) -> Vec<i32>
where
    L: for<'a> LendingIterator<Item<'a> = &'a i32> + 'static,
{
    let mut v = Vec::new();
    it.for_each(|x: &i32| v.push(*x));
    v
}

#[test]
fn once_lends_one_element() {
    let mut it = once(5);
    assert!(it.has_next());
    assert_eq!(it.len(), 1);
    assert!(!it.is_empty());
    assert_eq!(it.next(), Some(&5));
    assert!(!it.has_next());
    assert_eq!(it.len(), 0);
    assert!(it.is_empty());
    assert_eq!(it.next(), None);
    assert_eq!(it.next(), None);
    assert_eq!(once(String::from("x")).count(), 1);

    let mut it = once(5);
    assert_eq!(it.get(), None);
    assert!(it.advance());
    assert_eq!(it.get(), Some(&5));
    assert!(!it.advance());
    assert_eq!(it.get(), None);
}

#[test]
fn step_by_passes_over_step_elements() {
    assert_eq!(collect((0..10).into_lending().step_by(3)), vec![0, 4, 8]);
    assert_eq!(collect((0..10).into_lending().step_by(1)), vec![0, 2, 4, 6, 8]);
    assert_eq!(collect((0..10).into_lending().step_by(8)), vec![0, 9]);
    assert_eq!(collect((0..10).into_lending().step_by(9)), vec![0]);
    assert_eq!(collect((0..10).into_lending().step_by(20)), vec![0]);
    assert_eq!(collect((0..0).into_lending().step_by(2)), Vec::<i32>::new());
    let mut stepped = StepBy::new((0..5).into_lending(), 2);
    assert_eq!(stepped.step, 2);
    assert!(stepped.first_take);
    assert_eq!(stepped.next(), Some(0));
    assert!(!stepped.first_take);
    assert_eq!(stepped.next(), Some(3));
    assert_eq!(stepped.next(), None);
}

#[test]
fn enumerate_counts_what_was_lent() {
    let pairs = (5..8)
        .into_lending()
        .enumerate()
        .fold(Vec::new(), |mut v, p| {
            v.push(p);
            v
        });
    assert_eq!(pairs, vec![(0, 5), (1, 6), (2, 7)]);
}

#[test]
fn filter_keeps_what_the_predicate_takes() {
    let it = (0..10).lend_refs().filter(|x| **x % 3 == 0);
    assert_eq!(collect_refs(it), vec![0, 3, 6, 9]);
    let it = (0..10).lend_refs().filter(|_| false);
    assert_eq!(collect_refs(it), Vec::<i32>::new());
    let mut it = (0..4).lend_refs().filter(|x| **x > 1);
    assert!(it.advance());
    assert_eq!(it.get(), Some(&2));
    assert!(it.advance());
    assert_eq!(it.get(), Some(&3));
    assert!(!it.advance());
}

#[test]
fn filter_map_keeps_what_the_function_makes() {
    let it = (0..6)
        .into_lending()
        .filter_map(|x| if x % 2 == 0 { Some(x * 10) } else { None });
    assert_eq!(collect(it), vec![0, 20, 40]);
    assert_eq!(Some(3).into_option(), Some(3));
    assert_eq!(None::<i32>.into_option(), None);
}

#[test]
fn map_may_lend_from_its_argument() {
    fn first(pair: &[i32]) -> &i32 {
        &pair[0]
    }
    let it = (0..4).windows(2).map(first);
    assert_eq!(collect_refs(it), vec![0, 1, 2]);
    let mut plain = (0..3).into_lending().map(|x| x * 2).into_iter();
    assert_eq!(plain.next(), Some(0));
    assert_eq!(plain.next(), Some(2));
    assert_eq!(plain.next(), Some(4));
    assert_eq!(plain.next(), None);
}

#[test]
fn skip_while_passes_the_rest() {
    let it = vec![1, 2, 7, 1, 2].into_iter().lend_refs().skip_while(|x| **x < 5);
    assert_eq!(collect_refs(it), vec![7, 1, 2]);
    let it = (0..3).lend_refs().skip_while(|_| true);
    assert_eq!(collect_refs(it), Vec::<i32>::new());
    let it = (0..3).lend_refs().skip_while(|_| false);
    assert_eq!(collect_refs(it), vec![0, 1, 2]);
    let mut it = (0..5).lend_refs().skip_while(|x| **x < 3);
    assert!(!it.flag);
    assert_eq!(it.next(), Some(&3));
    assert!(it.flag);
}

#[test]
fn take_while_drops_the_rejected_element() {
    let it = vec![1, 2, 7, 1, 2].into_iter().lend_refs().take_while(|x| **x < 5);
    assert_eq!(collect_refs(it), vec![1, 2]);
    let mut it = (0..5).lend_refs().take_while(|x| **x < 1);
    assert!(it.advance());
    assert_eq!(it.get(), Some(&0));
    assert!(!it.advance());
    assert_eq!(it.get(), None);
    assert!(it.done);
}

#[test]
fn intersperse_puts_separators_between() {
    let lender = Lender {
        items: vec![1, 2, 3],
        at: 0,
    };
    assert_eq!(
        collect_refs(IntersperseWith::new(lender, separator)),
        vec![1, 0, 2, 0, 3]
    );
    let lender = Lender {
        items: vec![4],
        at: 0,
    };
    assert_eq!(collect_refs(IntersperseWith::new(lender, separator)), vec![4]);
    let lender = Lender {
        items: vec![],
        at: 0,
    };
    assert_eq!(
        collect_refs(IntersperseWith::new(lender, separator)),
        Vec::<i32>::new()
    );
}

#[test]
fn chain_take_skip_lend_again() {
    let mut it = (0..2).lend_refs().chain((5..7).lend_refs()).skip(1).take(2);
    assert!(it.advance());
    assert_eq!(it.get(), Some(&1));
    assert!(it.advance());
    assert_eq!(it.get(), Some(&5));
    assert_eq!(it.get(), Some(&5));
    assert!(!it.advance());
}

#[test]
fn next_if_keeps_what_it_does_not_take() {
    let mut it = Peekable::new((0..5).into_lending());
    assert_eq!(it.next_if(|x| *x == 0), Some(0));
    assert_eq!(it.next_if(|x| *x == 0), None);
    assert_eq!(it.peeked, Some(Some(1)));
    assert_eq!(it.next_if_eq(&1), Some(1));
    assert_eq!(it.next_if_eq(&7), None);
    assert_eq!(it.next(), Some(2));
    assert_eq!(it.nth(1), Some(4));
    assert_eq!(it.next_if(|_| true), None);
    assert_eq!(it.peeked, Some(None));
    assert_eq!(it.next(), None);
}

#[test]
fn peekable_folds_what_it_holds() {
    let mut it = (1..4).into_lending().peekable();
    assert_eq!(it.peek(), Some(&1));
    assert_eq!(it.size_hint(), (1, None));
    assert_eq!(it.fold(0, |acc, x| acc * 10 + x), 123);

    let mut it = Peekable::new((1..4).into_lending());
    assert_eq!(it.peek_mut().map(|x| {
        *x = 9;
        *x
    }), Some(9));
    assert_eq!(it.nth(0), Some(9));
    assert_eq!(it.as_mut().next(), Some(2));
    assert_eq!(it.as_ref().size_hint(), (1, Some(1)));
    assert_eq!(it.fold(0, |acc, x| acc + x), 3);

    let mut it = Peekable::new((0..0).into_lending());
    assert_eq!(it.peek(), None);
    assert_eq!(it.size_hint(), (0, Some(0)));
    assert_eq!(it.fold(5, |acc, x: i32| acc + x), 5);
}

#[test]
fn size_hints_follow_their_formulas() {
    assert_eq!(skip_size_hint((5, Some(7)), 2), (3, Some(5)));
    assert_eq!(skip_size_hint((5, Some(7)), 6), (0, Some(1)));
    assert_eq!(skip_size_hint((5, None), 9), (0, None));
    assert_eq!(take_while_size_hint((5, Some(7)), false), (0, Some(7)));
    assert_eq!(take_while_size_hint((5, None), false), (0, None));
    assert_eq!(take_while_size_hint((5, Some(7)), true), (0, Some(0)));
    assert_eq!(skip_while_size_hint((5, Some(7))), (0, Some(7)));
    assert_eq!(peekable_size_hint(&Some(Some(1)), (5, Some(7))), (1, None));
    assert_eq!(peekable_size_hint(&Some(None::<i32>), (5, Some(7))), (0, Some(0)));
    assert_eq!(peekable_size_hint(&None::<Option<i32>>, (5, Some(7))), (5, Some(7)));
    assert_eq!((0..10).into_lending().skip(3).size_hint(), (7, Some(7)));
    assert_eq!((0..10).lend_refs().skip_while(|_| true).size_hint(), (0, None));
    assert_eq!((0..10).into_lending().take_while(|_| true).size_hint(), (0, Some(10)));
    assert_eq!((0..10).lend_refs().size_hint(), (0, None));
}

#[test]
fn clones_go_their_own_way() {
    let mut a = (0..4).into_lending().skip(1).enumerate();
    assert_eq!(a.next(), Some((0, 1)));
    let mut b = a.clone();
    assert_eq!(a.next(), Some((1, 2)));
    assert_eq!(a.next(), Some((2, 3)));
    assert_eq!(b.next(), Some((1, 2)));
    let w = (0..5).windows(2);
    assert_eq!(format!("{:?}", w.clone().buf), "[0]");
    assert_eq!(w.clone().count(), w.count());
    let z = (0..2).into_lending().zip((5..9).into_lending());
    assert!(format!("{z:?}").starts_with("Zip"));
}
