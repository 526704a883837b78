use gat_lending_iterator::{
    once, CursorLendingIterator, LendingIterator, ToLendingIterator, TrustedLen,
};

fn wants_trusted_len<I: TrustedLen>(it: &I) -> (usize, Option<usize>) {
    it.size_hint()
}

#[test]
fn once_has_a_trusted_length() {
    let mut it = once(7);
    assert_eq!(wants_trusted_len(&it), (1, Some(1)));
    assert_eq!(it.next(), Some(&7));
    assert_eq!(wants_trusted_len(&it), (0, Some(0)));
}

#[test]
fn enumerate_is_a_cursor() {
    let mut it = vec![10, 20, 30].into_iter().lend_refs().enumerate();
    assert!(it.advance());
    assert_eq!(it.get(), Some((0, &10)));
    assert_eq!(it.get(), Some((0, &10)));
    assert!(it.advance());
    assert_eq!(it.get(), Some((1, &20)));
    assert_eq!(it.next(), Some((2, &30)));
    assert!(!it.advance());
    assert_eq!(it.next(), None);
}

#[test]
fn filter_over_enumerate_keeps_the_numbers() {
    let mut it = vec![5, 6, 7, 8]
        .into_iter()
        .lend_refs()
        .enumerate()
        .filter(|pair| *pair.1 % 2 == 0);
    assert_eq!(it.next(), Some((1, &6)));
    assert_eq!(it.next(), Some((3, &8)));
    assert_eq!(it.next(), None);
}

#[test]
fn zip_is_a_cursor() {
    let mut it = vec![1, 2, 3]
        .into_iter()
        .lend_refs()
        .zip(vec!['a', 'b'].into_iter().lend_refs());
    assert!(it.advance());
    assert_eq!(it.get(), Some((&1, &'a')));
    assert!(it.advance());
    assert_eq!(it.get(), Some((&2, &'b')));
    assert!(!it.advance());
}

#[test]
fn skip_while_over_zip_lends_from_the_first_rejected_pair() {
    let mut it = vec![1, 5, 2, 6]
        .into_iter()
        .lend_refs()
        .zip(vec![0, 1, 2, 3].into_iter().lend_refs())
        .skip_while(|pair| *pair.0 < 3);
    assert_eq!(it.next(), Some((&5, &1)));
    assert_eq!(it.next(), Some((&2, &2)));
    assert_eq!(it.next(), Some((&6, &3)));
    assert_eq!(it.next(), None);
}

#[test]
fn count_and_position_of_a_lifted_vector() {
    assert_eq!(vec![4, 5, 6].into_iter().into_lending().count(), 3);
    assert_eq!(Vec::<i32>::new().into_iter().into_lending().count(), 0);
    let mut it = vec![4, 5, 6, 7].into_iter().into_lending();
    assert_eq!(it.position(|x| x == 6), Some(2));
    assert_eq!(it.next(), Some(7));
    assert_eq!(it.position(|x| x == 6), None);
}

#[test]
fn enumerate_counts_from_zero_over_a_lifted_vector() {
    let mut it = vec!['x', 'y'].into_iter().into_lending().enumerate();
    assert_eq!(it.next(), Some((0, 'x')));
    assert_eq!(it.next(), Some((1, 'y')));
    assert_eq!(it.next(), None);
    assert_eq!(it.count, 2);
}

#[test]
fn peekable_with_the_end_held_folds_to_init() {
    let mut it = Vec::<i32>::new().into_iter().into_lending().peekable();
    assert_eq!(it.peek(), None);
    assert_eq!(it.fold(41, |acc, x| acc + x), 41);
    let mut it = vec![1, 2, 3].into_iter().into_lending().peekable();
    assert_eq!(it.peek(), Some(&1));
    assert_eq!(it.fold(10, |acc, x| acc * 2 + x), ((10 * 2 + 1) * 2 + 2) * 2 + 3);
}

#[test]
fn nth_on_skip_passes_over_both() {
    let mut it = (0..5).into_lending().skip(1);
    assert_eq!(it.nth(1), Some(2));
    assert_eq!(it.nth(0), Some(3));
    assert_eq!(it.nth(5), None);
}
