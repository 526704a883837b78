use gat_lending_iterator::{CursorLendingIterator, LendingIterator, Peekable, ToLendingIterator};

#[test]
fn advance_by_reports_what_was_missing() {
    let mut it = (0..5).into_lending();
    assert_eq!(it.advance_by(0), Ok(()));
    assert_eq!(it.advance_by(2), Ok(()));
    assert_eq!(it.next(), Some(2));
    assert_eq!(it.advance_by(5), Err(3));
    assert_eq!(it.next(), None);
    let mut it = (0..3).into_lending();
    assert_eq!(it.advance_by(3), Ok(()));
    assert_eq!(it.advance_by(1), Err(1));
}

#[test]
fn nth_passes_over_n_elements() {
    let mut it = (0..10).into_lending();
    assert_eq!(it.nth(0), Some(0));
    assert_eq!(it.nth(2), Some(3));
    assert_eq!(it.nth(5), Some(9));
    assert_eq!(it.nth(0), None);
    let mut it = (0..3).into_lending();
    assert_eq!(it.nth(3), None);
}

#[test]
fn fold_goes_from_first_to_last() {
    let folded = (1..5)
        .into_lending()
        .fold(String::new(), |acc, x| format!("{acc}{x}"));
    assert_eq!(folded, "1234");
    assert_eq!((0..0).into_lending().fold(7, |acc, x: i32| acc + x), 7);
}

#[test]
fn for_each_sees_every_element_once() {
    let mut seen = Vec::new();
    (0..4).into_lending().for_each(|x| seen.push(x));
    assert_eq!(seen, vec![0, 1, 2, 3]);
}

#[test]
fn try_fold_stops_at_the_first_failure() {
    let mut it = (1..10).into_lending();
    let summed: Result<i32, String> = it.try_fold(0, |acc, x| {
        if x == 4 {
            Err(format!("at {x} with {acc}"))
        } else {
            Ok(acc + x)
        }
    });
    assert_eq!(summed, Err(String::from("at 4 with 6")));
    assert_eq!(it.next(), Some(5));

    let mut it = (1..4).into_lending();
    let summed: Result<i32, String> = it.try_fold(10, |acc, x| Ok(acc + x));
    assert_eq!(summed, Ok(16));
    assert_eq!(it.next(), None);
}

#[test]
fn try_for_each_stops_at_the_first_failure() {
    let mut seen = Vec::new();
    let mut it = (0..10).into_lending();
    let out = it.try_for_each(|x| {
        if x == 3 {
            Err(x)
        } else {
            seen.push(x);
            Ok(())
        }
    });
    assert_eq!(out, Err(3));
    assert_eq!(seen, vec![0, 1, 2]);
    assert_eq!(it.next(), Some(4));
    let out: Result<(), i32> = (0..3).into_lending().try_for_each(|_| Ok(()));
    assert_eq!(out, Ok(()));
}

#[test]
fn all_and_any_stop_where_they_know() {
    let mut it = (0..10).into_lending();
    assert!(!it.all(|x| x < 3));
    assert_eq!(it.next(), Some(4));
    assert!(it.all(|x| x < 100));
    assert_eq!(it.next(), None);

    let mut it = (0..10).into_lending();
    assert!(it.any(|x| x == 3));
    assert_eq!(it.next(), Some(4));
    assert!(!it.any(|x| x > 100));
    assert_eq!(it.next(), None);

    assert!((0..0).into_lending().all(|_: i32| false));
    assert!(!(0..0).into_lending().any(|_: i32| true));
}

#[test]
fn position_counts_from_zero() {
    let mut it = (10..20).into_lending();
    assert_eq!(it.position(|x| x == 13), Some(3));
    assert_eq!(it.next(), Some(14));
    assert_eq!(it.position(|x| x == 15), Some(0));
    assert_eq!(it.position(|x| x == 0), None);
    assert_eq!(it.next(), None);
}

#[test]
fn find_map_gives_the_first_result() {
    let mut it = (0..10).into_lending();
    let found = it.find_map(|x| if x * x > 10 { Some(x * 100) } else { None });
    assert_eq!(found, Some(400));
    assert_eq!(it.next(), Some(5));
    assert_eq!(it.find_map(|_| None::<i32>), None);
}

#[test]
fn is_partitioned_wants_true_before_false() {
    assert!((0..10).into_lending().is_partitioned(|x| x < 5));
    assert!((0..10).into_lending().is_partitioned(|_| true));
    assert!((0..10).into_lending().is_partitioned(|_| false));
    assert!((0..0).into_lending().is_partitioned(|_: i32| true));
    assert!(!(0..10).into_lending().is_partitioned(|x| x % 2 == 0));
    assert!(!(0..10).into_lending().is_partitioned(|x| x > 7));
}

#[test]
fn find_lends_the_first_match() {
    let mut it = vec![3, 8, 1, 9, 4].into_iter().lend_refs();
    assert_eq!(it.find(|x| **x > 5), Some(&8));
    assert_eq!(it.find(|x| **x > 5), Some(&9));
    assert_eq!(it.find(|x| **x > 5), None);
    assert_eq!(it.next(), None);

    let mut it = vec![3, 8, 1].into_iter().lend_refs_mut();
    if let Some(x) = it.find(|x| **x == 8) {
        *x += 1;
        assert_eq!(*x, 9);
    } else {
        panic!("eight is there");
    }
    assert_eq!(it.next(), Some(&mut 1));
}

#[test]
fn try_find_hands_back_the_failure() {
    let mut it = vec![3, 8, 1, 9, 4].into_iter().lend_refs();
    let found: Result<Option<&i32>, String> = it.try_find(|x| Ok(**x > 5));
    assert_eq!(found, Ok(Some(&8)));
    let found: Result<Option<&i32>, String> = it.try_find(|x| {
        if **x == 9 {
            Err(String::from("nine"))
        } else {
            Ok(false)
        }
    });
    assert_eq!(found, Err(String::from("nine")));
    let found: Result<Option<&i32>, String> = it.try_find(|_| Ok(false));
    assert_eq!(found, Ok(None));
}

#[test]
fn last_needs_an_exact_hint() {
    let mut it = (0..5).into_lending();
    assert_eq!(it.size_hint(), (5, Some(5)));
    assert_eq!(it.last(), Some(4));
    assert_eq!(it.next(), None);
    assert_eq!(it.last(), None);

    let mut it = (0..5).into_lending().take(3);
    assert_eq!(it.size_hint(), (0, None));
    assert_eq!(it.last(), None);
    assert_eq!(it.next(), Some(0));
}

#[test]
fn by_ref_goes_on_where_it_left() {
    let mut it = (0..5).into_lending();
    {
        let same = it.by_ref();
        assert_eq!(same.next(), Some(0));
        assert_eq!(same.next(), Some(1));
    }
    assert_eq!(it.next(), Some(2));
}

#[test]
fn cursor_of_lent_references() {
    let mut it = vec![5, 6].into_iter().lend_refs();
    assert_eq!(it.get(), None);
    assert!(it.advance());
    assert_eq!(it.get(), Some(&5));
    assert_eq!(it.get(), Some(&5));
    assert!(it.advance());
    assert_eq!(it.get(), Some(&6));
    assert!(!it.advance());
    assert_eq!(it.get(), None);

    let mut it = vec![5, 6].into_iter().lend_refs_mut();
    assert!(it.advance());
    *it.get().unwrap() += 10;
    assert_eq!(it.get(), Some(&mut 15));
    assert_eq!(it.item, Some(15));
}

#[test]
fn last_goes_by_the_hint_it_gets() {
    let mut it = (0..5).into_lending().skip(2);
    assert_eq!(it.size_hint(), (3, Some(3)));
    assert_eq!(it.last(), Some(4));
    assert_eq!(it.next(), None);

    let mut it = Peekable::new((0..3).into_lending());
    assert_eq!(it.peek(), Some(&0));
    assert_eq!(it.size_hint(), (1, None));
    assert_eq!(it.last(), None);
    assert_eq!(it.next(), Some(0));

    let mut ended = (0..0).into_lending();
    assert_eq!(ended.size_hint(), (0, Some(0)));
    assert_eq!(ended.last(), None);

    let mut open = (0..4).into_lending().take_while(|x| *x < 9);
    assert_eq!(open.size_hint(), (0, Some(4)));
    assert_eq!(open.last(), None);
    assert_eq!(open.next(), Some(0));
}
