use gat_lending_iterator::{LendingCompare, ToLendingIterator};
use std::cmp::Ordering;

type Lent = gat_lending_iterator::IntoLending<std::vec::IntoIter<i32>>;
type LentFloats = gat_lending_iterator::IntoLending<std::vec::IntoIter<f64>>;

fn lend(v: &[i32]) -> Lent {
    v.to_vec().into_iter().into_lending()
}

#[test]
fn cmp_is_lexicographic() {
    assert_eq!(lend(&[1, 2, 3]).cmp(lend(&[1, 2, 3])), Ordering::Equal);
    assert_eq!(lend(&[1, 2]).cmp(lend(&[1, 2, 3])), Ordering::Less);
    assert_eq!(lend(&[1, 2, 3]).cmp(lend(&[1, 2])), Ordering::Greater);
    assert_eq!(lend(&[1, 9]).cmp(lend(&[1, 2, 3])), Ordering::Greater);
    assert_eq!(lend(&[0, 9, 9]).cmp(lend(&[1])), Ordering::Less);
    assert_eq!(lend(&[]).cmp(lend(&[])), Ordering::Equal);
    assert_eq!(lend(&[]).cmp(lend(&[0])), Ordering::Less);
}

#[test]
fn cmp_by_uses_the_function() {
    let backwards = |x: i32, y: i32| y.cmp(&x);
    assert_eq!(lend(&[1, 2]).cmp_by(lend(&[1, 3]), backwards), Ordering::Greater);
    assert_eq!(lend(&[1, 2]).cmp_by(lend(&[1, 2]), backwards), Ordering::Equal);
    assert_eq!(lend(&[1]).cmp_by(lend(&[1, 2]), backwards), Ordering::Less);
}

#[test]
fn partial_cmp_may_find_nothing() {
    let a = vec![1.0, f64::NAN].into_iter().into_lending();
    let b = vec![1.0, 2.0].into_iter().into_lending();
    assert_eq!(a.partial_cmp::<LentFloats>(b), None);
    assert_eq!(lend(&[1, 2]).partial_cmp::<Lent>(lend(&[1, 3])), Some(Ordering::Less));
    assert_eq!(lend(&[1, 2]).partial_cmp::<Lent>(lend(&[1, 2])), Some(Ordering::Equal));
    assert_eq!(lend(&[1, 2, 0]).partial_cmp::<Lent>(lend(&[1, 2])), Some(Ordering::Greater));
    let by = lend(&[1, 2]).partial_cmp_by(lend(&[1, 5]), |x, y| {
        if y == 5 {
            None
        } else {
            x.partial_cmp(&y)
        }
    });
    assert_eq!(by, None);
}

#[test]
fn eq_wants_equal_length_and_elements() {
    assert!(lend(&[1, 2, 3]).eq::<Lent>(lend(&[1, 2, 3])));
    assert!(!lend(&[1, 2, 3]).eq::<Lent>(lend(&[1, 2])));
    assert!(!lend(&[1, 2]).eq::<Lent>(lend(&[1, 2, 3])));
    assert!(!lend(&[1, 2, 3]).eq::<Lent>(lend(&[1, 5, 3])));
    assert!(lend(&[]).eq::<Lent>(lend(&[])));
    assert!(lend(&[1, 2]).ne::<Lent>(lend(&[1, 3])));
    assert!(!lend(&[1, 2]).ne::<Lent>(lend(&[1, 2])));
    assert!(lend(&[1, 2, 3]).eq_by(lend(&[2, 4, 6]), |x, y| 2 * x == y));
    assert!(!lend(&[1, 2, 3]).eq_by(lend(&[2, 4, 7]), |x, y| 2 * x == y));
}

#[test]
fn order_tests_follow_partial_cmp() {
    assert!(lend(&[1, 2]).lt::<Lent>(lend(&[1, 3])));
    assert!(!lend(&[1, 2]).lt::<Lent>(lend(&[1, 2])));
    assert!(lend(&[1, 2]).le::<Lent>(lend(&[1, 2])));
    assert!(lend(&[1, 2]).le::<Lent>(lend(&[1, 2, 0])));
    assert!(!lend(&[1, 3]).le::<Lent>(lend(&[1, 2])));
    assert!(lend(&[1, 3]).gt::<Lent>(lend(&[1, 2])));
    assert!(!lend(&[1, 2]).gt::<Lent>(lend(&[1, 2])));
    assert!(lend(&[1, 2]).ge::<Lent>(lend(&[1, 2])));
    assert!(lend(&[2]).ge::<Lent>(lend(&[1, 9])));
    assert!(!lend(&[1]).ge::<Lent>(lend(&[1, 9])));
    let a = vec![f64::NAN].into_iter().into_lending();
    let b = vec![1.0].into_iter().into_lending();
    assert!(!a.le::<LentFloats>(b));
}
