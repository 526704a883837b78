use gat_lending_iterator::{LendingIterator, Peekable, ToLendingIterator};

#[test]
fn peekable_test() {
    assert_eq!(
        Peekable::new((0..5).into_lending()).skip(1).nth(1),
        (0..5).skip(1).nth(1)
    );
    assert_eq!(
        Peekable::new((0..5).into_lending()).peek(),
        (0..5).peekable().peek()
    );

    let mut peekable = Peekable::new(vec![0, 1].into_iter().into_lending());
    assert_eq!(peekable.next(), Some(0));
    assert_eq!(peekable.next(), Some(1));
    assert_eq!(peekable.next(), None);
    peekable = Peekable::new(vec![0, 1, 2].into_iter().into_lending());
    {
        assert_eq!(peekable.peek(), Some(&0));
        assert_eq!(peekable.peek(), Some(&0));
        assert_eq!(peekable.peek_mut(), Some(&mut 0));
        assert_eq!(peekable.next(), Some(0));
        assert_eq!(peekable.next(), Some(1));
        assert_eq!(peekable.peek(), Some(&2));
        let peekable = peekable.unpin();
        assert_eq!(peekable.next(), None);
    }
}
