use gat_lending_iterator::to_lending::windows::prefill;
use gat_lending_iterator::{
    CursorLendingIterator, LendingIterator, ToLendingIterator, Windows, WindowsMut,
};

fn windows_of(len: usize, size: usize) -> Vec<Vec<usize>> {
    let mut out = Vec::new();
    (0..len)
        .windows(size)
        .for_each(|w: &[usize]| out.push(w.to_vec()));
    out
}

#[test]
fn windows_of_five_by_three() {
    let mut windows = (0..5).windows(3);
    assert_eq!(windows.next(), Some(&[0, 1, 2][..]));
    assert_eq!(windows.next(), Some(&[1, 2, 3][..]));
    assert_eq!(windows.next(), Some(&[2, 3, 4][..]));
    assert_eq!(windows.next(), None);
    assert_eq!(windows.next(), None);
    assert_eq!((0..5).windows(3).count(), 3);
}

#[test]
fn windows_slide_over_evictions() {
    for size in 1..6 {
        for len in 0..20 {
            let expected: Vec<Vec<usize>> = (0..len)
                .collect::<Vec<_>>()
                .windows(size)
                .map(|w| w.to_vec())
                .collect();
            assert_eq!(windows_of(len, size), expected);
        }
    }
}

#[test]
fn windows_buffer_stays_bounded() {
    let size = 4;
    let mut windows = Windows::new(0..100, size);
    assert_eq!(windows.buf, vec![0, 1, 2]);
    while windows.next().is_some() {
        assert!(windows.buf.len() >= size);
        assert!(windows.buf.len() <= 2 * size - 1);
    }
}

#[test]
fn windows_of_a_short_source() {
    assert_eq!(windows_of(0, 3), Vec::<Vec<usize>>::new());
    assert_eq!(windows_of(1, 3), Vec::<Vec<usize>>::new());
    assert_eq!(windows_of(2, 3), Vec::<Vec<usize>>::new());
    assert_eq!(windows_of(3, 3), vec![vec![0, 1, 2]]);
    assert_eq!(windows_of(3, 1), vec![vec![0], vec![1], vec![2]]);
}

#[test]
fn prefill_takes_size_less_one() {
    let (mut rest, buf) = prefill(0..10, 4);
    assert_eq!(buf, vec![0, 1, 2]);
    assert_eq!(rest.next(), Some(3));
    let (mut rest, buf) = prefill(0..2, 4);
    assert_eq!(buf, vec![0, 1]);
    assert_eq!(rest.next(), None);
    let (mut rest, buf) = prefill(0..2, 1);
    assert_eq!(buf, Vec::<i32>::new());
    assert_eq!(rest.next(), Some(0));
}

#[test]
fn push_window_evicts_at_twice_the_size() {
    let mut windows = Windows::new(0..0, 2);
    assert_eq!(windows.push_window(1), &[1][..]);
    assert_eq!(windows.push_window(2), &[1, 2][..]);
    assert_eq!(windows.push_window(3), &[2, 3][..]);
    assert_eq!(windows.buf, vec![1, 2, 3]);
    assert_eq!(windows.push_window(4), &[3, 4][..]);
    assert_eq!(windows.buf, vec![3, 4]);
}

#[test]
fn windows_mut_running_sum() {
    let mut sums = (0..7)
        .windows_mut(2)
        .map(|slice: &mut [usize]| {
            slice[1] += slice[0];
            slice[1]
        })
        .into_iter();
    let mut seen = Vec::new();
    while let Some(sum) = sums.next() {
        seen.push(sum);
    }
    assert_eq!(seen, vec![1, 3, 6, 10, 15, 21]);
}

#[test]
fn windows_mut_keeps_what_was_written() {
    let mut windows = WindowsMut::new(vec![1, 2, 3, 4].into_iter(), 2);
    {
        let w = windows.next().unwrap();
        assert_eq!(w, &mut [1, 2][..]);
        w[1] = 20;
    }
    {
        let w = windows.next().unwrap();
        assert_eq!(w, &mut [20, 3][..]);
        w[0] = 0;
        w[1] = 30;
    }
    assert_eq!(windows.buf, vec![1, 0, 30]);
    assert_eq!(windows.next().unwrap(), &mut [30, 4][..]);
    assert_eq!(windows.buf, vec![30, 4]);
    assert!(windows.next().is_none());
}

#[test]
fn filter_then_chain_then_enumerate() {
    let mut seen = Vec::new();
    (0..5)
        .windows(3)
        .filter(|x| x[0] % 2 == 0)
        .chain((0..6).windows(2))
        .enumerate()
        .for_each(|(i, w): (usize, &[i32])| seen.push((i, w.to_vec())));
    assert_eq!(
        seen,
        vec![
            (0, vec![0, 1, 2]),
            (1, vec![2, 3, 4]),
            (2, vec![0, 1]),
            (3, vec![1, 2]),
            (4, vec![2, 3]),
            (5, vec![3, 4]),
            (6, vec![4, 5]),
        ]
    );
}

#[test]
fn windows_cursor_moves_and_lends_again() {
    let mut windows = (0..4).windows(2);
    assert_eq!(windows.get(), None);
    assert!(windows.advance());
    assert_eq!(windows.get(), Some(&[0, 1][..]));
    assert_eq!(windows.get(), Some(&[0, 1][..]));
    assert!(windows.advance());
    assert_eq!(windows.get(), Some(&[1, 2][..]));
    assert!(windows.advance());
    assert!(!windows.advance());

    let mut windows = (0..3).windows_mut(2);
    assert!(windows.advance());
    windows.get().unwrap()[1] = 9;
    assert_eq!(windows.get(), Some(&mut [0, 9][..]));
    assert!(windows.advance());
    assert_eq!(windows.get(), Some(&mut [9, 2][..]));
    assert!(!windows.advance());
}
