use gat_lending_iterator::{LendingIterator, ToLendingIterator};

fn second(slice: &[usize]) -> &usize {
    &slice[1]
}

#[test]
fn playground() {
    (0..5)
        .windows(3)
        .filter(|x| x[0] % 2 == 0)
        .chain((0..6).windows(2))
        .for_each(|x| println!("{x:?}"));

    println!();

    let mut sums = (0..7)
        .windows_mut(2)
        .map(|slice: &mut [usize]| {
            slice[1] += slice[0];
            slice[1]
        })
        .into_iter();
    while let Some(sum) = sums.next() {
        println!("{sum}");
    }

    println!();

    let mut seconds = (0..5).windows(3).map(second).cloned().into_iter();
    while let Some(n) = seconds.next() {
        println!("{n}");
    }

    println!();

    (0..5)
        .windows(4)
        .zip([0, 1].into_iter().into_lending())
        .for_each(|(a, b)| {
            println!("{a:?}, {b:?}");
        });

    (0..5)
        .windows(2)
        .skip_while(|w| w[0] < 2)
        .fold(0, |acc, x| acc + x[1]);
}
