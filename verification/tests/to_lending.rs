use gat_lending_iterator::{LendingIterator, ToLendingIterator};

#[derive(Clone, Eq, PartialEq, Debug)]
struct Foo(usize);

struct W {
    x: Foo,
}

impl LendingIterator for W {
    type Item<'a> = &'a Foo where Self: 'a;
    fn next(&mut self) -> Option<Self::Item<'_>> {
        self.x.0 += 1;
        Some(&self.x)
    }
}

struct WMut {
    x: Foo,
}

impl LendingIterator for WMut {
    type Item<'a> = &'a mut Foo where Self: 'a;
    fn next(&mut self) -> Option<Self::Item<'_>> {
        self.x.0 += 1;
        Some(&mut self.x)
    }
}

fn lend_refs_helper() -> impl for<'a> LendingIterator<Item<'a> = &'a Foo> {
    let w = W { x: Foo(0) };
    std::iter::once(Foo(0)).lend_refs().chain(w)
}

fn lend_refs_mut_helper() -> impl for<'a> LendingIterator<Item<'a> = &'a mut Foo> {
    let w = WMut { x: Foo(0) };
    core::iter::once(Foo(0)).lend_refs_mut().chain(w)
}

#[test]
fn lend_refs_test() {
    let mut xs = Vec::new();
    lend_refs_helper().take(3).for_each(|x: &Foo| {
        xs.push(x.clone());
    });
    assert_eq!(xs, vec![Foo(0), Foo(1), Foo(2)]);
}

#[test]
fn lend_refs_mut_test() {
    let mut xs = Vec::new();
    lend_refs_mut_helper().take(3).for_each(|x: &mut Foo| {
        x.0 += 2;
        xs.push(x.clone());
    });
    assert_eq!(xs, vec![Foo(2), Foo(3), Foo(6)]);
}
