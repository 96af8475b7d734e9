use std::collections::HashSet;
use tuikit::product::CPIter;

#[test]
fn cartesian_product_test() {
    let mut it = CPIter::new(vec![1, 2], vec![3, 4]);
    let mut product = HashSet::new();
    while let Some(pair) = it.next() {
        product.insert(pair);
    }
    let mut expected = HashSet::new();
    expected.insert((1, 3));
    expected.insert((1, 4));
    expected.insert((2, 3));
    expected.insert((2, 4));
    assert_eq!(product, expected);
}

#[test]
fn cartesian_product_order() {
    let mut it = CPIter::new(vec![1, 2], vec![3, 4]);
    assert_eq!(it.next(), Some((1, 3)));
    assert_eq!(it.next(), Some((1, 4)));
    assert_eq!(it.next(), Some((2, 3)));
    assert_eq!(it.next(), Some((2, 4)));
    assert_eq!(it.next(), None);
    assert_eq!(it.next(), None);
}

#[test]
fn cartesian_product_empty_side() {
    let mut it = CPIter::new(vec![1, 2], Vec::<i32>::new());
    assert_eq!(it.next(), None);
}
