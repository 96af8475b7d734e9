use tuikit::algos::connected;
use tuikit::algos::insort;

#[test]
fn insort_test() {
    let mut v = vec![1, 5, 8];

    insort(&mut v, 0);
    assert_eq!(v, vec![0, 1, 5, 8]);

    insort(&mut v, 3);
    assert_eq!(v, vec![0, 1, 3, 5, 8]);

    insort(&mut v, 9);
    assert_eq!(v, vec![0, 1, 3, 5, 8, 9]);
}

#[test]
fn insort_empty() {
    let mut v = vec![];
    insort(&mut v, 4);
    assert_eq!(v, vec![4]);
}

#[test]
fn insort_duplicates() {
    let mut v = vec![2, 2, 7];
    insort(&mut v, 2);
    assert_eq!(v, vec![2, 2, 2, 7]);
    insort(&mut v, 7);
    assert_eq!(v, vec![2, 2, 2, 7, 7]);
}

#[test]
fn connected_test() {
    let nodes = vec![0, 1, 2];
    let edges = vec![(nodes[0], nodes[1]), (nodes[1], nodes[2])];
    assert!(connected(&edges, nodes[0], nodes[2]));
    assert!(!connected(&edges, nodes[2], nodes[0]))
}

#[test]
fn connected_same_node() {
    let edges = vec![];
    assert!(connected(&edges, 5, 5));
}

#[test]
fn connected_no_edges() {
    let edges = vec![];
    assert!(!connected(&edges, 1, 2));
}

#[test]
fn connected_cycle() {
    let edges = vec![(1, 2), (2, 3), (3, 1)];
    assert!(connected(&edges, 2, 1));
    assert!(!connected(&edges, 1, 4));
}
