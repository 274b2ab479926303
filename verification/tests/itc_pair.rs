use treeclocks::{EventTree, IdTree, ItcPair};

#[test]
fn test_basic() {
    let mut n0 = ItcPair::new();
    let mut n1 = n0.fork();
    let mut n2 = n1.fork();

    n0.event();
    n0.event();
    n2.event();

    n0.join(n2);

    assert_eq!(&n0.to_string(), "(1, (0, 1)) | (0, 2, (0, 0, 1))");

    n1.event();
    n0.sync(&n1.timestamp);

    assert_eq!(&n0.to_string(), "(1, (0, 1)) | (1, 1, 0)");

    n0.join(n1);
    n0.event();

    assert_eq!(&n0.to_string(), "1 | 2");
}

#[test]
fn test_difference() {
    let mut n0 = ItcPair::new();
    let mut n1 = n0.fork();
    let mut n2 = n1.fork();
    let mut n3 = n0.fork();

    n0.event();
    n3.sync(&n0.timestamp);

    n1.event();
    n2.sync(&n1.timestamp);

    let t = n3.timestamp.clone();
    let diff = t.diff(&n2.timestamp);

    assert_eq!(&diff.to_string(), "(0, (0, 1, 0), 0)");
}

#[test]
fn new_pair_owns_everything_and_knows_nothing() {
    let p = ItcPair::new();
    assert_eq!(p.id, IdTree::One);
    assert_eq!(p.timestamp, EventTree::Leaf(0));
    let d = ItcPair::default();
    assert_eq!(d.id, IdTree::One);
    assert_eq!(d.timestamp, EventTree::Leaf(0));
    let q = ItcPair::from(IdTree::subtree(IdTree::Zero, IdTree::One));
    assert_eq!(q.id, IdTree::subtree(IdTree::Zero, IdTree::One));
    assert_eq!(q.timestamp, EventTree::Leaf(0));
}

#[test]
fn fork_keeps_the_history() {
    let mut p = ItcPair::new();
    p.event();
    let q = p.fork();
    assert_eq!(p.id, IdTree::subtree(IdTree::One, IdTree::Zero));
    assert_eq!(q.id, IdTree::subtree(IdTree::Zero, IdTree::One));
    assert_eq!(p.timestamp, EventTree::Leaf(1));
    assert_eq!(q.timestamp, EventTree::Leaf(1));
    let mut r = q.clone();
    let rest = r.fork_id();
    assert_eq!(r.id, IdTree::subtree(IdTree::Zero, IdTree::subtree(IdTree::One, IdTree::Zero)));
    assert_eq!(rest, IdTree::subtree(IdTree::Zero, IdTree::subtree(IdTree::Zero, IdTree::One)));
}
