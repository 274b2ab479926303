use treeclocks::EventTree::{Leaf, SubTree};
use treeclocks::{EventTree, IdTree};

fn leaf(v: u64) -> EventTree {
    EventTree::Leaf(v)
}

fn node(v: u64, l: EventTree, r: EventTree) -> EventTree {
    EventTree::subtree(v, l, r)
}

fn split(l: IdTree, r: IdTree) -> IdTree {
    IdTree::subtree(l, r)
}

#[test]
fn test_joins_1() {
    let e0 = SubTree(3, Box::new(Leaf(3)), Box::new(Leaf(0)));
    let e1 = SubTree(3, Box::new(Leaf(0)), Box::new(Leaf(4)));

    let e2 = e0.join(e1);
    assert_eq!(e2, SubTree(6, Box::new(Leaf(0)), Box::new(Leaf(1))));
}

#[test]
fn test_joins_2() {
    let e0 = SubTree(3, Box::new(Leaf(3)), Box::new(Leaf(0)));
    let e1 = SubTree(0, Box::new(Leaf(0)), Box::new(Leaf(4)));

    let e2 = e0.join(e1);
    assert_eq!(e2, SubTree(4, Box::new(Leaf(2)), Box::new(Leaf(0))));
}

#[test]
fn test_larger_leaf() {
    let e0 = SubTree(0, Box::new(Leaf(0)), Box::new(Leaf(1)));
    let e1 = Leaf(1);

    let e2 = e0.join(e1);
    assert_eq!(e2, Leaf(1));
}

#[test]
fn test_ordering_1() {
    let e0 = EventTree::Leaf(3);
    let e1 = EventTree::SubTree(
        2,
        Box::new(EventTree::Leaf(1)),
        Box::new(EventTree::Leaf(0)),
    );

    assert!(e0 > e1);
    assert!(e1 < e0);
}

#[test]
fn test_ordering_2() {
    let e0 = EventTree::SubTree(
        1,
        Box::new(EventTree::Leaf(3)),
        Box::new(EventTree::Leaf(0)),
    );
    let e1 = EventTree::SubTree(
        2,
        Box::new(EventTree::Leaf(1)),
        Box::new(EventTree::Leaf(4)),
    );

    assert!(e0 != e1);

    assert!(!(e0 > e1));
    assert!(!(e0 < e1));
    assert!(!(e0 >= e1));
    assert!(!(e0 <= e1));
    assert!(!(e1 > e0));
    assert!(!(e1 < e0));
    assert!(!(e1 >= e0));
    assert!(!(e1 <= e0));
}

#[test]
fn test_diff_1() {
    let e0 = EventTree::Leaf(5);
    let e1 = EventTree::subtree(4, EventTree::Leaf(2), EventTree::Leaf(0));

    let diff = e0.diff(&e1);
    assert_eq!(diff.to_string(), "(0, 0, 1)".to_string());
}

#[test]
fn test_diff_2() {
    let e0 = EventTree::Leaf(5);
    let e1 = EventTree::subtree(4, EventTree::Leaf(2), EventTree::Leaf(0));

    let diff = e1.diff(&e0);
    assert_eq!(diff.to_string(), "(0, 1, 0)".to_string());
}

#[test]
fn test_diff_3() {
    //let e0 = (2, (2, 2, 0), 0)
    // (4, (0, 0, 3), 1)
    //let e1
}

#[test]
fn test_norm() {
    let e = EventTree::subtree(0, EventTree::Leaf(0), EventTree::Leaf(0));
    let e = e.norm();
    assert_eq!(e.to_string(), "0".to_string());
}

#[test]
fn partial_order_concurrent_is_none() {
    let e0 = node(1, leaf(3), leaf(0));
    let e1 = node(2, leaf(1), leaf(4));
    assert_eq!(e0.partial_cmp(&e1), None);
    assert_eq!(e1.partial_cmp(&e0), None);
    assert_eq!(leaf(3).partial_cmp(&node(2, leaf(1), leaf(0))), Some(std::cmp::Ordering::Greater));
    assert_eq!(leaf(3).partial_cmp(&node(3, leaf(0), leaf(0))), Some(std::cmp::Ordering::Equal));
    assert_eq!(leaf(2).partial_cmp(&node(2, leaf(1), leaf(0))), Some(std::cmp::Ordering::Less));
}

#[test]
fn partial_order_of_overflowing_tree_is_none() {
    let big = node(u64::MAX, leaf(1), leaf(0));
    assert_eq!(big.checked_max(), None);
    assert_eq!(big.partial_cmp(&leaf(0)), None);
    assert_eq!(leaf(0).partial_cmp(&big), None);
    assert_eq!(node(u64::MAX - 1, leaf(1), leaf(0)).checked_max(), Some(u64::MAX));
}

#[test]
fn helpers_give_exact_values() {
    let t = node(2, node(1, leaf(0), leaf(5)), leaf(3));
    assert_eq!(t.max(), 8);
    assert_eq!(t.min(), 2);
    assert_eq!(t.value(), 2);
    assert_eq!(t.depth(0), 3);
    assert_eq!(leaf(7).depth(0), 1);
    assert_eq!(t.clone().lift(3), node(5, node(1, leaf(0), leaf(5)), leaf(3)));
    assert_eq!(t.clone().sink(2), node(0, node(1, leaf(0), leaf(5)), leaf(3)));
    assert_eq!(leaf(4).lift(1), leaf(5));
    assert_eq!(leaf(4).sink(4), leaf(0));
    assert_eq!(EventTree::new(), leaf(0));
    assert_eq!(EventTree::default(), leaf(0));
}

#[test]
fn norm_sinks_and_collapses() {
    assert_eq!(node(1, leaf(2), leaf(2)).norm(), leaf(3));
    assert_eq!(node(1, leaf(2), leaf(5)).norm(), node(3, leaf(0), leaf(3)));
    let t = node(0, node(4, leaf(1), leaf(1)), leaf(5));
    assert_eq!(t.norm(), leaf(5));
    let u = node(1, node(2, leaf(3), leaf(4)), node(0, leaf(7), leaf(9)));
    assert_eq!(u.norm(), node(6, node(0, leaf(0), leaf(1)), node(2, leaf(0), leaf(2))));
    assert_eq!(u.norm().norm(), u.norm());
}

#[test]
fn join_laws_on_chosen_trees() {
    let a = node(1, leaf(3), leaf(0));
    let b = node(2, leaf(1), leaf(4));
    let c = node(0, node(0, leaf(7), leaf(0)), leaf(2));
    assert_eq!(a.clone().join(a.clone()), a);
    assert_eq!(a.clone().join(b.clone()), b.clone().join(a.clone()));
    assert_eq!(a.clone().join(b.clone()), node(4, leaf(0), leaf(2)));
    assert_eq!(
        a.clone().join(b.clone()).join(c.clone()),
        a.clone().join(b.clone().join(c.clone()))
    );
    assert_eq!(leaf(2).join(leaf(5)), leaf(5));
    assert_eq!(leaf(1).join(node(2, leaf(1), leaf(0))), node(2, leaf(1), leaf(0)));
    assert_eq!(leaf(3).join(node(2, leaf(1), leaf(0))), leaf(3));
    assert_eq!(node(2, leaf(1), leaf(0)).join(leaf(3)), leaf(3));
}

#[test]
fn join_normalises_what_it_is_given() {
    let r = node(2, leaf(1), leaf(1));
    assert_eq!(leaf(0).join(r), leaf(3));
}

#[test]
fn diff_saturates_at_zero() {
    let a = node(1, leaf(3), leaf(0));
    let b = node(2, leaf(1), leaf(4));
    assert_eq!(a.clone().diff(&b), node(0, leaf(1), leaf(0)));
    assert_eq!(b.clone().diff(&a), node(0, leaf(0), leaf(5)));
    assert_eq!(b.clone().diff(&b), leaf(0));
    assert_eq!(leaf(3).diff(&leaf(5)), leaf(0));
    assert_eq!(leaf(5).diff(&leaf(3)), leaf(2));
}

#[test]
fn contains_looks_inside_the_share() {
    let left = split(IdTree::One, IdTree::Zero);
    let right = split(IdTree::Zero, IdTree::One);
    let t = node(0, leaf(1), leaf(0));
    assert!(t.contains(&left));
    assert!(!t.contains(&right));
    assert!(t.contains(&IdTree::One));
    assert!(!t.contains(&IdTree::Zero));
    assert!(!leaf(0).contains(&IdTree::One));
    assert!(leaf(2).contains(&left));
    assert!(!leaf(2).contains(&IdTree::Zero));
    assert!(node(1, leaf(1), leaf(0)).contains(&right));
    let deep = node(0, leaf(0), node(0, leaf(0), leaf(3)));
    assert!(!deep.contains(&split(IdTree::Zero, split(IdTree::One, IdTree::Zero))));
    assert!(deep.contains(&split(IdTree::Zero, split(IdTree::Zero, IdTree::One))));
}

#[test]
fn fill_levels_what_is_owned() {
    let t = node(0, node(1, leaf(0), leaf(2)), leaf(1));
    assert_eq!(t.fill(&IdTree::Zero), t);
    assert_eq!(t.fill(&IdTree::One), leaf(3));
    assert_eq!(t.fill(&split(IdTree::One, IdTree::Zero)), node(1, leaf(2), leaf(0)));
    assert_eq!(leaf(4).fill(&split(IdTree::One, IdTree::Zero)), leaf(4));
    let u = node(0, leaf(0), leaf(2));
    assert_eq!(u.fill(&split(IdTree::One, IdTree::Zero)), leaf(2));
    assert_eq!(u.fill(&split(IdTree::Zero, IdTree::One)), u);
}

#[test]
fn grow_adds_one_event() {
    let left = split(IdTree::One, IdTree::Zero);
    assert_eq!(leaf(3).grow(&IdTree::One, 2), (leaf(4), 0));
    assert_eq!(leaf(3).grow(&left, 2), (node(3, leaf(1), leaf(0)), 3));
    let t = node(0, leaf(1), leaf(0));
    assert_eq!(t.grow(&left, 3), (node(0, leaf(2), leaf(0)), 1));
    let both = split(split(IdTree::One, IdTree::Zero), split(IdTree::Zero, IdTree::One));
    assert_eq!(
        node(0, leaf(2), leaf(0)).grow(&both, 3),
        (node(0, leaf(2), node(0, leaf(0), leaf(1))), 5)
    );
    let uneven = split(IdTree::One, split(IdTree::Zero, IdTree::One));
    assert_eq!(
        node(0, leaf(2), leaf(0)).grow(&uneven, 3),
        (node(0, leaf(3), leaf(0)), 1)
    );
}

#[test]
fn event_strictly_advances() {
    let ids = [
        IdTree::One,
        split(IdTree::One, IdTree::Zero),
        split(IdTree::Zero, IdTree::One),
        split(split(IdTree::Zero, IdTree::One), IdTree::Zero),
        split(IdTree::One, split(IdTree::One, IdTree::Zero)),
    ];
    let trees = [
        leaf(0),
        leaf(7),
        node(0, leaf(1), leaf(0)),
        node(2, leaf(0), node(0, leaf(3), leaf(0))),
        node(1, node(0, leaf(0), leaf(2)), leaf(0)),
    ];
    for id in ids.iter() {
        for t in trees.iter() {
            let after = t.clone().event(id);
            assert!(after > *t);
            assert!(after >= *t);
            assert_eq!(t.clone().join(after.clone()), after);
            assert_eq!(after.norm(), after);
        }
    }
}

#[test]
fn event_values() {
    assert_eq!(leaf(0).event(&IdTree::One), leaf(1));
    assert_eq!(leaf(0).event(&split(IdTree::One, IdTree::Zero)), node(0, leaf(1), leaf(0)));
    assert_eq!(
        node(0, leaf(1), leaf(0)).event(&split(IdTree::Zero, IdTree::One)),
        leaf(1)
    );
    assert_eq!(
        node(0, leaf(1), leaf(0)).event(&split(IdTree::One, IdTree::Zero)),
        node(0, leaf(2), leaf(0))
    );
}

#[test]
fn event_tree_text_form() {
    assert_eq!(leaf(0).to_string(), "0");
    assert_eq!(leaf(10).to_string(), "10");
    assert_eq!(leaf(u64::MAX).to_string(), "18446744073709551615");
    assert_eq!(node(12, leaf(0), node(3, leaf(405), leaf(6))).to_string(), "(12, 0, (3, 405, 6))");
}

fn value_at(t: &EventTree, path: &[bool]) -> u64 {
    match t {
        EventTree::Leaf(v) => *v,
        EventTree::SubTree(v, l, r) => {
            let right = path.first().copied().unwrap_or(false);
            let rest = if path.is_empty() { path } else { &path[1..] };
            v + value_at(if right { r } else { l }, rest)
        }
    }
}

#[test]
fn what_is_missing_can_be_added_back() {
    let trees = [
        leaf(3),
        node(1, leaf(3), leaf(0)),
        node(2, leaf(1), leaf(4)),
        node(0, node(0, leaf(7), leaf(0)), leaf(2)),
        node(1, leaf(0), node(2, leaf(0), leaf(5))),
    ];
    let paths: [&[bool]; 7] = [
        &[],
        &[false],
        &[true],
        &[false, false],
        &[false, true],
        &[true, false],
        &[true, true],
    ];
    for a in trees.iter() {
        for b in trees.iter() {
            let d = a.clone().diff(b);
            let j = a.clone().join(b.clone());
            for p in paths {
                let (va, vb) = (value_at(a, p), value_at(b, p));
                assert_eq!(value_at(&d, p), va.saturating_sub(vb));
                assert!(value_at(&d, p) + vb >= va);
                assert_eq!(value_at(&j, p), va.max(vb));
            }
        }
    }
}

#[test]
fn event_changes_nothing_outside_the_share() {
    let left = split(IdTree::One, IdTree::Zero);
    let t = node(0, leaf(2), node(0, leaf(0), leaf(3)));
    let after = t.clone().event(&left);
    for p in [[true, false], [true, true]] {
        assert_eq!(value_at(&after, &p), value_at(&t, &p));
    }
    assert!(value_at(&after, &[false]) > value_at(&t, &[false]));
}
