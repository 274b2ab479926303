use treeclocks::IdTree;

fn split(l: IdTree, r: IdTree) -> IdTree {
    IdTree::subtree(l, r)
}

#[test]
fn test_fork_join() {
    let i0 = IdTree::new();
    let (i0, i1) = i0.fork();
    let (_i1, i2) = i1.fork();
    let i0 = i0.join(i2);

    assert_eq!(&i0.to_string(), "(1, (0, 1))");
}

#[test]
fn fork_rules() {
    assert_eq!(IdTree::Zero.fork(), (IdTree::Zero, IdTree::Zero));
    assert_eq!(
        IdTree::One.fork(),
        (split(IdTree::One, IdTree::Zero), split(IdTree::Zero, IdTree::One))
    );
    let b = split(IdTree::One, IdTree::Zero);
    assert_eq!(
        split(IdTree::Zero, b.clone()).fork(),
        (
            split(IdTree::Zero, split(split(IdTree::One, IdTree::Zero), IdTree::Zero)),
            split(IdTree::Zero, split(split(IdTree::Zero, IdTree::One), IdTree::Zero)),
        )
    );
    assert_eq!(
        split(b.clone(), IdTree::Zero).fork(),
        (
            split(split(split(IdTree::One, IdTree::Zero), IdTree::Zero), IdTree::Zero),
            split(split(split(IdTree::Zero, IdTree::One), IdTree::Zero), IdTree::Zero),
        )
    );
    assert_eq!(
        split(b.clone(), IdTree::One).fork(),
        (split(b.clone(), IdTree::Zero), split(IdTree::Zero, IdTree::One))
    );
}

#[test]
fn join_rules() {
    let a = split(IdTree::One, IdTree::Zero);
    let b = split(IdTree::Zero, IdTree::One);
    assert_eq!(IdTree::Zero.join(a.clone()), a);
    assert_eq!(a.clone().join(IdTree::Zero), a);
    assert_eq!(IdTree::One.join(a.clone()), IdTree::One);
    assert_eq!(a.clone().join(IdTree::One), IdTree::One);
    assert_eq!(a.clone().join(b.clone()), IdTree::One);
    assert_eq!(a.clone().join(a.clone()), a);
    let c = split(IdTree::Zero, split(IdTree::Zero, IdTree::One));
    assert_eq!(a.clone().join(c.clone()), split(IdTree::One, split(IdTree::Zero, IdTree::One)));
    assert_eq!(a.clone().join(c.clone()), c.join(a));
}

#[test]
fn fork_then_join_gives_the_share_back() {
    let ids = [
        IdTree::Zero,
        IdTree::One,
        split(IdTree::One, IdTree::Zero),
        split(IdTree::Zero, split(IdTree::One, IdTree::Zero)),
        split(split(IdTree::Zero, IdTree::One), split(IdTree::One, IdTree::Zero)),
    ];
    for id in ids {
        assert!(id.check_normalized());
        let (x, y) = id.clone().fork();
        assert!(x.check_normalized() && y.check_normalized());
        assert_eq!(x.join(y), id);
    }
}

#[test]
fn join_is_associative() {
    let a = split(IdTree::One, IdTree::Zero);
    let b = split(IdTree::Zero, split(IdTree::One, IdTree::Zero));
    let c = split(IdTree::Zero, split(IdTree::Zero, IdTree::One));
    assert_eq!(
        a.clone().join(b.clone()).join(c.clone()),
        a.join(b.join(c))
    );
}

#[test]
fn norm_collapses_equal_leaves() {
    let t = split(split(IdTree::Zero, IdTree::Zero), split(IdTree::One, IdTree::One));
    assert!(!t.check_normalized());
    assert_eq!(t.norm(), split(IdTree::Zero, IdTree::One));
    let u = split(split(IdTree::One, IdTree::One), split(IdTree::One, IdTree::One));
    assert_eq!(u.norm(), IdTree::One);
    assert_eq!(u.norm().norm(), u.norm());
    let z = split(split(IdTree::Zero, IdTree::Zero), IdTree::Zero);
    assert_eq!(z.norm(), IdTree::Zero);
}

#[test]
fn default_is_the_whole_interval() {
    assert_eq!(IdTree::default(), IdTree::One);
    assert_eq!(IdTree::one(), IdTree::One);
    assert!(IdTree::Zero.is_zero());
    assert!(!IdTree::One.is_zero());
}

#[test]
fn depth_counts_levels() {
    assert_eq!(IdTree::One.depth(), Some(1));
    assert_eq!(split(IdTree::Zero, split(IdTree::One, IdTree::Zero)).depth(), Some(3));
}

#[test]
fn id_tree_text_form() {
    assert_eq!(IdTree::Zero.to_string(), "0");
    assert_eq!(IdTree::One.to_string(), "1");
    assert_eq!(
        split(split(IdTree::One, IdTree::Zero), IdTree::One).to_string(),
        "((1, 0), 1)"
    );
}

fn meet(a: &IdTree, b: &IdTree) -> IdTree {
    match (a, b) {
        (IdTree::Zero, _) | (_, IdTree::Zero) => IdTree::Zero,
        (IdTree::One, x) | (x, IdTree::One) => x.clone(),
        (IdTree::SubTree(l0, r0), IdTree::SubTree(l1, r1)) => {
            IdTree::subtree(meet(l0, l1), meet(r0, r1)).norm()
        }
    }
}

#[test]
fn fork_gives_shares_with_nothing_in_common() {
    let ids = [
        IdTree::Zero,
        IdTree::One,
        split(IdTree::One, IdTree::Zero),
        split(IdTree::Zero, split(IdTree::One, IdTree::Zero)),
        split(split(IdTree::Zero, IdTree::One), split(IdTree::One, IdTree::Zero)),
        split(IdTree::One, split(IdTree::One, IdTree::Zero)),
    ];
    for id in ids {
        let (x, y) = id.fork();
        assert_eq!(meet(&x, &y), IdTree::Zero);
    }
}
