use std::collections::HashSet;

use treeclocks::{EventTree, IdTree, ItcIndex, ItcPair};

fn split(l: IdTree, r: IdTree) -> IdTree {
    IdTree::subtree(l, r)
}

fn node(l: ItcIndex, r: ItcIndex) -> ItcIndex {
    ItcIndex::subtree(l, r)
}

fn text(i: &ItcIndex) -> String {
    i.to_string()
}

fn set<const N: usize>(slots: [usize; N]) -> HashSet<usize> {
    HashSet::from(slots)
}

fn sorted(mut slots: Vec<usize>) -> Vec<usize> {
    slots.sort();
    slots
}

#[test]
fn new_index_knows_nothing() {
    assert_eq!(text(&ItcIndex::new()), "?");
    assert_eq!(text(&ItcIndex::default()), "?");
    assert_eq!(ItcIndex::new().get(&IdTree::One), None);
}

#[test]
fn get_rules() {
    let i = node(ItcIndex::Leaf(3), node(ItcIndex::Unknown, ItcIndex::Leaf(4)));
    assert_eq!(i.get(&IdTree::Zero), None);
    assert_eq!(i.get(&IdTree::One), None);
    assert_eq!(ItcIndex::Leaf(7).get(&IdTree::One), Some(7));
    assert_eq!(ItcIndex::Leaf(7).get(&split(IdTree::One, IdTree::Zero)), None);
    assert_eq!(i.get(&split(IdTree::One, IdTree::Zero)), Some(3));
    assert_eq!(i.get(&split(IdTree::Zero, split(IdTree::Zero, IdTree::One))), Some(4));
    assert_eq!(i.get(&split(IdTree::Zero, split(IdTree::One, IdTree::Zero))), None);
    assert_eq!(i.get(&split(IdTree::One, split(IdTree::Zero, IdTree::One))), Some(3));
    assert_eq!(i.get(&split(IdTree::Zero, IdTree::One)), None);
}

#[test]
fn insert_rules() {
    let left = split(IdTree::One, IdTree::Zero);
    let (i, d) = ItcIndex::Unknown.insert(&IdTree::Zero, 1);
    assert_eq!((text(&i), d), ("?".to_string(), set([])));
    let (i, d) = ItcIndex::Unknown.insert(&IdTree::One, 1);
    assert_eq!((text(&i), d), ("1".to_string(), set([])));
    let (i, d) = ItcIndex::Unknown.insert(&left, 1);
    assert_eq!((text(&i), d), ("[1, ?]".to_string(), set([])));
    let (i, d) = ItcIndex::Leaf(0).insert(&IdTree::One, 1);
    assert_eq!((text(&i), d), ("1".to_string(), set([0])));
    let (i, d) = ItcIndex::Leaf(0).insert(&left, 1);
    assert_eq!((text(&i), d), ("[1, ?]".to_string(), set([0])));
    let (i, d) = ItcIndex::Leaf(0).insert(&IdTree::Zero, 1);
    assert_eq!((text(&i), d), ("0".to_string(), set([])));
    let both = node(ItcIndex::Leaf(0), node(ItcIndex::Leaf(2), ItcIndex::Leaf(0)));
    let (i, d) = both.clone().insert(&IdTree::One, 1);
    assert_eq!((text(&i), d), ("1".to_string(), set([0, 2])));
    let (i, d) = both.clone().insert(&split(IdTree::Zero, left.clone()), 1);
    assert_eq!((text(&i), d), ("[0, [1, 0]]".to_string(), set([2])));
    let (i, d) = both.insert(&left, 1);
    assert_eq!((text(&i), d), ("[1, [2, 0]]".to_string(), set([0])));
}

#[test]
fn insert_then_get_gives_the_slot() {
    let ids = [
        IdTree::One,
        split(IdTree::One, IdTree::Zero),
        split(IdTree::Zero, split(IdTree::One, IdTree::Zero)),
        split(split(IdTree::Zero, IdTree::One), split(IdTree::One, IdTree::Zero)),
    ];
    let indexes = [
        ItcIndex::Unknown,
        ItcIndex::Leaf(0),
        node(ItcIndex::Leaf(0), ItcIndex::Leaf(1)),
        node(node(ItcIndex::Leaf(2), ItcIndex::Unknown), ItcIndex::Leaf(1)),
    ];
    for id in ids.iter() {
        for index in indexes.iter() {
            let (after, _) = index.clone().insert(id, 9);
            assert_eq!(after.get(id), Some(9));
            assert!(after.check_covers(id, 9));
            assert!(after.has_slot(9));
        }
    }
}

#[test]
fn insert_normalises_what_it_builds() {
    let i = node(ItcIndex::Leaf(5), ItcIndex::Unknown);
    let (after, d) = i.insert(&split(IdTree::Zero, IdTree::One), 5);
    assert_eq!(text(&after), "5");
    assert!(d.is_empty());
}

#[test]
fn purge_rules() {
    let i = node(ItcIndex::Leaf(0), node(ItcIndex::Leaf(2), ItcIndex::Leaf(0)));
    assert_eq!(text(&i.clone().purge(&IdTree::Zero, 0)), "[0, [2, 0]]");
    assert_eq!(text(&i.clone().purge(&IdTree::One, 0)), "[?, [2, ?]]");
    assert_eq!(text(&i.clone().purge(&split(IdTree::One, IdTree::Zero), 0)), "[?, [2, 0]]");
    assert_eq!(
        text(&i.clone().purge(&split(IdTree::One, split(IdTree::Zero, IdTree::One)), 0)),
        "[?, [2, ?]]"
    );
    assert_eq!(
        text(&i.clone().purge(&split(IdTree::One, split(IdTree::Zero, IdTree::One)), 2)),
        "[0, [2, 0]]"
    );
    assert_eq!(
        text(&i.clone().purge(&split(IdTree::Zero, split(IdTree::One, IdTree::Zero)), 2)),
        "[0, [?, 0]]"
    );
    assert_eq!(text(&ItcIndex::Leaf(3).purge(&IdTree::One, 3)), "?");
    assert_eq!(text(&ItcIndex::Leaf(3).purge(&split(IdTree::One, IdTree::Zero), 3)), "[?, 3]");
    assert_eq!(text(&ItcIndex::Leaf(3).purge(&split(IdTree::One, IdTree::One), 3)), "?");
    assert_eq!(
        text(&node(ItcIndex::Leaf(7), ItcIndex::Leaf(8)).purge(&IdTree::One, 7)),
        "[?, 8]"
    );
    let twice = node(ItcIndex::Leaf(7), ItcIndex::Leaf(7));
    let (after, displaced) = twice.insert(&split(IdTree::One, IdTree::Zero), 9);
    assert_eq!(displaced, set([7]));
    let after = after.purge(&IdTree::One, 7);
    assert_eq!(text(&after), "[9, ?]");
    assert_eq!(after.get(&split(IdTree::Zero, IdTree::One)), None);
    assert_eq!(after.get(&split(IdTree::One, IdTree::Zero)), Some(9));
    let loose = node(node(ItcIndex::Unknown, ItcIndex::Unknown), ItcIndex::Leaf(1));
    assert_eq!(text(&loose.purge(&IdTree::Zero, 1)), "[?, 1]");
    assert_eq!(text(&ItcIndex::Leaf(3).purge(&IdTree::One, 4)), "3");
    let j = node(ItcIndex::Leaf(1), ItcIndex::Unknown);
    assert_eq!(text(&j.purge(&split(IdTree::One, IdTree::Zero), 1)), "?");
}

#[test]
fn norm_collapses() {
    let i = node(node(ItcIndex::Unknown, ItcIndex::Unknown), node(ItcIndex::Leaf(1), ItcIndex::Leaf(1)));
    assert_eq!(text(&i.clone().norm()), "[?, 1]");
    assert_eq!(text(&i.norm().norm()), "[?, 1]");
    let j = node(node(ItcIndex::Leaf(1), ItcIndex::Leaf(1)), ItcIndex::Leaf(1));
    assert_eq!(text(&j.norm()), "1");
    let k = node(ItcIndex::Leaf(1), ItcIndex::Leaf(2));
    assert_eq!(text(&k.norm()), "[1, 2]");
}

#[test]
fn query_rules() {
    let leaf = EventTree::Leaf;
    let tree = |v, l, r| EventTree::subtree(v, l, r);
    let i = node(ItcIndex::Leaf(0), node(ItcIndex::Leaf(1), ItcIndex::Leaf(2)));
    assert_eq!(sorted(ItcIndex::Unknown.query(&leaf(3))), vec![]);
    assert_eq!(sorted(i.query(&leaf(0))), vec![]);
    assert_eq!(sorted(ItcIndex::Leaf(4).query(&leaf(1))), vec![4]);
    assert_eq!(sorted(ItcIndex::Leaf(4).query(&tree(1, leaf(0), leaf(0)))), vec![4]);
    assert_eq!(sorted(ItcIndex::Leaf(4).query(&tree(0, leaf(0), leaf(0)))), vec![]);
    assert_eq!(sorted(ItcIndex::Leaf(4).query(&tree(0, leaf(0), leaf(2)))), vec![4]);
    assert_eq!(sorted(ItcIndex::Leaf(4).query(&tree(0, leaf(1), leaf(2)))), vec![4]);
    assert_eq!(sorted(i.query(&leaf(2))), vec![0, 1, 2]);
    assert_eq!(sorted(i.query(&tree(1, leaf(0), leaf(0)))), vec![0, 1, 2]);
    assert_eq!(sorted(i.query(&tree(0, leaf(0), leaf(1)))), vec![1, 2]);
    assert_eq!(sorted(i.query(&tree(0, leaf(1), tree(0, leaf(0), leaf(1))))), vec![0, 2]);
    assert_eq!(sorted(i.query(&tree(0, leaf(0), tree(0, leaf(1), leaf(0))))), vec![1]);
    let twice = node(ItcIndex::Leaf(0), node(ItcIndex::Leaf(1), ItcIndex::Leaf(0)));
    assert_eq!(sorted(twice.query(&leaf(1))), vec![0, 1]);
}

#[test]
fn index_text_form() {
    assert_eq!(text(&ItcIndex::Unknown), "?");
    assert_eq!(text(&ItcIndex::Leaf(12)), "12");
    assert_eq!(text(&node(ItcIndex::Leaf(0), node(ItcIndex::Leaf(2), ItcIndex::Unknown))), "[0, [2, ?]]");
}

#[test]
fn test_inserts() {
    let index = ItcIndex::new();
    let mut i0 = ItcPair::new();
    let mut i1 = i0.fork();

    let (index, _) = index.insert(&i0.id, 0);

    let i0_save = 1;
    let (index, displaced) = index.insert(&i0.id, i0_save);
    assert_eq!(displaced, set([0]));

    i1.join(i0);
    let (index, displaced) = index.insert(&i1.id, 2);
    assert_eq!(displaced, set([i0_save]));

    assert_eq!(index.has_slot(i0_save) as usize + 1, 1);
}

#[test]
fn apply_lays_a_partial_index_over() {
    let i = node(ItcIndex::Leaf(0), node(ItcIndex::Leaf(1), ItcIndex::Leaf(2)));
    assert_eq!(text(&i.clone().apply(ItcIndex::Unknown)), "[0, [1, 2]]");
    assert_eq!(text(&ItcIndex::Unknown.apply(i.clone())), "[0, [1, 2]]");
    assert_eq!(text(&i.clone().apply(ItcIndex::Leaf(9))), "9");
    assert_eq!(text(&ItcIndex::Leaf(9).apply(i.clone())), "[0, [1, 2]]");
    let p = node(ItcIndex::Unknown, node(ItcIndex::Leaf(7), ItcIndex::Unknown));
    assert_eq!(text(&i.apply(p)), "[0, [7, 2]]");
}
