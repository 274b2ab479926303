use treeclocks::{EventTree, IdTree, ItcIndex, ItcMap, Patch};

fn patch_clone<T: Clone>(map: &ItcMap<T>) -> ItcMap<T> {
    let mut new_map = ItcMap::new();

    let patch = map.diff(&EventTree::Leaf(0));
    new_map.apply(patch);

    new_map
}

fn show_str(v: &&'static str) -> String {
    v.to_string()
}

#[test]
fn test_inserts_basic() {
    let mut map: ItcMap<&'static str> = ItcMap::new();
    let i0 = IdTree::one();
    map.insert(i0.clone(), "test");

    let (i0, i1) = i0.fork();
    map.insert(i1.clone(), "world");
    map.insert(i0.clone(), "test2");

    assert_eq!(map.get(&i0), Some(&"test2"));
    assert_eq!(map.get(&i1), Some(&"world"));
}

#[test]
fn test_inserts_upsert() {
    let mut map: ItcMap<&'static str> = ItcMap::new();

    // Check our basic inserts
    let i0 = IdTree::SubTree(Box::new(IdTree::One), Box::new(IdTree::Zero));
    let i1 = IdTree::SubTree(Box::new(IdTree::Zero), Box::new(IdTree::One));

    let rs = map.insert(i0.clone(), "hello");
    assert!(rs.is_empty());
    assert_eq!(map.index().to_string(), "[0, ?]".to_string());

    let rs = map.insert(i1.clone(), "world");
    assert!(rs.is_empty());
    assert_eq!(map.index().to_string(), "[0, 1]".to_string());

    // Check our basic inserts with removals
    let i1 = IdTree::SubTree(
        Box::new(IdTree::Zero),
        Box::new(IdTree::SubTree(
            Box::new(IdTree::One),
            Box::new(IdTree::Zero),
        )),
    );
    let i2 = IdTree::SubTree(
        Box::new(IdTree::Zero),
        Box::new(IdTree::SubTree(
            Box::new(IdTree::Zero),
            Box::new(IdTree::One),
        )),
    );

    let mut rs = map.insert(i1.clone(), "worldl");
    let rs: Vec<_> = rs
        .drain(..)
        .map(|(id, x)| format!("{}: {}", id.to_string(), x))
        .collect();
    assert_eq!(rs, vec!["(0, 1): world".to_string()]);
    assert_eq!(map.index().to_string(), "[0, [2, ?]]".to_string());

    let rs = map.insert(i2.clone(), "worldr");
    assert!(rs.is_empty());
    assert_eq!(map.index().to_string(), "[0, [2, 1]]".to_string());
}

#[test]
fn test_removals_basic() {
    let mut map: ItcMap<&'static str> = ItcMap::new();
    let i0 = IdTree::one();
    map.insert(i0.clone(), "test");

    let (i0, i1) = i0.fork();
    map.insert(i1.clone(), "world");

    let i0 = i0.join(i1.clone());
    map.insert(i0.clone(), "test2");

    assert_eq!(map.get(&i0), Some(&"test2"));
    assert_eq!(map.get(&i1), None);
}

#[test]
fn test_patches_1() {
    let mut ma: ItcMap<i32> = ItcMap::new();
    let mut mb: ItcMap<i32> = ItcMap::new();
    let mut mc: ItcMap<i32> = ItcMap::new();

    let i0 = IdTree::one();
    let (il, ir) = i0.fork();
    let (ill, _ilr) = il.fork();
    let (irl, irr) = ir.fork();

    ma.insert(ill.clone(), 2);

    mc.insert(irl.clone(), 1);

    let patch = ma.diff(mc.timestamp());
    mc.apply(patch);
    assert_eq!(&format!("{}", ma.timestamp().to_string()), "(0, (0, 1, 0), 0)");
    assert_eq!(&format!("{}", mc.timestamp().to_string()), "(0, (0, 1, 0), (0, 1, 0))");
    assert_eq!(mc.get(&ill), Some(&2));

    mb.insert(irr.clone(), 3);
    mb.insert(irr.clone(), 4);
    mb.insert(irr.clone(), 5);

    let patch = mc.diff(mb.timestamp());
    mb.apply(patch);

    assert_eq!(&format!("{}", mb.timestamp().to_string()), "(0, (0, 1, 0), (1, 0, 2))");
    assert_eq!(mb.get(&ill), Some(&2));
    assert_eq!(mb.get(&irr), Some(&5));
    assert_eq!(mb.get(&irl), Some(&1)); // 2 <3
}

#[test]
fn test_patches_2() {
    let mut ma: ItcMap<i32> = ItcMap::new();
    let mut mb: ItcMap<i32> = ItcMap::new();

    let i0 = IdTree::one();
    ma.insert(i0.clone(), 1);
    ma.insert(i0.clone(), 2);

    assert_eq!(ma.timestamp().to_string(), "2");

    let (i0, i1) = i0.fork();
    println!("{:?} {:?}", &i0, &i1);

    ma.insert(i0.clone(), 3);
    assert_eq!(ma.timestamp().to_string(), "(2, 1, 0)");

    let patch = ma.diff(mb.timestamp());

    mb.insert(i1.clone(), 99);
    assert_eq!(mb.timestamp().to_string(), "(0, 0, 1)");

    mb.apply(patch);

    assert_eq!(mb.timestamp().to_string(), "(2, 1, 0)");
}

#[test]
fn test_patches_3() {
    // Check our basic patching
    let mut map0: ItcMap<&'static str> = ItcMap::new();
    let i0 = IdTree::SubTree(Box::new(IdTree::One), Box::new(IdTree::Zero));
    let i1 = IdTree::SubTree(Box::new(IdTree::Zero), Box::new(IdTree::One));

    let rs = map0.insert(i0.clone(), "hello");
    assert!(rs.is_empty());
    assert_eq!(map0.index().to_string(), "[0, ?]".to_string());
    assert_eq!(map0.timestamp().to_string(), "(0, 1, 0)".to_string());

    let mut map1 = patch_clone(&map0);

    let rs = map1.insert(i1.clone(), "world");
    assert!(rs.is_empty());
    assert_eq!(map1.index().to_string(), "[0, 1]".to_string());
    assert_eq!(map1.timestamp().to_string(), "1".to_string());

    // Split
    let (i1, i2) = i1.fork();

    let mut rs = map1.insert(i1.clone(), "worldl");
    let rs: Vec<_> = rs
        .drain(..)
        .map(|(id, x)| format!("{}: {}", id.to_string(), x))
        .collect();
    assert_eq!(rs, vec!["(0, 1): world".to_string()]);
    assert_eq!(map1.index().to_string(), "[0, [2, ?]]".to_string());
    assert_eq!(
        map1.timestamp().to_string(),
        "(1, 0, (0, 1, 0))".to_string()
    );

    let mut map2 = patch_clone(&map1);
    let rs = map2.insert(i2.clone(), "worldr");
    assert!(rs.is_empty());
    assert_eq!(map2.timestamp().to_string(), "(1, 0, 1)".to_string());
}

#[test]
fn test_patches_skew() {
    let mut map0 = ItcMap::from_parts(
        EventTree::Leaf(5),
        vec![
            Some((IdTree::subtree(IdTree::One, IdTree::Zero), "foo")),
            Some((IdTree::subtree(IdTree::Zero, IdTree::One), "bar")),
        ],
        ItcIndex::subtree(ItcIndex::Leaf(0), ItcIndex::Leaf(1)),
    )
    .expect("the parts make up a map");

    let map1 = ItcMap::from_parts(
        EventTree::subtree(4, EventTree::Leaf(2), EventTree::Leaf(0)),
        vec![
            Some((
                IdTree::subtree(IdTree::subtree(IdTree::One, IdTree::Zero), IdTree::Zero),
                "foo",
            )),
            Some((IdTree::subtree(IdTree::Zero, IdTree::One), "bar")),
            Some((
                IdTree::subtree(IdTree::subtree(IdTree::Zero, IdTree::One), IdTree::Zero),
                "baz",
            )),
        ],
        ItcIndex::subtree(
            ItcIndex::subtree(ItcIndex::Leaf(0), ItcIndex::Leaf(2)),
            ItcIndex::Leaf(1),
        ),
    )
    .expect("the parts make up a map");

    assert_eq!(
        map0.to_string_with(show_str),
        "TS:5 INDEX:[0, 1] DATA:{ (1, 0): foo, (0, 1): bar }".to_string()
    );
    assert_eq!(
        map1.to_string_with(show_str),
        "TS:(4, 2, 0) INDEX:[[0, 2], 1] DATA:{ ((1, 0), 0): foo, (0, 1): bar, ((0, 1), 0): baz }"
            .to_string()
    );

    let patch = map1.diff(map0.timestamp());
    map0.apply(patch);

    assert_eq!(map0.timestamp().to_string(), "(5, 1, 0)");
}

#[test]
fn upsert_under_the_same_share() {
    let mut m: ItcMap<&'static str> = ItcMap::new();
    assert!(m.insert(IdTree::One, "a").is_empty());
    let previous = m.insert(IdTree::One, "b");
    assert_eq!(previous, vec![(IdTree::One, "a")]);
    assert_eq!(m.get(&IdTree::One), Some(&"b"));
    assert_eq!(*m.timestamp(), EventTree::Leaf(2));
    assert_eq!(m.len(), 1);
}

#[test]
fn three_peers_sync() {
    let mut a: ItcMap<i32> = ItcMap::new();
    let mut b: ItcMap<i32> = ItcMap::new();
    let mut c: ItcMap<i32> = ItcMap::new();
    let (il, ir) = IdTree::one().fork();
    let (ill, _ilr) = il.fork();
    let (irl, irr) = ir.fork();

    a.insert(ill.clone(), 2);
    c.insert(irl.clone(), 1);
    let patch = a.diff(c.timestamp());
    c.apply(patch);
    assert_eq!(c.timestamp().to_string(), "(0, (0, 1, 0), (0, 1, 0))");
    assert_eq!(c.get(&ill), Some(&2));

    b.insert(irr.clone(), 3);
    b.insert(irr.clone(), 4);
    b.insert(irr.clone(), 5);
    let patch = c.diff(b.timestamp());
    b.apply(patch);
    assert_eq!(b.timestamp().to_string(), "(0, (0, 1, 0), (1, 0, 2))");
    assert_eq!(b.get(&ill), Some(&2));
    assert_eq!(b.get(&irl), Some(&1));
    assert_eq!(b.get(&irr), Some(&5));
}

#[test]
fn len_iter_and_empty() {
    let mut m: ItcMap<i32> = ItcMap::new();
    assert!(m.is_empty());
    assert_eq!(m.len(), 0);
    assert!(m.iter().is_empty());
    let (l, r) = IdTree::one().fork();
    m.insert(l.clone(), 10);
    m.insert(r.clone(), 20);
    assert!(!m.is_empty());
    assert_eq!(m.len(), 2);
    assert_eq!(m.iter(), vec![(&l, &10), (&r, &20)]);
    m.insert(IdTree::One, 30);
    assert_eq!(m.len(), 1);
    assert_eq!(m.iter(), vec![(&IdTree::One, &30)]);
    assert_eq!(m.get(&l), None);
    assert_eq!(m.get(&r), None);
}

#[test]
fn insert_returns_what_it_displaces() {
    let mut m: ItcMap<i32> = ItcMap::new();
    let (l, r) = IdTree::one().fork();
    let (rl, rr) = r.clone().fork();
    m.insert(l.clone(), 1);
    m.insert(rl.clone(), 2);
    m.insert(rr.clone(), 3);
    let mut gone = m.insert(r.clone(), 4);
    gone.sort_by_key(|e| e.1);
    assert_eq!(gone, vec![(rl.clone(), 2), (rr.clone(), 3)]);
    assert_eq!(m.get(&l), Some(&1));
    assert_eq!(m.get(&r), Some(&4));
    assert_eq!(m.get(&rl), None);
    assert_eq!(m.get(&rr), None);
    assert_eq!(m.index().to_string(), "[0, 3]");
    let gone = m.insert(rl.clone(), 5);
    assert_eq!(gone, vec![(r.clone(), 4)]);
    assert_eq!(m.get(&r), None);
    assert_eq!(m.get(&rl), Some(&5));
    assert_eq!(m.index().to_string(), "[0, [1, ?]]");
}

#[test]
fn insert_without_event_keeps_the_clock() {
    let mut m: ItcMap<i32> = ItcMap::new();
    let gone = m.insert_without_event(IdTree::One, 7);
    assert!(gone.is_empty());
    assert_eq!(*m.timestamp(), EventTree::Leaf(0));
    assert_eq!(m.get(&IdTree::One), Some(&7));
    let gone = m.insert_without_event(IdTree::One, 8);
    assert_eq!(gone, vec![(IdTree::One, 7)]);
    assert_eq!(*m.timestamp(), EventTree::Leaf(0));
}

#[test]
fn event_needs_a_share_that_resolves() {
    let mut m: ItcMap<i32> = ItcMap::new();
    let (l, r) = IdTree::one().fork();
    assert!(!m.event(&l));
    assert_eq!(*m.timestamp(), EventTree::Leaf(0));
    m.insert(l.clone(), 1);
    assert!(m.event(&l));
    assert_eq!(m.timestamp().to_string(), "(0, 2, 0)");
    assert!(!m.event(&r));
    assert!(!m.event(&IdTree::Zero));
    assert_eq!(m.timestamp().to_string(), "(0, 2, 0)");
    assert_eq!(m.get(&l), Some(&1));
}

#[test]
fn apply_passes_over_what_is_known() {
    let mut a: ItcMap<i32> = ItcMap::new();
    let (l, r) = IdTree::one().fork();
    a.insert(l.clone(), 1);
    let mut b = patch_clone(&a);
    b.insert(r.clone(), 2);
    b.insert(l.clone(), 3);
    // `a` has nothing that `b` has not seen
    let patch = a.diff(b.timestamp());
    assert!(patch.entries().is_empty());
    let (added, removed) = b.apply(patch);
    assert!(added.is_empty());
    assert!(removed.is_empty());
    assert_eq!(b.get(&l), Some(&3));
    // a stale entry in a patch is passed over
    let stale = Patch::new(EventTree::Leaf(0), vec![(l.clone(), 9)]).expect("a patch");
    let (added, removed) = b.apply(stale);
    assert!(added.is_empty());
    assert!(removed.is_empty());
    assert_eq!(b.get(&l), Some(&3));
    // what `b` has beyond `a` comes over
    let patch = b.diff(a.timestamp());
    assert_eq!(patch.entries().len(), 2);
    let (added, removed) = a.apply(patch);
    assert_eq!(removed, vec![(l.clone(), 1)]);
    assert_eq!(added.len(), 2);
    assert_eq!(a.get(&l), Some(&3));
    assert_eq!(a.get(&r), Some(&2));
    assert_eq!(a.timestamp(), b.timestamp());
}

#[test]
fn exchange_in_both_directions_converges() {
    let mut a: ItcMap<i32> = ItcMap::new();
    let mut b: ItcMap<i32> = ItcMap::new();
    let (l, r) = IdTree::one().fork();
    let (rl, rr) = r.clone().fork();
    a.insert(l.clone(), 1);
    b.insert(rl.clone(), 2);
    a.insert(l.clone(), 3);
    b.insert(rr.clone(), 4);
    for _ in 0..2 {
        let p = a.diff(b.timestamp());
        b.apply(p);
        let p = b.diff(a.timestamp());
        a.apply(p);
    }
    assert_eq!(a.timestamp(), b.timestamp());
    assert_eq!(a.len(), 3);
    assert_eq!(b.len(), 3);
    for id in [&l, &rl, &rr] {
        assert_eq!(a.get(id), b.get(id));
        assert!(a.get(id).is_some());
    }
    assert_eq!(a.get(&l), Some(&3));
    assert!(a == b);
}

#[test]
fn equal_maps_have_equal_clocks_and_entries() {
    let (l, r) = IdTree::one().fork();
    let mut a: ItcMap<i32> = ItcMap::new();
    let mut b: ItcMap<i32> = ItcMap::new();
    assert!(a == b);
    a.insert_without_event(l.clone(), 1);
    a.insert_without_event(r.clone(), 2);
    b.insert_without_event(r.clone(), 2);
    assert!(a != b);
    assert!(b.includes(&a));
    assert!(!a.includes(&b));
    b.insert_without_event(l.clone(), 1);
    // the same entries in other slots
    assert!(a == b);
    b.insert_without_event(l.clone(), 7);
    assert!(a != b);
    b.insert_without_event(l.clone(), 1);
    assert!(a == b);
    b.event(&l);
    assert!(a != b);
    let c = a.clone();
    assert!(c == a);
    assert_eq!(c.index().to_string(), a.index().to_string());
    let p = a.diff(&EventTree::Leaf(0));
    let q = p.clone();
    assert_eq!(q.timestamp(), p.timestamp());
    assert_eq!(q.entries(), p.entries());
}

#[test]
fn concurrent_inserts_under_one_share_do_not_converge() {
    let mut a: ItcMap<i32> = ItcMap::new();
    let mut b: ItcMap<i32> = ItcMap::new();
    a.insert(IdTree::One, 1);
    b.insert(IdTree::One, 2);
    let p = a.diff(b.timestamp());
    b.apply(p);
    let p = b.diff(a.timestamp());
    a.apply(p);
    assert_eq!(a.timestamp(), b.timestamp());
    assert_eq!(a.get(&IdTree::One), Some(&1));
    assert_eq!(b.get(&IdTree::One), Some(&2));
    assert!(a != b);
}

#[test]
fn patch_checks_its_parts() {
    let bad_id = IdTree::subtree(IdTree::One, IdTree::One);
    assert!(Patch::new(EventTree::Leaf(0), vec![(bad_id, 1)]).is_none());
    let big = EventTree::subtree(u64::MAX, EventTree::Leaf(1), EventTree::Leaf(0));
    assert!(Patch::<i32>::new(big, vec![]).is_none());
    let p = Patch::new(EventTree::Leaf(3), vec![(IdTree::One, 1)]).expect("a patch");
    assert_eq!(*p.timestamp(), EventTree::Leaf(3));
    assert_eq!(p.entries(), &vec![(IdTree::One, 1)]);
    assert_eq!(p.to_string_with(|v: &i32| v.to_string()), "TS:3 INNER:1: 1");
    let (t, e) = p.into_parts();
    assert_eq!(t, EventTree::Leaf(3));
    assert_eq!(e, vec![(IdTree::One, 1)]);
}

#[test]
fn from_parts_checks_its_parts() {
    let l = IdTree::subtree(IdTree::One, IdTree::Zero);
    let index = ItcIndex::subtree(ItcIndex::Leaf(0), ItcIndex::Unknown);
    assert!(ItcMap::from_parts(EventTree::Leaf(1), vec![Some((l.clone(), 1))], index.clone()).is_some());
    // a slot that holds nothing
    assert!(ItcMap::<i32>::from_parts(EventTree::Leaf(1), vec![None], index.clone()).is_none());
    // an entry that the index does not know
    assert!(ItcMap::from_parts(
        EventTree::Leaf(1),
        vec![Some((l.clone(), 1)), Some((IdTree::subtree(IdTree::Zero, IdTree::One), 2))],
        index.clone()
    )
    .is_none());
    // a clock that is not in normal form
    assert!(ItcMap::from_parts(
        EventTree::subtree(0, EventTree::Leaf(1), EventTree::Leaf(1)),
        vec![Some((l.clone(), 1))],
        index.clone()
    )
    .is_none());
    // an empty share
    assert!(ItcMap::from_parts(EventTree::Leaf(1), vec![Some((IdTree::Zero, 1))], ItcIndex::Unknown)
        .is_none());
    let empty: ItcMap<i32> = ItcMap::from_parts(EventTree::Leaf(0), vec![], ItcIndex::Unknown)
        .expect("the empty map");
    assert_eq!(empty.to_string_with(|v: &i32| v.to_string()), "TS:0 INDEX:? DATA:{  }");
}

#[test]
fn a_stale_entry_outlives_what_displaced_it() {
    // `a` puts values under shares that follow no fork: the entry that `b`
    // took over in between is displaced in `a` alone.
    let (l, _r) = IdTree::one().fork();
    let (ll, lr) = l.clone().fork();
    let mut a: ItcMap<i32> = ItcMap::new();
    let mut b: ItcMap<i32> = ItcMap::new();
    a.insert(ll.clone(), 1);
    let p = a.diff(b.timestamp());
    b.apply(p);
    a.insert(l.clone(), 2);
    a.insert(lr.clone(), 3);
    let p = a.diff(b.timestamp());
    b.apply(p);
    let p = b.diff(a.timestamp());
    a.apply(p);
    assert_eq!(a.timestamp(), b.timestamp());
    assert_eq!(a.get(&ll), None);
    assert_eq!(b.get(&ll), Some(&1));
    assert_eq!(b.get(&lr), Some(&3));
    assert!(a != b);
}

#[test]
fn insert_takes_the_first_free_slot() {
    let (l, r) = IdTree::one().fork();
    let (rl, rr) = r.clone().fork();
    let mut m: ItcMap<i32> = ItcMap::new();
    m.insert(l.clone(), 1);
    m.insert(rl.clone(), 2);
    m.insert(rr.clone(), 3);
    assert_eq!(m.index().to_string(), "[0, [1, 2]]");
    // the new entry takes a new slot, and the two that it displaces are free
    m.insert(r.clone(), 4);
    assert_eq!(m.index().to_string(), "[0, 3]");
    // the next entries take the free slots, the first one first
    m.insert(rl.clone(), 5);
    assert_eq!(m.index().to_string(), "[0, [1, ?]]");
    m.insert(rr.clone(), 6);
    assert_eq!(m.index().to_string(), "[0, [1, 2]]");
    // a new value under a key stays in the slot of the key
    m.insert(rr.clone(), 7);
    assert_eq!(m.index().to_string(), "[0, [1, 2]]");
    assert_eq!(m.iter(), vec![(&l, &1), (&rl, &5), (&rr, &7)]);
    assert!(m.index().check_normalized());
}
