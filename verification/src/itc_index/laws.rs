//! What holds of the index: the slot of each point after each operation.
use vstd::prelude::*;
use crate::event_tree::EventTree;
use crate::event_tree::laws::lemma_value_bounds;
use crate::id_tree::IdTree;
use crate::id_tree::laws::lemma_node_points;
use crate::itc_index::ItcIndex;
use crate::point::{goes_right, rest, within, lemma_within};

verus! {

/// A slot occurs in the index exactly where some point belongs to it.
pub proof fn lemma_slots_points(t: ItcIndex, s: usize)
    ensures
        t.slots().contains(s) <==> exists|p: Seq<bool>| #[trigger] t.slot_at(p) == Some(s),
    decreases t,
{
    match t {
        ItcIndex::Unknown => {},
        ItcIndex::Leaf(x) => {
            if x == s {
                assert(t.slot_at(Seq::empty()) == Some(s));
            }
        },
        ItcIndex::SubTree(l, r) => {
            lemma_slots_points(*l, s);
            lemma_slots_points(*r, s);
            if l.slots().contains(s) {
                let q = choose|q: Seq<bool>| #[trigger] l.slot_at(q) == Some(s);
                lemma_within(false, q);
                assert(t.slot_at(within(false, q)) == Some(s));
            }
            if r.slots().contains(s) {
                let q = choose|q: Seq<bool>| #[trigger] r.slot_at(q) == Some(s);
                lemma_within(true, q);
                assert(t.slot_at(within(true, q)) == Some(s));
            }
            if exists|p: Seq<bool>| #[trigger] t.slot_at(p) == Some(s) {
                let p = choose|p: Seq<bool>| #[trigger] t.slot_at(p) == Some(s);
                if goes_right(p) {
                    assert(r.slot_at(rest(p)) == Some(s));
                } else {
                    assert(l.slot_at(rest(p)) == Some(s));
                }
            }
        },
    }
}

/// A collapsed node is in normal form where its halves are, and gives every
/// point the slot that the node itself would give it.
pub proof fn lemma_collapse(l: ItcIndex, r: ItcIndex)
    ensures
        l.is_normalized() && r.is_normalized() ==> ItcIndex::collapse(l, r).is_normalized(),
        forall|p: Seq<bool>| #[trigger]
            ItcIndex::collapse(l, r).slot_at(p) == ItcIndex::SubTree(
                Box::new(l),
                Box::new(r),
            ).slot_at(p),
        ItcIndex::collapse(l, r).slots() == l.slots().union(r.slots()),
{
    reveal_with_fuel(ItcIndex::slot_at, 2);
    reveal_with_fuel(ItcIndex::is_normalized, 2);
    reveal_with_fuel(ItcIndex::slots, 2);
    assert(ItcIndex::collapse(l, r).slots() =~= l.slots().union(r.slots()));
}

/// `norm_spec` gives an index in normal form that gives every point the same
/// slot, and leaves an index in normal form as it is.
pub proof fn lemma_norm(t: ItcIndex)
    ensures
        t.norm_spec().is_normalized(),
        forall|p: Seq<bool>| #[trigger] t.norm_spec().slot_at(p) == t.slot_at(p),
        t.norm_spec().slots() == t.slots(),
        t.is_normalized() ==> t.norm_spec() == t,
    decreases t,
{
    match t {
        ItcIndex::SubTree(l, r) => {
            lemma_norm(*l);
            lemma_norm(*r);
            lemma_collapse(l.norm_spec(), r.norm_spec());
            assert forall|p: Seq<bool>| #[trigger] t.norm_spec().slot_at(p) == t.slot_at(p) by {
                let n = ItcIndex::SubTree(Box::new(l.norm_spec()), Box::new(r.norm_spec()));
                assert(t.norm_spec().slot_at(p) == n.slot_at(p));
                assert(l.norm_spec().slot_at(rest(p)) == l.slot_at(rest(p)));
                assert(r.norm_spec().slot_at(rest(p)) == r.slot_at(rest(p)));
            }
        },
        _ => {},
    }
}

/// Giving a whole region to a slot displaces every slot in it.
pub proof fn lemma_displaced_whole(t: ItcIndex)
    ensures
        t.displaced_spec(IdTree::One) == t.slots(),
{
}

/// The slots that hold a point at which an event tree records an event, read
/// off the two trees: none where nothing is known or no event is recorded;
/// every slot of the index under a count that is not zero; and else those of
/// the two halves.
pub proof fn lemma_query(t: ItcIndex, e: EventTree)
    ensures
        t is Unknown ==> t.query_spec(e) == Set::<usize>::empty(),
        e.root() > 0 ==> t.query_spec(e) == t.slots(),
        e == EventTree::Leaf(0) ==> t.query_spec(e) == Set::<usize>::empty(),
        t matches ItcIndex::Leaf(s) ==> e matches EventTree::SubTree(v, l, r) ==> v == 0
            ==> t.query_spec(e) == t.query_spec(*l).union(t.query_spec(*r)),
        t matches ItcIndex::SubTree(l0, r0) ==> e matches EventTree::SubTree(v, l1, r1) ==> v
            == 0 ==> t.query_spec(e) == l0.query_spec(*l1).union(r0.query_spec(*r1)),
        t matches ItcIndex::SubTree(l0, r0) ==> t.slots() == l0.slots().union(r0.slots()),
        t matches ItcIndex::Leaf(s) ==> t.slots() == set![s],
{
    assert forall|s: usize| t.query_spec(e).contains(s) implies t.slots().contains(s) by {
        lemma_slots_points(t, s);
    }
    if t is Unknown {
        assert(t.query_spec(e) =~= Set::<usize>::empty());
    }
    if e == EventTree::Leaf(0) {
        assert(t.query_spec(e) =~= Set::<usize>::empty());
    }
    if e.root() > 0 {
        assert forall|s: usize| t.slots().contains(s) implies t.query_spec(e).contains(s) by {
            lemma_slots_points(t, s);
            let p = choose|p: Seq<bool>| #[trigger] t.slot_at(p) == Some(s);
            lemma_value_bounds(e, p);
            assert(t.slot_at(p) == Some(s) && e.value_at(p) > 0);
        }
        assert(t.query_spec(e) =~= t.slots());
    }
    match (t, e) {
        (ItcIndex::Leaf(x), EventTree::SubTree(v, l, r)) => {
            if v == 0 {
                let u = t.query_spec(*l).union(t.query_spec(*r));
                assert forall|s: usize| t.query_spec(e).contains(s) implies u.contains(s) by {
                    let p = choose|p: Seq<bool>|
                        t.slot_at(p) == Some(s) && #[trigger] e.value_at(p) > 0;
                    if goes_right(p) {
                        assert(t.slot_at(rest(p)) == Some(s) && r.value_at(rest(p)) > 0);
                    } else {
                        assert(t.slot_at(rest(p)) == Some(s) && l.value_at(rest(p)) > 0);
                    }
                }
                assert forall|s: usize| u.contains(s) implies t.query_spec(e).contains(s) by {
                    if t.query_spec(*l).contains(s) {
                        let q = choose|q: Seq<bool>|
                            t.slot_at(q) == Some(s) && #[trigger] l.value_at(q) > 0;
                        lemma_within(false, q);
                        assert(t.slot_at(within(false, q)) == Some(s) && e.value_at(
                            within(false, q),
                        ) > 0);
                    } else {
                        let q = choose|q: Seq<bool>|
                            t.slot_at(q) == Some(s) && #[trigger] r.value_at(q) > 0;
                        lemma_within(true, q);
                        assert(t.slot_at(within(true, q)) == Some(s) && e.value_at(
                            within(true, q),
                        ) > 0);
                    }
                }
                assert(t.query_spec(e) =~= u);
            }
        },
        (ItcIndex::SubTree(l0, r0), EventTree::SubTree(v, l1, r1)) => {
            if v == 0 {
                let u = l0.query_spec(*l1).union(r0.query_spec(*r1));
                assert forall|s: usize| t.query_spec(e).contains(s) implies u.contains(s) by {
                    let p = choose|p: Seq<bool>|
                        t.slot_at(p) == Some(s) && #[trigger] e.value_at(p) > 0;
                    if goes_right(p) {
                        assert(r0.slot_at(rest(p)) == Some(s) && r1.value_at(rest(p)) > 0);
                    } else {
                        assert(l0.slot_at(rest(p)) == Some(s) && l1.value_at(rest(p)) > 0);
                    }
                }
                assert forall|s: usize| u.contains(s) implies t.query_spec(e).contains(s) by {
                    if l0.query_spec(*l1).contains(s) {
                        let q = choose|q: Seq<bool>|
                            l0.slot_at(q) == Some(s) && #[trigger] l1.value_at(q) > 0;
                        lemma_within(false, q);
                        assert(t.slot_at(within(false, q)) == Some(s) && e.value_at(
                            within(false, q),
                        ) > 0);
                    } else {
                        let q = choose|q: Seq<bool>|
                            r0.slot_at(q) == Some(s) && #[trigger] r1.value_at(q) > 0;
                        lemma_within(true, q);
                        assert(t.slot_at(within(true, q)) == Some(s) && e.value_at(
                            within(true, q),
                        ) > 0);
                    }
                }
                assert(t.query_spec(e) =~= u);
            }
        },
        _ => {},
    }
}

/// A slot that the index gives a share to occurs in the index, unless the
/// share is empty.
pub proof fn lemma_covers_occurs(t: ItcIndex, id: IdTree, s: usize)
    requires
        t.covers(id, s),
        id.is_normalized(),
        id != IdTree::Zero,
    ensures
        t.slots().contains(s),
    decreases t,
{
    match (t, id) {
        (ItcIndex::SubTree(l0, r0), IdTree::SubTree(l1, r1)) => {
            if *l1 != IdTree::Zero {
                lemma_covers_occurs(*l0, *l1, s);
            } else {
                lemma_covers_occurs(*r0, *r1, s);
            }
        },
        _ => {},
    }
}

/// A share resolves to the slot that the index gives it to.
pub proof fn lemma_covers_get(t: ItcIndex, id: IdTree, s: usize)
    requires
        t.covers(id, s),
        id.is_normalized(),
        id != IdTree::Zero,
    ensures
        t.get_spec(id) == Some(s),
    decreases t,
{
    match (t, id) {
        (ItcIndex::SubTree(l0, r0), IdTree::SubTree(l1, r1)) => {
            if *l1 != IdTree::Zero {
                lemma_covers_get(*l0, *l1, s);
            } else {
                lemma_covers_get(*r0, *r1, s);
            }
        },
        _ => {},
    }
}

/// The slot that the index gives a share to holds exactly the points of the
/// share.
pub proof fn lemma_covers_points(t: ItcIndex, id: IdTree, s: usize)
    requires
        t.covers(id, s),
    ensures
        forall|p: Seq<bool>| #[trigger] id.owns(p) <==> t.slot_at(p) == Some(s),
    decreases t,
{
    assert forall|p: Seq<bool>| #[trigger] id.owns(p) <==> t.slot_at(p) == Some(s) by {
        lemma_slots_points(t, s);
        match (t, id) {
            (ItcIndex::SubTree(l0, r0), IdTree::SubTree(l1, r1)) => {
                lemma_covers_points(*l0, *l1, s);
                lemma_covers_points(*r0, *r1, s);
                assert(l1.owns(rest(p)) <==> l0.slot_at(rest(p)) == Some(s));
                assert(r1.owns(rest(p)) <==> r0.slot_at(rest(p)) == Some(s));
            },
            _ => {},
        }
    }
}

/// Collapsing a node keeps what its halves give to a slot.
pub proof fn lemma_collapse_covers(l: ItcIndex, r: ItcIndex, id: IdTree, s: usize)
    requires
        id.is_normalized(),
        ItcIndex::SubTree(Box::new(l), Box::new(r)).covers(id, s),
    ensures
        ItcIndex::collapse(l, r).covers(id, s),
{
    lemma_collapse(l, r);
    reveal_with_fuel(ItcIndex::covers, 2);
    reveal_with_fuel(ItcIndex::slots, 2);
}

/// Normalising keeps what the index gives to a slot.
pub proof fn lemma_norm_covers(t: ItcIndex, id: IdTree, s: usize)
    requires
        id.is_normalized(),
        t.covers(id, s),
    ensures
        t.norm_spec().covers(id, s),
    decreases t,
{
    lemma_norm(t);
    match (t, id) {
        (ItcIndex::SubTree(l0, r0), IdTree::SubTree(l1, r1)) => {
            lemma_norm_covers(*l0, *l1, s);
            lemma_norm_covers(*r0, *r1, s);
            lemma_collapse_covers(l0.norm_spec(), r0.norm_spec(), id, s);
        },
        _ => {},
    }
}

/// After a share has been given to a slot, the index holds that slot and
/// slots that it held before, and no other.
pub proof fn lemma_insert_slots(t: ItcIndex, id: IdTree, s: usize, x: usize)
    requires
        t.insert_spec(id, s).slots().contains(x),
    ensures
        x == s || t.slots().contains(x),
    decreases t.depth_spec() + id.depth_spec(),
{
    match (t, id) {
        (_, IdTree::Zero) => {},
        (_, IdTree::One) => {},
        (ItcIndex::SubTree(l0, r0), IdTree::SubTree(l1, r1)) => {
            let l = l0.insert_spec(*l1, s);
            let r = r0.insert_spec(*r1, s);
            lemma_norm(ItcIndex::SubTree(Box::new(l), Box::new(r)));
            if l.slots().contains(x) {
                lemma_insert_slots(*l0, *l1, s, x);
            } else {
                lemma_insert_slots(*r0, *r1, s, x);
            }
        },
        (_, IdTree::SubTree(l1, r1)) => {
            let l = ItcIndex::Unknown.insert_spec(*l1, s);
            let r = ItcIndex::Unknown.insert_spec(*r1, s);
            lemma_norm(ItcIndex::SubTree(Box::new(l), Box::new(r)));
            if l.slots().contains(x) {
                lemma_insert_slots(ItcIndex::Unknown, *l1, s, x);
            } else {
                lemma_insert_slots(ItcIndex::Unknown, *r1, s, x);
            }
        },
    }
}

/// After a share has been given to a slot that did not occur, the index gives
/// exactly that share to the slot.
pub proof fn lemma_insert_covers(t: ItcIndex, id: IdTree, s: usize)
    requires
        id.is_normalized(),
        !t.slots().contains(s),
    ensures
        t.insert_spec(id, s).covers(id, s),
    decreases t.depth_spec() + id.depth_spec(),
{
    match (t, id) {
        (_, IdTree::Zero) => {},
        (_, IdTree::One) => {},
        (ItcIndex::SubTree(l0, r0), IdTree::SubTree(l1, r1)) => {
            lemma_insert_covers(*l0, *l1, s);
            lemma_insert_covers(*r0, *r1, s);
            let n = ItcIndex::SubTree(
                Box::new(l0.insert_spec(*l1, s)),
                Box::new(r0.insert_spec(*r1, s)),
            );
            lemma_norm_covers(n, id, s);
        },
        (_, IdTree::SubTree(l1, r1)) => {
            lemma_insert_covers(ItcIndex::Unknown, *l1, s);
            lemma_insert_covers(ItcIndex::Unknown, *r1, s);
            let n = ItcIndex::SubTree(
                Box::new(ItcIndex::Unknown.insert_spec(*l1, s)),
                Box::new(ItcIndex::Unknown.insert_spec(*r1, s)),
            );
            lemma_norm_covers(n, id, s);
        },
    }
}

/// Index round trip: a share in normal form that is not empty resolves to the
/// slot that it has just been given to, where that slot did not occur before.
pub proof fn lemma_insert_then_get(t: ItcIndex, id: IdTree, s: usize)
    requires
        id.is_normalized(),
        id != IdTree::Zero,
        !t.slots().contains(s),
    ensures
        t.insert_spec(id, s).get_spec(id) == Some(s),
{
    lemma_insert_covers(t, id, s);
    lemma_covers_get(t.insert_spec(id, s), id, s);
}

/// A slot that the index gives a share to occurs in no region that the share
/// owns nothing of; so where the share is whole or the slot occurs, they
/// meet.
proof fn lemma_covers_whole(t: ItcIndex, idt: IdTree, x: usize)
    requires
        t.covers(idt, x),
        idt.is_normalized(),
        !t.slots().contains(x),
    ensures
        idt == IdTree::Zero,
{
    if idt != IdTree::Zero {
        lemma_covers_occurs(t, idt, x);
    }
}

/// Giving a share to a slot keeps what the index gives to every other slot
/// that is not displaced.
pub proof fn lemma_insert_keeps(t: ItcIndex, id: IdTree, s: usize, idt: IdTree, x: usize)
    requires
        t.covers(idt, x),
        idt.is_normalized(),
        x != s,
        !t.displaced_spec(id).contains(x),
    ensures
        t.insert_spec(id, s).covers(idt, x),
    decreases t.depth_spec() + id.depth_spec(),
{
    let after = t.insert_spec(id, s);
    if after.slots().contains(x) {
        lemma_insert_slots(t, id, s, x);
    }
    match (t, id) {
        (_, IdTree::Zero) => {},
        (ItcIndex::Unknown, _) => {
            lemma_covers_whole(t, idt, x);
        },
        (ItcIndex::Leaf(old), _) => {
            lemma_covers_whole(t, idt, x);
        },
        (ItcIndex::SubTree(_, _), IdTree::One) => {
            lemma_covers_whole(t, idt, x);
        },
        (ItcIndex::SubTree(l0, r0), IdTree::SubTree(l1, r1)) => {
            match idt {
                IdTree::SubTree(tl, tr) => {
                    lemma_insert_keeps(*l0, *l1, s, *tl, x);
                    lemma_insert_keeps(*r0, *r1, s, *tr, x);
                    let n = ItcIndex::SubTree(
                        Box::new(l0.insert_spec(*l1, s)),
                        Box::new(r0.insert_spec(*r1, s)),
                    );
                    lemma_norm_covers(n, idt, x);
                },
                _ => {},
            }
        },
    }
}

/// The slots that a share displaces are those that hold a point of the share.
pub proof fn lemma_displaced_points(t: ItcIndex, id: IdTree, x: usize)
    requires
        id.is_normalized(),
    ensures
        t.displaced_spec(id).contains(x) <==> exists|p: Seq<bool>|
            id.owns(p) && #[trigger] t.slot_at(p) == Some(x),
    decreases t,
{
    let hit = exists|p: Seq<bool>| id.owns(p) && #[trigger] t.slot_at(p) == Some(x);
    lemma_slots_points(t, x);
    match (t, id) {
        (_, IdTree::Zero) => {},
        (ItcIndex::Unknown, _) => {},
        (ItcIndex::Leaf(old), _) => {
            if old == x {
                let p = if id is SubTree {
                    lemma_node_points(id).0
                } else {
                    Seq::<bool>::empty()
                };
                assert(id.owns(p) && t.slot_at(p) == Some(x));
            }
        },
        (ItcIndex::SubTree(_, _), IdTree::One) => {
            if t.slots().contains(x) {
                let p = choose|p: Seq<bool>| #[trigger] t.slot_at(p) == Some(x);
                assert(id.owns(p) && t.slot_at(p) == Some(x));
            }
        },
        (ItcIndex::SubTree(l0, r0), IdTree::SubTree(l1, r1)) => {
            lemma_displaced_points(*l0, *l1, x);
            lemma_displaced_points(*r0, *r1, x);
            if l0.displaced_spec(*l1).contains(x) {
                let q = choose|q: Seq<bool>| l1.owns(q) && #[trigger] l0.slot_at(q) == Some(x);
                lemma_within(false, q);
                assert(id.owns(within(false, q)) && t.slot_at(within(false, q)) == Some(x));
            }
            if r0.displaced_spec(*r1).contains(x) {
                let q = choose|q: Seq<bool>| r1.owns(q) && #[trigger] r0.slot_at(q) == Some(x);
                lemma_within(true, q);
                assert(id.owns(within(true, q)) && t.slot_at(within(true, q)) == Some(x));
            }
            if hit {
                let p = choose|p: Seq<bool>| id.owns(p) && #[trigger] t.slot_at(p) == Some(x);
                if goes_right(p) {
                    assert(r1.owns(rest(p)) && r0.slot_at(rest(p)) == Some(x));
                } else {
                    assert(l1.owns(rest(p)) && l0.slot_at(rest(p)) == Some(x));
                }
            }
        },
    }
}

/// A slot that a share displaces occurred in the index.
pub proof fn lemma_displaced_occurs(t: ItcIndex, id: IdTree, x: usize)
    requires
        t.displaced_spec(id).contains(x),
    ensures
        t.slots().contains(x),
    decreases t,
{
    match (t, id) {
        (ItcIndex::SubTree(l0, r0), IdTree::SubTree(l1, r1)) => {
            if l0.displaced_spec(*l1).contains(x) {
                lemma_displaced_occurs(*l0, *l1, x);
            } else {
                lemma_displaced_occurs(*r0, *r1, x);
            }
        },
        _ => {},
    }
}

/// Where a partial index that is laid over an index knows the slot of a
/// point, the result has that slot for the point.
pub proof fn lemma_apply(t: ItcIndex, partial: ItcIndex)
    ensures
        forall|p: Seq<bool>|
            partial.slot_at(p) is Some ==> #[trigger] t.apply_spec(partial).slot_at(p)
                == partial.slot_at(p),
    decreases t,
{
    match (t, partial) {
        (ItcIndex::SubTree(l0, r0), ItcIndex::SubTree(l1, r1)) => {
            lemma_apply(*l0, *l1);
            lemma_apply(*r0, *r1);
            assert forall|p: Seq<bool>| partial.slot_at(p) is Some implies #[trigger] t.apply_spec(
                partial,
            ).slot_at(p) == partial.slot_at(p) by {
                let q = rest(p);
                assert(l1.slot_at(q) is Some ==> l0.apply_spec(*l1).slot_at(q) == l1.slot_at(q));
                assert(r1.slot_at(q) is Some ==> r0.apply_spec(*r1).slot_at(q) == r1.slot_at(q));
            }
        },
        _ => {},
    }
}

/// A share resolves only to a slot that occurs in the index.
pub proof fn lemma_get_occurs(t: ItcIndex, id: IdTree)
    ensures
        t.get_spec(id) matches Some(s) ==> t.slots().contains(s),
    decreases t,
{
    match (t, id) {
        (ItcIndex::SubTree(l0, r0), IdTree::SubTree(l1, r1)) => {
            lemma_get_occurs(*l0, *l1);
            lemma_get_occurs(*r0, *r1);
        },
        _ => {},
    }
}

/// After a share has been given to a slot, every point of the share belongs
/// to that slot, and every other point to the slot that it belonged to, or to
/// none where that slot is displaced.
pub proof fn lemma_insert_points(t: ItcIndex, id: IdTree, s: usize)
    ensures
        forall|p: Seq<bool>| id.owns(p) ==> #[trigger] t.insert_spec(id, s).slot_at(p) == Some(s),
        forall|p: Seq<bool>|
            !id.owns(p) ==> #[trigger] t.insert_spec(id, s).slot_at(p) == t.slot_at(p) || (
            t.insert_spec(id, s).slot_at(p) is None && t.slot_at(p) is Some
                && t.displaced_spec(id).contains(t.slot_at(p).unwrap())),
    decreases t.depth_spec() + id.depth_spec(),
{
    let after = t.insert_spec(id, s);
    match (t, id) {
        (_, IdTree::Zero) => {},
        (_, IdTree::One) => {},
        (ItcIndex::SubTree(l0, r0), IdTree::SubTree(l1, r1)) => {
            lemma_insert_points(*l0, *l1, s);
            lemma_insert_points(*r0, *r1, s);
            let l = l0.insert_spec(*l1, s);
            let r = r0.insert_spec(*r1, s);
            let n = ItcIndex::SubTree(Box::new(l), Box::new(r));
            lemma_norm(n);
            assert forall|p: Seq<bool>| id.owns(p) implies #[trigger] after.slot_at(p) == Some(
                s,
            ) by {
                assert(after.slot_at(p) == n.slot_at(p));
                assert(l1.owns(rest(p)) ==> l.slot_at(rest(p)) == Some(s));
                assert(r1.owns(rest(p)) ==> r.slot_at(rest(p)) == Some(s));
            }
            assert forall|p: Seq<bool>| !id.owns(p) implies #[trigger] after.slot_at(p)
                == t.slot_at(p) || (after.slot_at(p) is None && t.slot_at(p) is Some
                && t.displaced_spec(id).contains(t.slot_at(p).unwrap())) by {
                assert(after.slot_at(p) == n.slot_at(p));
                let q = rest(p);
                assert(!l1.owns(q) ==> l.slot_at(q) == l0.slot_at(q) || (l.slot_at(q) is None
                    && l0.slot_at(q) is Some && l0.displaced_spec(*l1).contains(l0.slot_at(q).unwrap())));
                assert(!r1.owns(q) ==> r.slot_at(q) == r0.slot_at(q) || (r.slot_at(q) is None
                    && r0.slot_at(q) is Some && r0.displaced_spec(*r1).contains(r0.slot_at(q).unwrap())));
            }
        },
        (_, IdTree::SubTree(l1, r1)) => {
            lemma_insert_points(ItcIndex::Unknown, *l1, s);
            lemma_insert_points(ItcIndex::Unknown, *r1, s);
            let l = ItcIndex::Unknown.insert_spec(*l1, s);
            let r = ItcIndex::Unknown.insert_spec(*r1, s);
            let n = ItcIndex::SubTree(Box::new(l), Box::new(r));
            lemma_norm(n);
            assert forall|p: Seq<bool>| id.owns(p) implies #[trigger] after.slot_at(p) == Some(
                s,
            ) by {
                assert(after.slot_at(p) == n.slot_at(p));
                assert(l1.owns(rest(p)) ==> l.slot_at(rest(p)) == Some(s));
                assert(r1.owns(rest(p)) ==> r.slot_at(rest(p)) == Some(s));
            }
            assert forall|p: Seq<bool>| !id.owns(p) implies #[trigger] after.slot_at(p)
                == t.slot_at(p) || (after.slot_at(p) is None && t.slot_at(p) is Some
                && t.displaced_spec(id).contains(t.slot_at(p).unwrap())) by {
                assert(after.slot_at(p) == n.slot_at(p));
                let q = rest(p);
                assert(!l1.owns(q) ==> l.slot_at(q) is None);
                assert(!r1.owns(q) ==> r.slot_at(q) is None);
            }
        },
    }
}

/// After a share that is not empty has been given to a slot, the index is in
/// normal form; an index in normal form stays so under every share.
pub proof fn lemma_insert_normalized(t: ItcIndex, id: IdTree, s: usize)
    ensures
        id != IdTree::Zero || t.is_normalized() ==> t.insert_spec(id, s).is_normalized(),
{
    match (t, id) {
        (_, IdTree::Zero) => {},
        (_, IdTree::One) => {},
        (ItcIndex::SubTree(l0, r0), IdTree::SubTree(l1, r1)) => {
            lemma_norm(
                ItcIndex::SubTree(
                    Box::new(l0.insert_spec(*l1, s)),
                    Box::new(r0.insert_spec(*r1, s)),
                ),
            );
        },
        (_, IdTree::SubTree(l1, r1)) => {
            lemma_norm(
                ItcIndex::SubTree(
                    Box::new(ItcIndex::Unknown.insert_spec(*l1, s)),
                    Box::new(ItcIndex::Unknown.insert_spec(*r1, s)),
                ),
            );
        },
    }
}

/// Purging a slot within a share gives an index in normal form in which
/// every point of the share that belonged to the slot belongs to none, and
/// every other point belongs to the slot that it belonged to.
pub proof fn lemma_purge(t: ItcIndex, id: IdTree, d: usize)
    ensures
        t.purge_spec(id, d).is_normalized(),
        forall|p: Seq<bool>| #[trigger]
            t.purge_spec(id, d).slot_at(p) == if id.owns(p) && t.slot_at(p) == Some(d) {
                None
            } else {
                t.slot_at(p)
            },
    decreases t.depth_spec() + id.depth_spec(),
{
    let after = t.purge_spec(id, d);
    lemma_norm(t);
    let (tl, tr) = match t {
        ItcIndex::SubTree(l0, r0) => (*l0, *r0),
        _ => (t, t),
    };
    let (il, ir) = match id {
        IdTree::SubTree(l1, r1) => (*l1, *r1),
        _ => (id, id),
    };
    if id != IdTree::Zero && (t is SubTree || (t == ItcIndex::Leaf(d) && id is SubTree)) {
        lemma_purge(tl, il, d);
        lemma_purge(tr, ir, d);
        let l = tl.purge_spec(il, d);
        let r = tr.purge_spec(ir, d);
        let n = ItcIndex::SubTree(Box::new(l), Box::new(r));
        lemma_norm(n);
        assert(after == n.norm_spec());
        assert forall|p: Seq<bool>| #[trigger]
            after.slot_at(p) == if id.owns(p) && t.slot_at(p) == Some(d) {
                None
            } else {
                t.slot_at(p)
            } by {
            assert(after.slot_at(p) == n.slot_at(p));
            let q = rest(p);
            assert(l.slot_at(q) == if il.owns(q) && tl.slot_at(q) == Some(d) {
                None
            } else {
                tl.slot_at(q)
            });
            assert(r.slot_at(q) == if ir.owns(q) && tr.slot_at(q) == Some(d) {
                None
            } else {
                tr.slot_at(q)
            });
        }
    }
}

/// Every point of the slot that the index gives a share to is a point of the
/// share.
pub proof fn lemma_covers_tracks(t: ItcIndex, id: IdTree, s: usize)
    requires
        t.covers(id, s),
    ensures
        t.tracks(id, s),
{
    lemma_covers_points(t, id, s);
}

/// Giving a share to a slot adds no point to any other slot.
pub proof fn lemma_insert_tracks(t: ItcIndex, id: IdTree, s: usize, idd: IdTree, d: usize)
    requires
        t.tracks(idd, d),
        d != s,
    ensures
        t.insert_spec(id, s).tracks(idd, d),
{
    lemma_insert_points(t, id, s);
    assert forall|p: Seq<bool>| #[trigger] t.insert_spec(id, s).slot_at(p) == Some(
        d,
    ) implies idd.owns(p) by {
        assert(t.slot_at(p) == Some(d));
    }
}

/// Purging adds no slot to the index.
pub proof fn lemma_purge_slots(t: ItcIndex, id: IdTree, d: usize, x: usize)
    requires
        t.purge_spec(id, d).slots().contains(x),
    ensures
        t.slots().contains(x),
{
    lemma_purge(t, id, d);
    lemma_slots_points(t.purge_spec(id, d), x);
    lemma_slots_points(t, x);
    let p = choose|p: Seq<bool>| #[trigger] t.purge_spec(id, d).slot_at(p) == Some(x);
    assert(t.slot_at(p) == Some(x));
}

/// Purging a slot within a share that holds all its points takes the slot
/// out of the index.
pub proof fn lemma_purge_removes(t: ItcIndex, id: IdTree, d: usize)
    requires
        t.tracks(id, d),
    ensures
        !t.purge_spec(id, d).slots().contains(d),
{
    lemma_purge(t, id, d);
    lemma_slots_points(t.purge_spec(id, d), d);
    if t.purge_spec(id, d).slots().contains(d) {
        let p = choose|p: Seq<bool>| #[trigger] t.purge_spec(id, d).slot_at(p) == Some(d);
        assert(t.slot_at(p) == Some(d));
    }
}

/// Purging a slot adds no point to any slot.
pub proof fn lemma_purge_tracks(t: ItcIndex, id: IdTree, d: usize, idx: IdTree, x: usize)
    requires
        t.tracks(idx, x),
    ensures
        t.purge_spec(id, d).tracks(idx, x),
{
    lemma_purge(t, id, d);
    assert forall|p: Seq<bool>| #[trigger] t.purge_spec(id, d).slot_at(p) == Some(
        x,
    ) implies idx.owns(p) by {
        assert(t.slot_at(p) == Some(x));
    }
}

/// Purging a slot keeps what the index gives to every other slot.
pub proof fn lemma_purge_keeps(t: ItcIndex, id: IdTree, d: usize, idt: IdTree, x: usize)
    requires
        t.covers(idt, x),
        idt.is_normalized(),
        x != d,
    ensures
        t.purge_spec(id, d).covers(idt, x),
    decreases t.depth_spec() + id.depth_spec(),
{
    let after = t.purge_spec(id, d);
    if after.slots().contains(x) {
        lemma_purge_slots(t, id, d, x);
    }
    match (t, id) {
        (_, IdTree::Zero) => {
            lemma_norm_covers(t, idt, x);
        },
        (ItcIndex::SubTree(l0, r0), _) => {
            let (il, ir) = match id {
                IdTree::SubTree(l1, r1) => (*l1, *r1),
                _ => (id, id),
            };
            match idt {
                IdTree::SubTree(xl, xr) => {
                    lemma_purge_keeps(*l0, il, d, *xl, x);
                    lemma_purge_keeps(*r0, ir, d, *xr, x);
                    let n = ItcIndex::SubTree(
                        Box::new(l0.purge_spec(il, d)),
                        Box::new(r0.purge_spec(ir, d)),
                    );
                    lemma_norm_covers(n, idt, x);
                },
                _ => {},
            }
        },
        _ => {},
    }
}

/// A share resolves only to a slot that occurs in the index.
pub proof fn lemma_get_slot(t: ItcIndex, id: IdTree, d: usize)
    requires
        !t.slots().contains(d),
    ensures
        t.get_spec(id) != Some(d),
{
    lemma_get_occurs(t, id);
}

/// The index after one slot after the other has been purged, each within
/// its share.
pub open spec fn purge_all(t: ItcIndex, ids: Seq<IdTree>, slots: Seq<usize>) -> ItcIndex
    decreases ids.len(),
{
    if ids.len() == 0 || slots.len() != ids.len() {
        t
    } else {
        purge_all(t, ids.drop_last(), slots.drop_last()).purge_spec(ids.last(), slots.last())
    }
}

/// Displaced slots no longer resolve: once a share has been given to a new
/// slot, and other slots have been purged, each within a share that holds
/// all its points, no share resolves to one of those slots, and the new share
/// still resolves to its slot.
pub proof fn lemma_displaced_not_resolved(
    t: ItcIndex,
    id: IdTree,
    s: usize,
    ids: Seq<IdTree>,
    slots: Seq<usize>,
    any: IdTree,
)
    requires
        id.is_normalized(),
        id != IdTree::Zero,
        !t.slots().contains(s),
        ids.len() == slots.len(),
        forall|j: int|
            0 <= j < ids.len() ==> t.tracks(ids[j], #[trigger] slots[j]) && slots[j] != s,
    ensures
        purge_all(t.insert_spec(id, s), ids, slots).covers(id, s),
        purge_all(t.insert_spec(id, s), ids, slots).get_spec(id) == Some(s),
        forall|j: int|
            0 <= j < ids.len() ==> !purge_all(t.insert_spec(id, s), ids, slots).slots().contains(
                #[trigger] slots[j],
            ) && purge_all(t.insert_spec(id, s), ids, slots).get_spec(any) != Some(slots[j]),
        forall|j: int|
            0 <= j < ids.len() ==> purge_all(t.insert_spec(id, s), ids, slots).tracks(
                ids[j],
                #[trigger] slots[j],
            ),
    decreases ids.len(),
{
    let first = t.insert_spec(id, s);
    if ids.len() == 0 {
        lemma_insert_covers(t, id, s);
        lemma_covers_get(first, id, s);
    } else {
        let n = ids.len() - 1;
        let before_ids = ids.drop_last();
        let before_slots = slots.drop_last();
        assert forall|j: int| 0 <= j < before_ids.len() implies t.tracks(
            before_ids[j],
            #[trigger] before_slots[j],
        ) && before_slots[j] != s by {
            assert(before_ids[j] == ids[j] && before_slots[j] == slots[j]);
            assert(t.tracks(ids[j], slots[j]));
        }
        lemma_displaced_not_resolved(t, id, s, before_ids, before_slots, any);
        let mid = purge_all(first, before_ids, before_slots);
        let last = mid.purge_spec(ids[n], slots[n]);
        assert(purge_all(first, ids, slots) == last);
        assert(t.tracks(ids[n], slots[n]));
        lemma_insert_tracks(t, id, s, ids[n], slots[n]);
        lemma_purge_keeps(mid, ids[n], slots[n], id, s);
        lemma_covers_get(last, id, s);
        assert forall|j: int| 0 <= j < ids.len() implies last.tracks(ids[j], #[trigger] slots[j])
            && !last.slots().contains(slots[j]) && last.get_spec(any) != Some(slots[j]) by {
            if j < n {
                assert(before_ids[j] == ids[j] && before_slots[j] == slots[j]);
                assert(mid.tracks(before_ids[j], before_slots[j]));
                assert(!mid.slots().contains(before_slots[j]));
                if last.slots().contains(slots[j]) {
                    lemma_purge_slots(mid, ids[n], slots[n], slots[j]);
                }
            } else {
                lemma_tracks_after_purges(first, before_ids, before_slots, ids[n], slots[n]);
                lemma_purge_removes(mid, ids[n], slots[n]);
            }
            lemma_purge_tracks(mid, ids[n], slots[n], ids[j], slots[j]);
            lemma_get_slot(last, any, slots[j]);
        }
    }
}

/// Purging slots adds no point to any slot.
pub proof fn lemma_tracks_after_purges(
    t: ItcIndex,
    ids: Seq<IdTree>,
    slots: Seq<usize>,
    idx: IdTree,
    x: usize,
)
    requires
        t.tracks(idx, x),
    ensures
        purge_all(t, ids, slots).tracks(idx, x),
    decreases ids.len(),
{
    if ids.len() > 0 && slots.len() == ids.len() {
        lemma_tracks_after_purges(t, ids.drop_last(), slots.drop_last(), idx, x);
        lemma_purge_tracks(
            purge_all(t, ids.drop_last(), slots.drop_last()),
            ids.last(),
            slots.last(),
            idx,
            x,
        );
    }
}

/// A node in normal form gives two points different slots, or a slot to one
/// and none to the other.
pub proof fn lemma_index_node_points(t: ItcIndex) -> (pq: (Seq<bool>, Seq<bool>))
    requires
        t.is_normalized(),
        t is SubTree,
    ensures
        t.slot_at(pq.0) != t.slot_at(pq.1),
    decreases t,
{
    reveal_with_fuel(ItcIndex::slot_at, 2);
    let l = *t->SubTree_0;
    let r = *t->SubTree_1;
    let e = Seq::<bool>::empty();
    lemma_within(false, e);
    lemma_within(true, e);
    let mut p = within(false, e);
    let mut q = within(true, e);
    if l is SubTree {
        let (lp, lq) = lemma_index_node_points(l);
        lemma_within(false, lp);
        lemma_within(false, lq);
        p = within(false, lp);
        q = within(false, lq);
    } else if r is SubTree {
        let (rp, rq) = lemma_index_node_points(r);
        lemma_within(true, rp);
        lemma_within(true, rq);
        p = within(true, rp);
        q = within(true, rq);
    }
    (p, q)
}

/// The normal form is unique: two indexes in normal form that give every
/// point the same slot are the same index.
pub proof fn lemma_normal_form_unique(a: ItcIndex, b: ItcIndex)
    requires
        a.is_normalized(),
        b.is_normalized(),
        forall|p: Seq<bool>| #[trigger] a.slot_at(p) == b.slot_at(p),
    ensures
        a == b,
    decreases a,
{
    let e = Seq::<bool>::empty();
    assert(a.slot_at(e) == b.slot_at(e));
    if a is SubTree {
        let (p, q) = lemma_index_node_points(a);
        assert(a.slot_at(p) == b.slot_at(p));
        assert(a.slot_at(q) == b.slot_at(q));
    }
    if b is SubTree {
        let (p, q) = lemma_index_node_points(b);
        assert(a.slot_at(p) == b.slot_at(p));
        assert(a.slot_at(q) == b.slot_at(q));
    }
    if a is SubTree && b is SubTree {
        assert forall|p: Seq<bool>| #[trigger]
            a->SubTree_0.slot_at(p) == b->SubTree_0.slot_at(p) by {
            lemma_within(false, p);
            assert(a.slot_at(within(false, p)) == b.slot_at(within(false, p)));
        }
        assert forall|p: Seq<bool>| #[trigger]
            a->SubTree_1.slot_at(p) == b->SubTree_1.slot_at(p) by {
            lemma_within(true, p);
            assert(a.slot_at(within(true, p)) == b.slot_at(within(true, p)));
        }
        lemma_normal_form_unique(*a->SubTree_0, *b->SubTree_0);
        lemma_normal_form_unique(*a->SubTree_1, *b->SubTree_1);
    }
}

} // verus!
