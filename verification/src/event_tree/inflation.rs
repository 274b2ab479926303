//! What holds of the two inflations of an event tree, `fill` and `grow`, and
//! of `event`, which is made of them.
use vstd::prelude::*;
use crate::event_tree::{EventTree, larger, smaller};
use crate::event_tree::laws::{lemma_norm, lemma_normal_form_unique, lemma_value_bounds};
use crate::id_tree::IdTree;
use crate::point::{goes_right, rest, within, lemma_within};

verus! {

/// A node whose halves record at least what those of another node with the
/// same root record, and have the same largest count between them: its normal
/// form records at least what the other node records, and has the same
/// largest count.
proof fn lemma_fill_step(n: u64, el: EventTree, er: EventTree, a: EventTree, b: EventTree)
    requires
        n + larger(el.max_spec(), er.max_spec()) <= u64::MAX,
        el.leq(a),
        er.leq(b),
        larger(a.max_spec(), b.max_spec()) == larger(el.max_spec(), er.max_spec()),
    ensures
        ({
            let e = EventTree::SubTree(n, Box::new(el), Box::new(er));
            let f = EventTree::SubTree(n, Box::new(a), Box::new(b)).norm_spec();
            &&& f.is_normalized()
            &&& f.max_spec() == e.max_spec()
            &&& e.leq(f)
        }),
{
    let e = EventTree::SubTree(n, Box::new(el), Box::new(er));
    let m = EventTree::SubTree(n, Box::new(a), Box::new(b));
    lemma_norm(m);
    assert forall|p: Seq<bool>| #[trigger] e.value_at(p) <= m.norm_spec().value_at(p) by {
        assert(m.norm_spec().value_at(p) == m.value_at(p));
        assert(el.value_at(rest(p)) <= a.value_at(rest(p)));
        assert(er.value_at(rest(p)) <= b.value_at(rest(p)));
    }
}

/// A leaf of at least the largest count of a tree records at least what the
/// tree records.
proof fn lemma_leaf_above(t: EventTree, v: u64)
    requires
        t.max_spec() <= v,
    ensures
        t.leq(EventTree::Leaf(v)),
{
    assert forall|p: Seq<bool>| #[trigger] t.value_at(p) <= EventTree::Leaf(v).value_at(p) by {
        lemma_value_bounds(t, p);
    }
}

/// Filling keeps the largest count, lowers the count at no point, and gives a
/// tree in normal form, unless the share is empty and the tree is not in
/// normal form itself.
pub proof fn lemma_fill(e: EventTree, id: IdTree)
    requires
        e.wf(),
    ensures
        e.fill_spec(id).max_spec() == e.max_spec(),
        e.leq(e.fill_spec(id)),
        id != IdTree::Zero || e.is_normalized() ==> e.fill_spec(id).is_normalized(),
    decreases e,
{
    match (id, e) {
        (IdTree::Zero, _) => {},
        (IdTree::One, _) => {
            lemma_leaf_above(e, e.max_spec() as u64);
        },
        (_, EventTree::Leaf(_)) => {},
        (IdTree::SubTree(il, ir), EventTree::SubTree(n, el, er)) => {
            lemma_fill(*el, *il);
            lemma_fill(*er, *ir);
            let e = Seq::<bool>::empty();
            if *il == IdTree::One {
                let er2 = er.fill_spec(*ir);
                lemma_value_bounds(er2, e);
                let v = larger(el.max_spec(), er2.root()) as u64;
                lemma_leaf_above(*el, v);
                lemma_fill_step(n, *el, *er, EventTree::Leaf(v), er2);
            } else if *ir == IdTree::One {
                let el2 = el.fill_spec(*il);
                lemma_value_bounds(el2, e);
                let v = larger(er.max_spec(), el2.root()) as u64;
                lemma_leaf_above(*er, v);
                lemma_fill_step(n, *el, *er, el2, EventTree::Leaf(v));
            } else {
                lemma_fill_step(n, *el, *er, el.fill_spec(*il), er.fill_spec(*ir));
            }
        },
    }
}

/// What the halves of a node need for the additions that filling makes.
pub proof fn lemma_fill_halves(e: EventTree, id: IdTree)
    requires
        e.wf(),
        e is SubTree,
        id is SubTree,
    ensures
        e.left().wf(),
        e.right().wf(),
        e.root() + larger(e.left().max_spec(), e.right().max_spec()) <= u64::MAX,
        e.left().fill_spec(*id->SubTree_0).root() <= e.left().max_spec(),
        e.right().fill_spec(*id->SubTree_1).root() <= e.right().max_spec(),
{
    let s = Seq::<bool>::empty();
    lemma_fill(e.left(), *id->SubTree_0);
    lemma_fill(e.right(), *id->SubTree_1);
    lemma_value_bounds(e.left().fill_spec(*id->SubTree_0), s);
    lemma_value_bounds(e.right().fill_spec(*id->SubTree_1), s);
}

/// A leaf grows under every share in normal form that is not empty.
pub proof fn lemma_leaf_growable(v: u64, id: IdTree)
    requires
        id.is_normalized(),
        id != IdTree::Zero,
    ensures
        EventTree::Leaf(v).growable(id),
    decreases id,
{
    reveal_with_fuel(EventTree::growable, 3);
    match id {
        IdTree::SubTree(il, ir) => {
            if *il != IdTree::Zero {
                lemma_leaf_growable(0, *il);
            }
            if *ir != IdTree::Zero {
                lemma_leaf_growable(0, *ir);
            }
        },
        _ => {},
    }
}

/// The cost of growing stays within `grow_cost_bound`; growing costs nothing
/// only under a share that is owned whole.
pub proof fn lemma_grow_cost(e: EventTree, id: IdTree, n: nat)
    requires
        e.growable(id),
    ensures
        e.grow_spec(id, n).1 <= EventTree::grow_cost_bound(id, n),
        e is SubTree ==> e.grow_spec(id, n).1 + n <= EventTree::grow_cost_bound(id, n),
        e.grow_spec(id, n).1 == 0 <==> id == IdTree::One,
    decreases id, (if e is Leaf { 1nat } else { 0nat }),
{
    match (id, e) {
        (IdTree::SubTree(_, _), EventTree::Leaf(v)) => {
            let node = EventTree::SubTree(
                v,
                Box::new(EventTree::Leaf(0)),
                Box::new(EventTree::Leaf(0)),
            );
            lemma_grow_cost(node, id, n);
        },
        (IdTree::SubTree(il, ir), EventTree::SubTree(_, el, er)) => {
            if *il != IdTree::Zero {
                lemma_grow_cost(*el, *il, n);
            }
            if *ir != IdTree::Zero {
                lemma_grow_cost(*er, *ir, n);
            }
        },
        _ => {},
    }
}

/// The bound on the cost of growing, in closed form.
pub proof fn lemma_grow_cost_bound(id: IdTree, n: nat)
    ensures
        EventTree::grow_cost_bound(id, n) <= (n + 1) * (id.depth_spec() - 1),
    decreases id,
{
    match id {
        IdTree::SubTree(l, r) => {
            lemma_grow_cost_bound(*l, n);
            lemma_grow_cost_bound(*r, n);
            let dl = l.depth_spec() as int;
            let dr = r.depth_spec() as int;
            let d = id.depth_spec() as int;
            assert((n + 1) * (dl - 1) + (n + 1) <= (n + 1) * (d - 1)) by (nonlinear_arith)
                requires
                    dl <= d - 1,
            ;
            assert((n + 1) * (dr - 1) + (n + 1) <= (n + 1) * (d - 1)) by (nonlinear_arith)
                requires
                    dr <= d - 1,
            ;
        },
        _ => {
            assert((n + 1) * (1 - 1) == 0) by (nonlinear_arith);
        },
    }
}

/// Growing lowers the count at no point, raises it at some point of the
/// share, and raises the largest count by at most one. The root stays, except
/// that of a leaf that is owned whole, and only such a leaf stays a leaf.
pub proof fn lemma_grow(e: EventTree, id: IdTree, n: nat) -> (p: Seq<bool>)
    requires
        e.growable(id),
        e.max_spec() < u64::MAX,
    ensures
        e.leq(e.grow_spec(id, n).0),
        e.grow_spec(id, n).0.max_spec() <= e.max_spec() + 1,
        id.owns(p),
        e.grow_spec(id, n).0.value_at(p) > e.value_at(p),
        id == IdTree::One ==> e is Leaf,
        e.grow_spec(id, n).0 is Leaf <==> id == IdTree::One,
        id != IdTree::One ==> e.grow_spec(id, n).0.root() == e.root(),
        id == IdTree::One ==> e.grow_spec(id, n).0.root() == e.root() + 1,
    decreases id, (if e is Leaf { 1nat } else { 0nat }),
{
    let g = e.grow_spec(id, n).0;
    match (id, e) {
        (IdTree::One, EventTree::Leaf(v)) => Seq::empty(),
        (IdTree::SubTree(_, _), EventTree::Leaf(v)) => {
            let node = EventTree::SubTree(
                v,
                Box::new(EventTree::Leaf(0)),
                Box::new(EventTree::Leaf(0)),
            );
            assert(node.max_spec() == v) by {
                reveal_with_fuel(EventTree::max_spec, 2);
            }
            let p = lemma_grow(node, id, n);
            assert forall|q: Seq<bool>| #[trigger] e.value_at(q) == node.value_at(q) by {
                reveal_with_fuel(EventTree::value_at, 2);
            }
            assert forall|q: Seq<bool>| #[trigger] e.value_at(q) <= g.value_at(q) by {
                assert(node.value_at(q) <= g.value_at(q));
            }
            p
        },
        (IdTree::SubTree(il, ir), EventTree::SubTree(v, el, er)) => {
            let left = *il != IdTree::Zero && (*ir == IdTree::Zero || el.grow_spec(*il, n).1
                < er.grow_spec(*ir, n).1);
            if left {
                let q = lemma_grow(*el, *il, n);
                let gl = el.grow_spec(*il, n).0;
                lemma_within(false, q);
                assert forall|s: Seq<bool>| #[trigger] e.value_at(s) <= g.value_at(s) by {
                    assert(el.value_at(rest(s)) <= gl.value_at(rest(s)));
                }
                within(false, q)
            } else {
                let q = lemma_grow(*er, *ir, n);
                let gr = er.grow_spec(*ir, n).0;
                lemma_within(true, q);
                assert forall|s: Seq<bool>| #[trigger] e.value_at(s) <= g.value_at(s) by {
                    assert(er.value_at(rest(s)) <= gr.value_at(rest(s)));
                }
                within(true, q)
            }
        },
        _ => Seq::empty(),
    }
}

/// Normalising adds no level to a tree.
pub proof fn lemma_norm_depth(t: EventTree)
    ensures
        t.norm_spec().depth_spec() <= t.depth_spec(),
    decreases t,
{
    match t {
        EventTree::Leaf(_) => {},
        EventTree::SubTree(v, l, r) => {
            lemma_norm_depth(*l);
            lemma_norm_depth(*r);
            let a = l.norm_spec();
            let b = r.norm_spec();
            let m = smaller(a.root(), b.root()) as u64;
            assert(a.sink_spec(m).depth_spec() == a.depth_spec());
            assert(b.sink_spec(m).depth_spec() == b.depth_spec());
            assert(t.norm_spec() == EventTree::settle(v, a, b));
        },
    }
}

/// Filling adds no level to a tree.
pub proof fn lemma_fill_depth(e: EventTree, id: IdTree)
    ensures
        e.fill_spec(id).depth_spec() <= e.depth_spec(),
    decreases e,
{
    match (id, e) {
        (IdTree::SubTree(il, ir), EventTree::SubTree(n, el, er)) => {
            lemma_fill_depth(*el, *il);
            lemma_fill_depth(*er, *ir);
            let el2 = el.fill_spec(*il);
            let er2 = er.fill_spec(*ir);
            let a = if *il == IdTree::One {
                EventTree::Leaf(larger(el.max_spec(), er2.root()) as u64)
            } else {
                el2
            };
            let b = if *il != IdTree::One && *ir == IdTree::One {
                EventTree::Leaf(larger(er.max_spec(), el2.root()) as u64)
            } else {
                er2
            };
            let m = EventTree::SubTree(n, Box::new(a), Box::new(b));
            lemma_norm_depth(m);
            assert(e.fill_spec(id) == m.norm_spec());
            assert(a.depth_spec() <= el.depth_spec());
            assert(b.depth_spec() <= er.depth_spec());
        },
        _ => {},
    }
}

/// Growing raises the count at no point by more than one.
pub proof fn lemma_grow_step(e: EventTree, id: IdTree, n: nat, p: Seq<bool>)
    requires
        e.max_spec() < u64::MAX,
    ensures
        e.grow_spec(id, n).0.value_at(p) <= e.value_at(p) + 1,
    decreases id, (if e is Leaf { 1nat } else { 0nat }),
{
    match (id, e) {
        (IdTree::SubTree(_, _), EventTree::Leaf(v)) => {
            let node = EventTree::SubTree(
                v,
                Box::new(EventTree::Leaf(0)),
                Box::new(EventTree::Leaf(0)),
            );
            assert(node.max_spec() == v && node.value_at(p) == e.value_at(p)) by {
                reveal_with_fuel(EventTree::max_spec, 2);
                reveal_with_fuel(EventTree::value_at, 2);
            }
            lemma_grow_step(node, id, n, p);
        },
        (IdTree::SubTree(il, ir), EventTree::SubTree(v, el, er)) => {
            lemma_grow_step(*el, *il, n, rest(p));
            lemma_grow_step(*er, *ir, n, rest(p));
        },
        _ => {},
    }
}

/// Growing changes the count only at points of the share.
pub proof fn lemma_grow_outside(e: EventTree, id: IdTree, n: nat, p: Seq<bool>)
    requires
        !id.owns(p),
    ensures
        e.grow_spec(id, n).0.value_at(p) == e.value_at(p),
    decreases id, (if e is Leaf { 1nat } else { 0nat }),
{
    match (id, e) {
        (IdTree::SubTree(_, _), EventTree::Leaf(v)) => {
            let node = EventTree::SubTree(
                v,
                Box::new(EventTree::Leaf(0)),
                Box::new(EventTree::Leaf(0)),
            );
            lemma_grow_outside(node, id, n, p);
            assert(node.value_at(p) == e.value_at(p)) by {
                reveal_with_fuel(EventTree::value_at, 2);
            }
        },
        (IdTree::SubTree(il, ir), EventTree::SubTree(v, el, er)) => {
            if goes_right(p) {
                lemma_grow_outside(*er, *ir, n, rest(p));
            } else {
                lemma_grow_outside(*el, *il, n, rest(p));
            }
        },
        _ => {},
    }
}

/// A node that settling leaves with its root has halves that settling did not
/// change.
proof fn lemma_settle_same(n: u64, a: EventTree, b: EventTree, el: EventTree, er: EventTree)
    requires
        n + larger(a.max_spec(), b.max_spec()) <= u64::MAX,
        EventTree::settle(n, a, b) == EventTree::SubTree(n, Box::new(el), Box::new(er)),
    ensures
        a == el,
        b == er,
{
    let e = Seq::<bool>::empty();
    lemma_value_bounds(a, e);
    lemma_value_bounds(b, e);
    let m = smaller(a.root(), b.root()) as u64;
    assert(m == 0);
    assert(a.sink_spec(0) == a);
    assert(b.sink_spec(0) == b);
}

/// What a share that is not empty leaves unchanged when a node is filled
/// under it: each half that the share owns part of is unchanged by filling
/// under its half of the share; a half that the share owns whole is a leaf,
/// of at least the count at the other half's root.
pub proof fn lemma_fill_fixed_node(e: EventTree, id: IdTree)
    requires
        e.wf(),
        e is SubTree,
        id is SubTree,
        id.is_normalized(),
        e.fill_spec(id) == e,
    ensures
        e.is_normalized(),
        *id->SubTree_0 != IdTree::Zero ==> e.left().fill_spec(*id->SubTree_0) == e.left(),
        *id->SubTree_1 != IdTree::Zero ==> e.right().fill_spec(*id->SubTree_1) == e.right(),
        *id->SubTree_0 == IdTree::One ==> e.left() is Leaf && e.left().root() >= e.right().root(),
        *id->SubTree_1 == IdTree::One ==> e.right() is Leaf && e.right().root()
            >= e.left().root(),
{
    lemma_fill(e, id);
    let il = *id->SubTree_0;
    let ir = *id->SubTree_1;
    let n = e->SubTree_0;
    let el = e.left();
    let er = e.right();
    lemma_fill(el, il);
    lemma_fill(er, ir);
    lemma_fill_halves(e, id);
    let el2 = el.fill_spec(il);
    let er2 = er.fill_spec(ir);
    let s = Seq::<bool>::empty();
    lemma_value_bounds(el2, s);
    lemma_value_bounds(er2, s);
    lemma_norm(el2);
    lemma_norm(er2);
    lemma_norm(el);
    lemma_norm(er);
    if il == IdTree::One {
        let a = EventTree::Leaf(larger(el.max_spec(), er2.root()) as u64);
        lemma_settle_same(n, a.norm_spec(), er2.norm_spec(), el, er);
    } else if ir == IdTree::One {
        let b = EventTree::Leaf(larger(er.max_spec(), el2.root()) as u64);
        lemma_settle_same(n, el2.norm_spec(), b.norm_spec(), el, er);
    } else {
        lemma_settle_same(n, el2.norm_spec(), er2.norm_spec(), el, er);
    }
}

/// A tree that filling under a share leaves unchanged grows under that share.
pub proof fn lemma_fill_fixed_growable(e: EventTree, id: IdTree)
    requires
        e.wf(),
        id.is_normalized(),
        id != IdTree::Zero,
        e.fill_spec(id) == e,
    ensures
        e.growable(id),
    decreases e,
{
    match (id, e) {
        (IdTree::SubTree(_, _), EventTree::Leaf(v)) => {
            lemma_leaf_growable(v, id);
        },
        (IdTree::SubTree(il, ir), EventTree::SubTree(_, el, er)) => {
            lemma_fill_fixed_node(e, id);
            lemma_fill_halves(e, id);
            if *il != IdTree::Zero {
                lemma_fill_fixed_growable(*el, *il);
            }
            if *ir != IdTree::Zero {
                lemma_fill_fixed_growable(*er, *ir);
            }
        },
        _ => {},
    }
}

/// A tree that filling under a share leaves unchanged is in normal form
/// after it has grown under that share.
pub proof fn lemma_grow_normalized(e: EventTree, id: IdTree, n: nat)
    requires
        e.max_spec() < u64::MAX,
        id.is_normalized(),
        id != IdTree::Zero,
        e.fill_spec(id) == e,
    ensures
        e.grow_spec(id, n).0.is_normalized(),
    decreases id, (if e is Leaf { 1nat } else { 0nat }),
{
    lemma_fill_fixed_growable(e, id);
    match (id, e) {
        (IdTree::SubTree(il, ir), EventTree::Leaf(v)) => {
            lemma_leaf_normalized(v, id, n);
        },
        (IdTree::SubTree(il, ir), EventTree::SubTree(v, el, er)) => {
            lemma_fill_fixed_node(e, id);
            lemma_fill_halves(e, id);
            if *il != IdTree::Zero {
                lemma_grow_normalized(*el, *il, n);
                lemma_grow_cost(*el, *il, n);
                let p = lemma_grow(*el, *il, n);
            }
            if *ir != IdTree::Zero {
                lemma_grow_normalized(*er, *ir, n);
                lemma_grow_cost(*er, *ir, n);
                let p = lemma_grow(*er, *ir, n);
            }
        },
        _ => {},
    }
}

/// A leaf is in normal form after it has grown under a share in normal form
/// that is not empty.
proof fn lemma_leaf_normalized(v: u64, id: IdTree, n: nat)
    requires
        v < u64::MAX,
        id.is_normalized(),
        id != IdTree::Zero,
    ensures
        EventTree::Leaf(v).grow_spec(id, n).0.is_normalized(),
    decreases id,
{
    lemma_leaf_growable(v, id);
    match id {
        IdTree::SubTree(il, ir) => {
            reveal_with_fuel(EventTree::grow_spec, 2);
            reveal_with_fuel(EventTree::growable, 2);
            reveal_with_fuel(EventTree::is_normalized, 2);
            if *il != IdTree::Zero {
                lemma_leaf_growable(0, *il);
                lemma_leaf_normalized(0, *il, n);
                lemma_grow_cost(EventTree::Leaf(0), *il, n);
                let p = lemma_grow(EventTree::Leaf(0), *il, n);
            }
            if *ir != IdTree::Zero {
                lemma_leaf_growable(0, *ir);
                lemma_leaf_normalized(0, *ir, n);
                lemma_grow_cost(EventTree::Leaf(0), *ir, n);
                let p = lemma_grow(EventTree::Leaf(0), *ir, n);
            }
        },
        _ => {},
    }
}

/// What `event` needs of its arguments for the additions that it makes.
pub proof fn lemma_event_fits(e: EventTree, id: IdTree)
    requires
        (e.depth_spec() + 2) * id.depth_spec() <= u64::MAX,
    ensures
        e.depth_spec() + 1 <= u64::MAX,
        EventTree::grow_cost_bound(id, e.depth_spec() + 1) <= u64::MAX,
{
    let d = e.depth_spec() as int;
    let k = id.depth_spec() as int;
    assert(k >= 1) by {
        reveal_with_fuel(IdTree::depth_spec, 1);
    }
    lemma_grow_cost_bound(id, e.depth_spec() + 1);
    assert(d + 2 <= (d + 2) * k && (d + 2) * (k - 1) <= (d + 2) * k) by (nonlinear_arith)
        requires
            k >= 1,
            d >= 0,
    ;
}

/// An event gives a tree in normal form that records at every point at least
/// what the tree recorded, and at most one more than its largest count.
/// Where the tree was in normal form, the event raised the count at some
/// point of the share.
pub proof fn lemma_event(e: EventTree, id: IdTree)
    requires
        id.is_normalized(),
        id != IdTree::Zero,
        e.max_spec() < u64::MAX,
    ensures
        e.fill_spec(id) == e ==> e.growable(id),
        e.event_spec(id).is_normalized(),
        e.event_spec(id).max_spec() <= e.max_spec() + 1,
        e.leq(e.event_spec(id)),
        e.is_normalized() ==> exists|p: Seq<bool>|
            id.owns(p) && #[trigger] e.event_spec(id).value_at(p) > e.value_at(p),
        forall|p: Seq<bool>| !id.owns(p) ==> #[trigger] e.event_spec(id).value_at(p) == e.value_at(p),
{
    let n = e.depth_spec() + 1;
    lemma_fill(e, id);
    assert forall|p: Seq<bool>| !id.owns(p) implies #[trigger] e.event_spec(id).value_at(p)
        == e.value_at(p) by {
        lemma_fill_outside(e, id, p);
        lemma_grow_outside(e, id, n, p);
    }
    if e.fill_spec(id) == e {
        lemma_fill_fixed_growable(e, id);
        lemma_grow_normalized(e, id, n);
        let p = lemma_grow(e, id, n);
        assert(id.owns(p) && e.event_spec(id).value_at(p) > e.value_at(p));
    } else if e.is_normalized() {
        let f = e.fill_spec(id);
        lemma_fill_rises_in_share(e, id);
    }
}

/// Filling changes the count only at points of the share.
pub proof fn lemma_fill_outside(e: EventTree, id: IdTree, p: Seq<bool>)
    requires
        e.wf(),
        !id.owns(p),
    ensures
        e.fill_spec(id).value_at(p) == e.value_at(p),
    decreases e,
{
    match (id, e) {
        (IdTree::SubTree(il, ir), EventTree::SubTree(n, el, er)) => {
            lemma_fill(*el, *il);
            lemma_fill(*er, *ir);
            lemma_fill_halves(e, id);
            let q = rest(p);
            let el2 = el.fill_spec(*il);
            let er2 = er.fill_spec(*ir);
            let a = if *il == IdTree::One {
                EventTree::Leaf(larger(el.max_spec(), er2.root()) as u64)
            } else {
                el2
            };
            let b = if *il != IdTree::One && *ir == IdTree::One {
                EventTree::Leaf(larger(er.max_spec(), el2.root()) as u64)
            } else {
                er2
            };
            let m = EventTree::SubTree(n, Box::new(a), Box::new(b));
            assert(m.wf()) by {
                reveal_with_fuel(EventTree::max_spec, 2);
            }
            lemma_norm(m);
            assert(e.fill_spec(id) == m.norm_spec());
            assert(m.norm_spec().value_at(p) == m.value_at(p));
            if goes_right(p) {
                lemma_fill_outside(*er, *ir, q);
                assert(!ir.owns(q));
                assert(*ir != IdTree::One);
                assert(b == er2);
                assert(m.value_at(p) == n + b.value_at(q));
            } else {
                lemma_fill_outside(*el, *il, q);
                assert(!il.owns(q));
                assert(*il != IdTree::One);
                assert(a == el2);
                assert(m.value_at(p) == n + a.value_at(q));
            }
        },
        _ => {},
    }
}

/// Where filling changes a tree in normal form, it raises the count at some
/// point of the share.
pub proof fn lemma_fill_rises_in_share(e: EventTree, id: IdTree)
    requires
        e.wf(),
        e.is_normalized(),
        e.fill_spec(id) != e,
    ensures
        exists|p: Seq<bool>| id.owns(p) && #[trigger] e.fill_spec(id).value_at(p) > e.value_at(p),
{
    let f = e.fill_spec(id);
    lemma_fill(e, id);
    if f.same_values(e) {
        lemma_normal_form_unique(f, e);
    }
    let p = choose|p: Seq<bool>| #[trigger] f.value_at(p) != e.value_at(p);
    assert(e.value_at(p) <= f.value_at(p));
    if !id.owns(p) {
        lemma_fill_outside(e, id, p);
    }
    assert(id.owns(p) && f.value_at(p) > e.value_at(p));
}

} // verus!
