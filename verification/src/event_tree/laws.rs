//! What holds of event trees: the counts that each operation's result records,
//! normal forms, and the laws of the algebra.
use vstd::prelude::*;
use crate::event_tree::{EventTree, larger, smaller};
use crate::id_tree::IdTree;
use crate::id_tree::laws::lemma_node_points;
use crate::point::{goes_right, rest, within, lemma_within};

verus! {

/// The count at a point lies between the root and the largest count.
pub proof fn lemma_value_bounds(t: EventTree, p: Seq<bool>)
    ensures
        t.root() <= t.value_at(p) <= t.max_spec(),
    decreases t,
{
    match t {
        EventTree::Leaf(_) => {},
        EventTree::SubTree(_, l, r) => {
            lemma_value_bounds(*l, rest(p));
            lemma_value_bounds(*r, rest(p));
        },
    }
}

/// A tree read as a node: the count at a point is the root plus the count in
/// the half that the point lies in; the largest count and the depth follow
/// the halves.
pub proof fn lemma_halves(t: EventTree)
    ensures
        forall|p: Seq<bool>|
            #[trigger] t.value_at(p) == t.root() + if goes_right(p) {
                t.right().value_at(rest(p))
            } else {
                t.left().value_at(rest(p))
            },
        t.max_spec() == t.root() + larger(t.left().max_spec(), t.right().max_spec()),
        t is SubTree ==> t.left().depth_spec() < t.depth_spec() && t.right().depth_spec()
            < t.depth_spec(),
        t is Leaf ==> t.left().depth_spec() == t.depth_spec() && t.right().depth_spec()
            == t.depth_spec(),
        t.is_normalized() ==> t.left().is_normalized() && t.right().is_normalized(),
{
    reveal_with_fuel(EventTree::value_at, 2);
    reveal_with_fuel(EventTree::max_spec, 2);
    reveal_with_fuel(EventTree::depth_spec, 2);
    reveal_with_fuel(EventTree::is_normalized, 2);
}

/// The halves of a node are less deep than the node, those of a leaf as deep
/// as the leaf, and lifting changes no depth.
pub proof fn lemma_halves_depth(t: EventTree)
    ensures
        t is SubTree ==> t.left().depth_spec() < t.depth_spec() && t.right().depth_spec()
            < t.depth_spec(),
        t is Leaf ==> t.left().depth_spec() == t.depth_spec() && t.right().depth_spec()
            == t.depth_spec(),
        forall|m: u64| (#[trigger] t.left().lift_spec(m)).depth_spec() == t.left().depth_spec(),
        forall|m: u64| (#[trigger] t.right().lift_spec(m)).depth_spec() == t.right().depth_spec(),
{
    reveal_with_fuel(EventTree::depth_spec, 2);
}

/// Lifting adds to the count at every point and changes nothing else.
pub proof fn lemma_lift(t: EventTree, m: u64)
    requires
        t.root() + m <= u64::MAX,
    ensures
        forall|p: Seq<bool>| #[trigger] t.lift_spec(m).value_at(p) == t.value_at(p) + m,
        t.lift_spec(m).max_spec() == t.max_spec() + m,
        t.lift_spec(m).root() == t.root() + m,
        t.lift_spec(m).depth_spec() == t.depth_spec(),
        t.lift_spec(m).is_normalized() == t.is_normalized(),
        t.lift_spec(m).left() == t.left(),
        t.lift_spec(m).right() == t.right(),
        t.lift_spec(m) is Leaf <==> t is Leaf,
{
}

/// Sinking takes from the count at every point and changes nothing else.
pub proof fn lemma_sink(t: EventTree, m: u64)
    requires
        m <= t.root(),
    ensures
        forall|p: Seq<bool>| #[trigger] t.sink_spec(m).value_at(p) == t.value_at(p) - m,
        t.sink_spec(m).max_spec() == t.max_spec() - m,
        t.sink_spec(m).root() == t.root() - m,
        t.sink_spec(m).depth_spec() == t.depth_spec(),
        t.sink_spec(m).is_normalized() == t.is_normalized(),
        t.sink_spec(m) is Leaf <==> t is Leaf,
{
}

/// A tree in normal form records the count at its root at some point.
pub proof fn lemma_low_point(t: EventTree) -> (p: Seq<bool>)
    requires
        t.is_normalized(),
    ensures
        t.value_at(p) == t.root(),
    decreases t,
{
    match t {
        EventTree::Leaf(_) => Seq::empty(),
        EventTree::SubTree(_, l, r) => {
            if l.root() == 0 {
                let q = lemma_low_point(*l);
                lemma_within(false, q);
                within(false, q)
            } else {
                let q = lemma_low_point(*r);
                lemma_within(true, q);
                within(true, q)
            }
        },
    }
}

/// A node in normal form records more than the count at its root at some
/// point.
pub proof fn lemma_high_point(t: EventTree) -> (p: Seq<bool>)
    requires
        t.is_normalized(),
        t is SubTree,
    ensures
        t.value_at(p) > t.root(),
    decreases t,
{
    let l = t.left();
    let r = t.right();
    lemma_halves(t);
    if l is SubTree {
        let q = lemma_high_point(l);
        lemma_within(false, q);
        within(false, q)
    } else if r is SubTree {
        let q = lemma_high_point(r);
        lemma_within(true, q);
        within(true, q)
    } else {
        let e = Seq::<bool>::empty();
        lemma_within(l.root() == 0, e);
        within(l.root() == 0, e)
    }
}

/// Two trees that record the same counts: the halves of the one, lifted by
/// its root, record the same counts as those of the other, lifted by its root.
pub proof fn lemma_halves_pointwise(a: EventTree, b: EventTree, p: Seq<bool>, right: bool)
    ensures
        a.value_at(within(right, p)) == a.root() + if right {
            a.right().value_at(p)
        } else {
            a.left().value_at(p)
        },
        b.value_at(within(right, p)) == b.root() + if right {
            b.right().value_at(p)
        } else {
            b.left().value_at(p)
        },
{
    lemma_within(right, p);
    lemma_halves(a);
    lemma_halves(b);
}

/// The normal form is unique: two trees in normal form that record the same
/// count at every point are the same tree.
pub proof fn lemma_normal_form_unique(a: EventTree, b: EventTree)
    requires
        a.is_normalized(),
        b.is_normalized(),
        a.same_values(b),
    ensures
        a == b,
    decreases a,
{
    let pa = lemma_low_point(a);
    let pb = lemma_low_point(b);
    lemma_value_bounds(a, pb);
    lemma_value_bounds(b, pa);
    assert(a.value_at(pa) == b.value_at(pa));
    assert(a.value_at(pb) == b.value_at(pb));
    assert(a.root() == b.root());
    if a is SubTree {
        let q = lemma_high_point(a);
        assert(a.value_at(q) == b.value_at(q));
    }
    if b is SubTree {
        let q = lemma_high_point(b);
        assert(a.value_at(q) == b.value_at(q));
    }
    if a is SubTree && b is SubTree {
        assert forall|p: Seq<bool>| #[trigger] a.left().value_at(p) == b.left().value_at(p) by {
            lemma_halves_pointwise(a, b, p, false);
            assert(a.value_at(within(false, p)) == b.value_at(within(false, p)));
        }
        assert forall|p: Seq<bool>| #[trigger] a.right().value_at(p) == b.right().value_at(p) by {
            lemma_halves_pointwise(a, b, p, true);
            assert(a.value_at(within(true, p)) == b.value_at(within(true, p)));
        }
        lemma_normal_form_unique(a.left(), b.left());
        lemma_normal_form_unique(a.right(), b.right());
    }
}

/// Settling a node over two halves in normal form gives a tree in normal form
/// that records the same counts as the node.
pub proof fn lemma_settle(v: u64, l: EventTree, r: EventTree)
    requires
        l.is_normalized(),
        r.is_normalized(),
        v + larger(l.max_spec(), r.max_spec()) <= u64::MAX,
    ensures
        EventTree::settle(v, l, r).is_normalized(),
        EventTree::settle(v, l, r).same_values(EventTree::SubTree(v, Box::new(l), Box::new(r))),
        EventTree::settle(v, l, r).max_spec() == v + larger(l.max_spec(), r.max_spec()),
        EventTree::settle(v, l, r).root() == v + smaller(l.root(), r.root()),
        smaller(l.root(), r.root()) == 0 && !(l is Leaf && r is Leaf && l.root() == r.root())
            ==> EventTree::settle(v, l, r) == EventTree::SubTree(v, Box::new(l), Box::new(r)),
{
    let e = Seq::<bool>::empty();
    lemma_value_bounds(l, e);
    lemma_value_bounds(r, e);
    let m = smaller(l.root(), r.root()) as u64;
    lemma_sink(l, m);
    lemma_sink(r, m);
    let n = EventTree::SubTree(v, Box::new(l), Box::new(r));
    let s = EventTree::settle(v, l, r);
    assert forall|p: Seq<bool>| #[trigger] s.value_at(p) == n.value_at(p) by {
        if l is Leaf && r is Leaf && l.root() == r.root() {
        } else {
            assert(l.sink_spec(m).value_at(rest(p)) == l.value_at(rest(p)) - m);
            assert(r.sink_spec(m).value_at(rest(p)) == r.value_at(rest(p)) - m);
        }
    }
    if m == 0 {
        assert(l.sink_spec(m) == l);
        assert(r.sink_spec(m) == r);
    }
}

/// `norm_spec` gives a tree in normal form that records the same counts, and
/// leaves a tree in normal form as it is.
pub proof fn lemma_norm(t: EventTree)
    requires
        t.wf(),
    ensures
        t.norm_spec().is_normalized(),
        t.norm_spec().same_values(t),
        t.norm_spec().max_spec() == t.max_spec(),
        t.is_normalized() ==> t.norm_spec() == t,
    decreases t,
{
    match t {
        EventTree::Leaf(_) => {},
        EventTree::SubTree(v, l, r) => {
            lemma_norm(*l);
            lemma_norm(*r);
            let ln = l.norm_spec();
            let rn = r.norm_spec();
            lemma_settle(v, ln, rn);
            let n = EventTree::SubTree(v, Box::new(ln), Box::new(rn));
            assert forall|p: Seq<bool>| #[trigger] t.norm_spec().value_at(p) == t.value_at(p) by {
                assert(t.norm_spec().value_at(p) == n.value_at(p));
                assert(ln.value_at(rest(p)) == l.value_at(rest(p)));
                assert(rn.value_at(rest(p)) == r.value_at(rest(p)));
            }
        },
    }
}

/// Normalising twice is normalising once.
pub proof fn lemma_norm_idempotent(t: EventTree)
    requires
        t.wf(),
    ensures
        t.norm_spec().norm_spec() == t.norm_spec(),
{
    lemma_norm(t);
    lemma_norm(t.norm_spec());
}

/// One step of a join: where `jl` and `jr` record, in each half, the larger of
/// what `lo` and `hi` record there beyond the root of `lo`, the node over them
/// records the larger of what `lo` and `hi` record.
proof fn lemma_join_step(lo: EventTree, hi: EventTree, jl: EventTree, jr: EventTree)
    requires
        lo.wf(),
        hi.wf(),
        lo.root() <= hi.root(),
        forall|q: Seq<bool>|
            #[trigger] jl.value_at(q) == larger(
                lo.left().value_at(q),
                (hi.left().value_at(q) + hi.root() - lo.root()) as nat,
            ),
        forall|q: Seq<bool>|
            #[trigger] jr.value_at(q) == larger(
                lo.right().value_at(q),
                (hi.right().value_at(q) + hi.root() - lo.root()) as nat,
            ),
        jl.max_spec() == larger(
            lo.left().max_spec(),
            (hi.left().max_spec() + hi.root() - lo.root()) as nat,
        ),
        jr.max_spec() == larger(
            lo.right().max_spec(),
            (hi.right().max_spec() + hi.root() - lo.root()) as nat,
        ),
    ensures
        ({
            let n = EventTree::SubTree(lo.root() as u64, Box::new(jl), Box::new(jr));
            &&& n.wf()
            &&& n.max_spec() == larger(lo.max_spec(), hi.max_spec())
            &&& forall|p: Seq<bool>|
                #[trigger] n.value_at(p) == larger(lo.value_at(p), hi.value_at(p))
        }),
{
    let n = EventTree::SubTree(lo.root() as u64, Box::new(jl), Box::new(jr));
    lemma_halves(lo);
    lemma_halves(hi);
    assert forall|p: Seq<bool>|
        #[trigger] n.value_at(p) == larger(lo.value_at(p), hi.value_at(p)) by {
        let q = rest(p);
        assert(jl.value_at(q) == larger(
            lo.left().value_at(q),
            (hi.left().value_at(q) + hi.root() - lo.root()) as nat,
        ));
        assert(jr.value_at(q) == larger(
            lo.right().value_at(q),
            (hi.right().value_at(q) + hi.root() - lo.root()) as nat,
        ));
    }
}

/// The join of two trees whose first has the smaller root, or neither.
proof fn lemma_join_ordered(lo: EventTree, hi: EventTree)
    requires
        lo.wf(),
        hi.wf(),
        lo.root() <= hi.root(),
        !(lo is Leaf && hi is Leaf),
    ensures
        ({
            let d = (hi.root() - lo.root()) as u64;
            let n = EventTree::SubTree(
                lo.root() as u64,
                Box::new(lo.left().join_spec(hi.left().lift_spec(d))),
                Box::new(lo.right().join_spec(hi.right().lift_spec(d))),
            ).norm_spec();
            &&& n.is_normalized()
            &&& n.max_spec() == larger(lo.max_spec(), hi.max_spec())
            &&& forall|p: Seq<bool>|
                #[trigger] n.value_at(p) == larger(lo.value_at(p), hi.value_at(p))
        }),
    decreases lo.depth_spec() + hi.depth_spec(), 0nat,
{
    let d = (hi.root() - lo.root()) as u64;
    lemma_halves(lo);
    lemma_halves(hi);
    let hl = hi.left().lift_spec(d);
    let hr = hi.right().lift_spec(d);
    lemma_value_bounds(hi.left(), Seq::empty());
    lemma_value_bounds(hi.right(), Seq::empty());
    lemma_lift(hi.left(), d);
    lemma_lift(hi.right(), d);
    lemma_join(lo.left(), hl);
    lemma_join(lo.right(), hr);
    let jl = lo.left().join_spec(hl);
    let jr = lo.right().join_spec(hr);
    assert forall|q: Seq<bool>|
        #[trigger] jl.value_at(q) == larger(
            lo.left().value_at(q),
            (hi.left().value_at(q) + hi.root() - lo.root()) as nat,
        ) by {
        assert(hl.value_at(q) == hi.left().value_at(q) + d);
    }
    assert forall|q: Seq<bool>|
        #[trigger] jr.value_at(q) == larger(
            lo.right().value_at(q),
            (hi.right().value_at(q) + hi.root() - lo.root()) as nat,
        ) by {
        assert(hr.value_at(q) == hi.right().value_at(q) + d);
    }
    lemma_join_step(lo, hi, jl, jr);
    let n = EventTree::SubTree(lo.root() as u64, Box::new(jl), Box::new(jr));
    lemma_norm(n);
    assert forall|p: Seq<bool>|
        #[trigger] n.norm_spec().value_at(p) == larger(lo.value_at(p), hi.value_at(p)) by {
        assert(n.norm_spec().value_at(p) == n.value_at(p));
    }
}

/// The join of two trees is in normal form and records at every point the
/// larger of the two counts.
pub proof fn lemma_join(a: EventTree, b: EventTree)
    requires
        a.wf(),
        b.wf(),
    ensures
        a.join_spec(b).is_normalized(),
        forall|p: Seq<bool>|
            #[trigger] a.join_spec(b).value_at(p) == larger(a.value_at(p), b.value_at(p)),
        a.join_spec(b).max_spec() == larger(a.max_spec(), b.max_spec()),
    decreases a.depth_spec() + b.depth_spec(), 1nat,
{
    if a is Leaf && b is Leaf {
    } else if a.root() <= b.root() {
        lemma_join_ordered(a, b);
    } else {
        lemma_join_ordered(b, a);
    }
}

/// The difference of two trees is in normal form and records at every point
/// the count of the first less that of the second, or zero where the second
/// has more.
pub proof fn lemma_diff(a: EventTree, b: EventTree)
    requires
        a.wf(),
        b.wf(),
    ensures
        a.diff_spec(b).is_normalized(),
        forall|p: Seq<bool>|
            #[trigger] a.diff_spec(b).value_at(p) == if a.value_at(p) >= b.value_at(p) {
                a.value_at(p) - b.value_at(p)
            } else {
                0
            },
        a.diff_spec(b).max_spec() <= a.max_spec(),
    decreases a.depth_spec() + b.depth_spec(),
{
    if a is Leaf && b is Leaf {
    } else {
        lemma_halves(a);
        lemma_halves(b);
        let ra = a.root() as u64;
        let rb = b.root() as u64;
        lemma_value_bounds(a.left(), Seq::empty());
        lemma_value_bounds(a.right(), Seq::empty());
        lemma_value_bounds(b.left(), Seq::empty());
        lemma_value_bounds(b.right(), Seq::empty());
        lemma_lift(a.left(), ra);
        lemma_lift(a.right(), ra);
        lemma_lift(b.left(), rb);
        lemma_lift(b.right(), rb);
        let al = a.left().lift_spec(ra);
        let ar = a.right().lift_spec(ra);
        let bl = b.left().lift_spec(rb);
        let br = b.right().lift_spec(rb);
        lemma_diff(al, bl);
        lemma_diff(ar, br);
        let dl = al.diff_spec(bl);
        let dr = ar.diff_spec(br);
        let n = EventTree::SubTree(0, Box::new(dl), Box::new(dr));
        lemma_norm(n);
        assert forall|p: Seq<bool>|
            #[trigger] a.diff_spec(b).value_at(p) == if a.value_at(p) >= b.value_at(p) {
                a.value_at(p) - b.value_at(p)
            } else {
                0
            } by {
            assert(n.norm_spec().value_at(p) == n.value_at(p));
            let q = rest(p);
            assert(al.value_at(q) == a.left().value_at(q) + ra);
            assert(ar.value_at(q) == a.right().value_at(q) + ra);
            assert(bl.value_at(q) == b.left().value_at(q) + rb);
            assert(br.value_at(q) == b.right().value_at(q) + rb);
            assert(dl.value_at(q) == if al.value_at(q) >= bl.value_at(q) {
                al.value_at(q) - bl.value_at(q)
            } else {
                0
            });
            assert(dr.value_at(q) == if ar.value_at(q) >= br.value_at(q) {
                ar.value_at(q) - br.value_at(q)
            } else {
                0
            });
        }
    }
}

/// Comparing two lifted trees is comparing their halves, each lifted by its
/// root as well.
pub proof fn lemma_leq_at_halves(x: EventTree, xa: u64, y: EventTree, ya: u64)
    requires
        x.root() + xa <= u64::MAX,
        y.root() + ya <= u64::MAX,
    ensures
        x.leq_at(xa, y, ya) == (x.left().leq_at(
            (x.root() + xa) as u64,
            y.left(),
            (y.root() + ya) as u64,
        ) && x.right().leq_at((x.root() + xa) as u64, y.right(), (y.root() + ya) as u64)),
{
    let xb = (x.root() + xa) as u64;
    let yb = (y.root() + ya) as u64;
    lemma_halves(x);
    lemma_halves(y);
    if x.leq_at(xa, y, ya) {
        assert forall|q: Seq<bool>| #[trigger]
            x.left().value_at(q) + xb <= y.left().value_at(q) + yb by {
            lemma_within(false, q);
            assert(x.value_at(within(false, q)) + xa <= y.value_at(within(false, q)) + ya);
        }
        assert forall|q: Seq<bool>| #[trigger]
            x.right().value_at(q) + xb <= y.right().value_at(q) + yb by {
            lemma_within(true, q);
            assert(x.value_at(within(true, q)) + xa <= y.value_at(within(true, q)) + ya);
        }
    }
    if x.left().leq_at(xb, y.left(), yb) && x.right().leq_at(xb, y.right(), yb) {
        assert forall|p: Seq<bool>| #[trigger] x.value_at(p) + xa <= y.value_at(p) + ya by {
            let q = rest(p);
            assert(x.left().value_at(q) + xb <= y.left().value_at(q) + yb);
            assert(x.right().value_at(q) + xb <= y.right().value_at(q) + yb);
        }
    }
}

/// Two lifted leaves compare as their lifted counts do.
pub proof fn lemma_leq_at_leaves(x: EventTree, xa: u64, y: EventTree, ya: u64)
    requires
        x is Leaf,
        y is Leaf,
    ensures
        x.leq_at(xa, y, ya) == (x.root() + xa <= y.root() + ya),
{
    let e = Seq::<bool>::empty();
    if x.leq_at(xa, y, ya) {
        assert(x.value_at(e) + xa <= y.value_at(e) + ya);
    }
}

/// Comparing two trees that are not lifted is comparing them point by point.
pub proof fn lemma_leq_at_zero(x: EventTree, y: EventTree)
    ensures
        x.leq_at(0, y, 0) == x.leq(y),
{
    if x.leq_at(0, y, 0) {
        assert forall|p: Seq<bool>| #[trigger] x.value_at(p) <= y.value_at(p) by {
            assert(x.value_at(p) + 0 <= y.value_at(p) + 0);
        }
    }
    if x.leq(y) {
        assert forall|p: Seq<bool>| #[trigger] x.value_at(p) + 0 <= y.value_at(p) + 0 by {
            assert(x.value_at(p) <= y.value_at(p));
        }
    }
}

/// For a share in normal form, `contains_spec` says whether the tree records
/// an event at some point of the share.
pub proof fn lemma_contains(t: EventTree, id: IdTree)
    requires
        id.is_normalized(),
    ensures
        t.contains_spec(id) == t.positive_in(id),
    decreases t,
{
    if id != IdTree::Zero {
        let owned = if id is SubTree {
            lemma_node_points(id).0
        } else {
            Seq::<bool>::empty()
        };
        assert(id.owns(owned));
        lemma_value_bounds(t, owned);
        if t.root() > 0 {
            assert(t.value_at(owned) > 0);
        } else {
            match t {
                EventTree::Leaf(v) => {},
                EventTree::SubTree(v, l, r) => {
                    let il = if id is SubTree {
                        *id->SubTree_0
                    } else {
                        IdTree::One
                    };
                    let ir = if id is SubTree {
                        *id->SubTree_1
                    } else {
                        IdTree::One
                    };
                    lemma_contains(*l, il);
                    lemma_contains(*r, ir);
                    if l.positive_in(il) {
                        let q = choose|q: Seq<bool>| il.owns(q) && #[trigger] l.value_at(q) > 0;
                        lemma_within(false, q);
                        assert(id.owns(within(false, q)) && t.value_at(within(false, q)) > 0);
                    }
                    if r.positive_in(ir) {
                        let q = choose|q: Seq<bool>| ir.owns(q) && #[trigger] r.value_at(q) > 0;
                        lemma_within(true, q);
                        assert(id.owns(within(true, q)) && t.value_at(within(true, q)) > 0);
                    }
                    if t.positive_in(id) {
                        let p = choose|p: Seq<bool>| id.owns(p) && #[trigger] t.value_at(p) > 0;
                        if goes_right(p) {
                            assert(ir.owns(rest(p)) && r.value_at(rest(p)) > 0);
                        } else {
                            assert(il.owns(rest(p)) && l.value_at(rest(p)) > 0);
                        }
                    }
                },
            }
        }
    }
}

/// Joining a tree in normal form with itself gives the tree back.
pub proof fn lemma_join_idempotent(a: EventTree)
    requires
        a.wf(),
        a.is_normalized(),
    ensures
        a.join_spec(a) == a,
{
    lemma_join(a, a);
    lemma_normal_form_unique(a.join_spec(a), a);
}

/// The join of two trees does not depend on their order.
pub proof fn lemma_join_commutative(a: EventTree, b: EventTree)
    requires
        a.wf(),
        b.wf(),
    ensures
        a.join_spec(b) == b.join_spec(a),
{
    lemma_join(a, b);
    lemma_join(b, a);
    lemma_normal_form_unique(a.join_spec(b), b.join_spec(a));
}

/// The join of three trees does not depend on the grouping.
pub proof fn lemma_join_associative(a: EventTree, b: EventTree, c: EventTree)
    requires
        a.wf(),
        b.wf(),
        c.wf(),
    ensures
        a.join_spec(b).join_spec(c) == a.join_spec(b.join_spec(c)),
{
    lemma_join(a, b);
    lemma_join(b, c);
    lemma_join(a.join_spec(b), c);
    lemma_join(a, b.join_spec(c));
    lemma_normal_form_unique(a.join_spec(b).join_spec(c), a.join_spec(b.join_spec(c)));
}

/// Joining a tree with one in normal form that records at least as much at
/// every point gives the latter.
pub proof fn lemma_join_absorbs(a: EventTree, b: EventTree)
    requires
        a.wf(),
        b.wf(),
        b.is_normalized(),
        a.leq(b),
    ensures
        a.join_spec(b) == b,
{
    lemma_join(a, b);
    assert forall|p: Seq<bool>| #[trigger] a.join_spec(b).value_at(p) == b.value_at(p) by {
        assert(a.value_at(p) <= b.value_at(p));
    }
    lemma_normal_form_unique(a.join_spec(b), b);
}

/// The join is the least tree above both: it records at least what either
/// tree records, and at most what any tree records that is above both.
pub proof fn lemma_join_least_upper_bound(a: EventTree, b: EventTree, c: EventTree)
    requires
        a.wf(),
        b.wf(),
    ensures
        a.leq(a.join_spec(b)),
        b.leq(a.join_spec(b)),
        a.leq(c) && b.leq(c) ==> a.join_spec(b).leq(c),
{
    lemma_join(a, b);
    if a.leq(c) && b.leq(c) {
        assert forall|p: Seq<bool>| #[trigger] a.join_spec(b).value_at(p) <= c.value_at(p) by {
            assert(a.value_at(p) <= c.value_at(p));
            assert(b.value_at(p) <= c.value_at(p));
        }
    }
}

/// What is missing can be added back: at every point, the difference of `a`
/// and `b` and the count of `b` together are at least the count of `a`.
pub proof fn lemma_diff_saturates(a: EventTree, b: EventTree)
    requires
        a.wf(),
        b.wf(),
    ensures
        forall|p: Seq<bool>| #[trigger] a.diff_spec(b).value_at(p) + b.value_at(p) >= a.value_at(p),
{
    lemma_diff(a, b);
}

/// A tree is missing nothing of itself.
pub proof fn lemma_diff_self(b: EventTree)
    requires
        b.wf(),
    ensures
        b.diff_spec(b) == EventTree::Leaf(0),
{
    lemma_diff(b, b);
    lemma_normal_form_unique(b.diff_spec(b), EventTree::Leaf(0));
}

/// A tree that records at most what another records is missing nothing of it,
/// and only such a tree.
pub proof fn lemma_diff_empty(a: EventTree, b: EventTree)
    requires
        a.wf(),
        b.wf(),
    ensures
        a.diff_spec(b) == EventTree::Leaf(0) <==> a.leq(b),
{
    lemma_diff(a, b);
    let d = a.diff_spec(b);
    if a.leq(b) {
        assert forall|p: Seq<bool>| #[trigger] d.value_at(p) == EventTree::Leaf(0).value_at(p) by {
            assert(a.value_at(p) <= b.value_at(p));
        }
        lemma_normal_form_unique(d, EventTree::Leaf(0));
    }
    if d == EventTree::Leaf(0) {
        assert forall|p: Seq<bool>| #[trigger] a.value_at(p) <= b.value_at(p) by {
            assert(d.value_at(p) == 0);
        }
    }
}

/// Two trees in normal form are equal exactly where each records at most what
/// the other records.
pub proof fn lemma_equal_iff_leq_both(a: EventTree, b: EventTree)
    requires
        a.is_normalized(),
        b.is_normalized(),
    ensures
        a == b <==> a.leq(b) && b.leq(a),
{
    if a.leq(b) && b.leq(a) {
        assert forall|p: Seq<bool>| #[trigger] a.value_at(p) == b.value_at(p) by {
            assert(a.value_at(p) <= b.value_at(p));
            assert(b.value_at(p) <= a.value_at(p));
        }
        lemma_normal_form_unique(a, b);
    }
}

/// Two clocks agree after an exchange in both directions: once the second
/// has taken over the first, the first takes over the second and has what
/// the second has.
pub proof fn lemma_exchange_agrees(a: EventTree, b: EventTree)
    requires
        a.wf(),
        b.wf(),
    ensures
        a.join_spec(b.join_spec(a)) == b.join_spec(a),
{
    lemma_join(b, a);
    lemma_join(a, b.join_spec(a));
    lemma_normal_form_unique(a.join_spec(b.join_spec(a)), b.join_spec(a));
}

} // verus!
