//! What holds of identity trees: the points that each operation's result owns,
//! normal forms, and the laws that relate `fork` and `join`.
use vstd::prelude::*;
use crate::id_tree::IdTree;
use crate::point::{lemma_within, rest, within};

verus! {

/// A node in normal form owns some point and leaves some point out.
pub proof fn lemma_node_points(t: IdTree) -> (pq: (Seq<bool>, Seq<bool>))
    requires
        t.is_normalized(),
        t is SubTree,
    ensures
        t.owns(pq.0),
        !t.owns(pq.1),
    decreases t,
{
    reveal_with_fuel(IdTree::owns, 2);
    let l = *t->SubTree_0;
    let r = *t->SubTree_1;
    let e = Seq::<bool>::empty();
    lemma_within(false, e);
    lemma_within(true, e);
    let mut p = e;
    let mut q = e;
    if l is SubTree {
        let (lp, lq) = lemma_node_points(l);
        lemma_within(false, lp);
        lemma_within(false, lq);
        p = within(false, lp);
        q = within(false, lq);
    } else if r is SubTree {
        let (rp, rq) = lemma_node_points(r);
        lemma_within(true, rp);
        lemma_within(true, rq);
        p = within(true, rp);
        q = within(true, rq);
    } else {
        p = within(l == IdTree::Zero, e);
        q = within(l == IdTree::One, e);
    }
    (p, q)
}

/// Two trees that own the same points have halves that own the same points.
pub proof fn lemma_halves_same_points(a: IdTree, b: IdTree)
    requires
        a is SubTree,
        b is SubTree,
        a.same_points(b),
    ensures
        a->SubTree_0.same_points(*b->SubTree_0),
        a->SubTree_1.same_points(*b->SubTree_1),
{
    assert forall|p: Seq<bool>| #[trigger] a->SubTree_0.owns(p) == b->SubTree_0.owns(p) by {
        lemma_within(false, p);
        assert(a.owns(within(false, p)) == b.owns(within(false, p)));
    }
    assert forall|p: Seq<bool>| #[trigger] a->SubTree_1.owns(p) == b->SubTree_1.owns(p) by {
        lemma_within(true, p);
        assert(a.owns(within(true, p)) == b.owns(within(true, p)));
    }
}

/// The normal form is unique: two trees in normal form that own the same
/// points are the same tree.
pub proof fn lemma_normal_form_unique(a: IdTree, b: IdTree)
    requires
        a.is_normalized(),
        b.is_normalized(),
        a.same_points(b),
    ensures
        a == b,
    decreases a,
{
    let e = Seq::<bool>::empty();
    assert(a.owns(e) == b.owns(e));
    if a is SubTree {
        let (p, q) = lemma_node_points(a);
        assert(a.owns(p) == b.owns(p));
        assert(a.owns(q) == b.owns(q));
    }
    if b is SubTree {
        let (p, q) = lemma_node_points(b);
        assert(a.owns(p) == b.owns(p));
        assert(a.owns(q) == b.owns(q));
    }
    if a is SubTree && b is SubTree {
        lemma_halves_same_points(a, b);
        lemma_normal_form_unique(*a->SubTree_0, *b->SubTree_0);
        lemma_normal_form_unique(*a->SubTree_1, *b->SubTree_1);
    }
}

/// A collapsed node is in normal form where its halves are, and owns the
/// points that the node itself would own.
pub proof fn lemma_collapse(l: IdTree, r: IdTree)
    ensures
        l.is_normalized() && r.is_normalized() ==> IdTree::collapse(l, r).is_normalized(),
        IdTree::collapse(l, r).same_points(IdTree::SubTree(Box::new(l), Box::new(r))),
{
    reveal_with_fuel(IdTree::owns, 2);
    reveal_with_fuel(IdTree::is_normalized, 2);
}

/// `norm_spec` gives a tree in normal form that owns the same points, and
/// leaves a tree in normal form as it is.
pub proof fn lemma_norm(t: IdTree)
    ensures
        t.norm_spec().is_normalized(),
        t.norm_spec().same_points(t),
        t.is_normalized() ==> t.norm_spec() == t,
    decreases t,
{
    match t {
        IdTree::SubTree(l, r) => {
            lemma_norm(*l);
            lemma_norm(*r);
            lemma_collapse(l.norm_spec(), r.norm_spec());
            assert forall|p: Seq<bool>| #[trigger] t.norm_spec().owns(p) == t.owns(p) by {
                let n = IdTree::SubTree(Box::new(l.norm_spec()), Box::new(r.norm_spec()));
                assert(t.norm_spec().owns(p) == n.owns(p));
                assert(l.norm_spec().owns(rest(p)) == l.owns(rest(p)));
                assert(r.norm_spec().owns(rest(p)) == r.owns(rest(p)));
            }
        },
        _ => {},
    }
}

/// Normalising twice is normalising once.
pub proof fn lemma_norm_idempotent(t: IdTree)
    ensures
        t.norm_spec().norm_spec() == t.norm_spec(),
{
    lemma_norm(t);
    lemma_norm(t.norm_spec());
}

/// The join of two shares owns exactly the points that either of them owns.
pub proof fn lemma_join_points(a: IdTree, b: IdTree)
    ensures
        forall|p: Seq<bool>| #[trigger] a.join_spec(b).owns(p) == (a.owns(p) || b.owns(p)),
    decreases a,
{
    match (a, b) {
        (IdTree::SubTree(l0, r0), IdTree::SubTree(l1, r1)) => {
            lemma_join_points(*l0, *l1);
            lemma_join_points(*r0, *r1);
            let jl = l0.join_spec(*l1);
            let jr = r0.join_spec(*r1);
            lemma_norm(jl);
            lemma_norm(jr);
            lemma_collapse(jl.norm_spec(), jr.norm_spec());
            assert forall|p: Seq<bool>| #[trigger] a.join_spec(b).owns(p) == (a.owns(p) || b.owns(
                p,
            )) by {
                let n = IdTree::SubTree(Box::new(jl.norm_spec()), Box::new(jr.norm_spec()));
                assert(a.join_spec(b).owns(p) == n.owns(p));
                assert(jl.norm_spec().owns(rest(p)) == jl.owns(rest(p)));
                assert(jr.norm_spec().owns(rest(p)) == jr.owns(rest(p)));
            }
        },
        _ => {},
    }
}

/// The join of two shares in normal form is in normal form.
pub proof fn lemma_join_normalized(a: IdTree, b: IdTree)
    ensures
        a.is_normalized() && b.is_normalized() ==> a.join_spec(b).is_normalized(),
    decreases a,
{
    match (a, b) {
        (IdTree::SubTree(l0, r0), IdTree::SubTree(l1, r1)) => {
            lemma_norm(l0.join_spec(*l1));
            lemma_norm(r0.join_spec(*r1));
            lemma_collapse(l0.join_spec(*l1).norm_spec(), r0.join_spec(*r1).norm_spec());
        },
        _ => {},
    }
}

/// The two shares that `fork_spec` gives have no point in common, and
/// together they own the points of the share that was split.
pub proof fn lemma_fork_splits(t: IdTree)
    ensures
        t.fork_spec().0.disjoint(t.fork_spec().1),
        forall|p: Seq<bool>|
            (#[trigger] t.fork_spec().0.owns(p) || t.fork_spec().1.owns(p)) == t.owns(p),
    decreases t,
{
    reveal_with_fuel(IdTree::owns, 2);
    match t {
        IdTree::SubTree(a, b) => {
            if *a == IdTree::Zero {
                lemma_fork_splits(*b);
                let (b1, b2) = b.fork_spec();
                assert forall|p: Seq<bool>| !(#[trigger] t.fork_spec().0.owns(p)
                    && t.fork_spec().1.owns(p)) by {
                    assert(!(b1.owns(rest(p)) && b2.owns(rest(p))));
                }
                assert forall|p: Seq<bool>|
                    (#[trigger] t.fork_spec().0.owns(p) || t.fork_spec().1.owns(p)) == t.owns(
                        p,
                    ) by {
                    assert((b1.owns(rest(p)) || b2.owns(rest(p))) == b.owns(rest(p)));
                }
            } else if *b == IdTree::Zero {
                lemma_fork_splits(*a);
                let (a1, a2) = a.fork_spec();
                assert forall|p: Seq<bool>| !(#[trigger] t.fork_spec().0.owns(p)
                    && t.fork_spec().1.owns(p)) by {
                    assert(!(a1.owns(rest(p)) && a2.owns(rest(p))));
                }
                assert forall|p: Seq<bool>|
                    (#[trigger] t.fork_spec().0.owns(p) || t.fork_spec().1.owns(p)) == t.owns(
                        p,
                    ) by {
                    assert((a1.owns(rest(p)) || a2.owns(rest(p))) == a.owns(rest(p)));
                }
            } else {
            }
        },
        _ => {},
    }
}

/// Splitting a share in normal form gives two shares in normal form, and
/// neither is empty unless the share itself is.
pub proof fn lemma_fork_normalized(t: IdTree)
    ensures
        t.is_normalized() ==> t.fork_spec().0.is_normalized() && t.fork_spec().1.is_normalized(),
        t != IdTree::Zero ==> t.fork_spec().0 is SubTree && t.fork_spec().1 is SubTree,
    decreases t,
{
    reveal_with_fuel(IdTree::is_normalized, 2);
    match t {
        IdTree::SubTree(a, b) => {
            lemma_fork_normalized(*a);
            lemma_fork_normalized(*b);
        },
        _ => {},
    }
}

/// Fork, then join: splitting a share in normal form and merging the two
/// parts gives the share back.
pub proof fn lemma_fork_join_inverse(id: IdTree)
    requires
        id.is_normalized(),
    ensures
        id.fork_spec().0.join_spec(id.fork_spec().1) == id,
{
    let (x, y) = id.fork_spec();
    lemma_fork_splits(id);
    lemma_fork_normalized(id);
    lemma_join_points(x, y);
    lemma_join_normalized(x, y);
    assert forall|p: Seq<bool>| #[trigger] x.join_spec(y).owns(p) == id.owns(p) by {
        assert((x.owns(p) || y.owns(p)) == id.owns(p));
    }
    lemma_normal_form_unique(x.join_spec(y), id);
}

/// The two shares that a fork gives have no point in common.
pub proof fn lemma_fork_disjoint(id: IdTree)
    ensures
        id.fork_spec().0.disjoint(id.fork_spec().1),
{
    lemma_fork_splits(id);
}

/// Joining a share in normal form with itself gives the share back.
pub proof fn lemma_join_idempotent(a: IdTree)
    requires
        a.is_normalized(),
    ensures
        a.join_spec(a) == a,
{
    lemma_join_points(a, a);
    lemma_join_normalized(a, a);
    lemma_normal_form_unique(a.join_spec(a), a);
}

/// The join of two shares in normal form does not depend on their order.
pub proof fn lemma_join_commutative(a: IdTree, b: IdTree)
    requires
        a.is_normalized(),
        b.is_normalized(),
    ensures
        a.join_spec(b) == b.join_spec(a),
{
    lemma_join_points(a, b);
    lemma_join_points(b, a);
    lemma_join_normalized(a, b);
    lemma_join_normalized(b, a);
    lemma_normal_form_unique(a.join_spec(b), b.join_spec(a));
}

/// The join of three shares in normal form does not depend on the grouping.
pub proof fn lemma_join_associative(a: IdTree, b: IdTree, c: IdTree)
    requires
        a.is_normalized(),
        b.is_normalized(),
        c.is_normalized(),
    ensures
        a.join_spec(b).join_spec(c) == a.join_spec(b.join_spec(c)),
{
    lemma_join_points(a, b);
    lemma_join_points(b, c);
    lemma_join_points(a.join_spec(b), c);
    lemma_join_points(a, b.join_spec(c));
    lemma_join_normalized(a, b);
    lemma_join_normalized(b, c);
    lemma_join_normalized(a.join_spec(b), c);
    lemma_join_normalized(a, b.join_spec(c));
    lemma_normal_form_unique(a.join_spec(b).join_spec(c), a.join_spec(b.join_spec(c)));
}

} // verus!
