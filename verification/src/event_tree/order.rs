//! The partial order of event trees: one history is at most another where it
//! records at most as much at every point.
use vstd::prelude::*;
use std::cmp::Ordering;
use crate::event_tree::EventTree;
use crate::event_tree::inflation::lemma_event;
use crate::event_tree::laws::{
    lemma_halves, lemma_join_absorbs, lemma_leq_at_halves, lemma_leq_at_leaves, lemma_leq_at_zero,
    lemma_value_bounds,
};
use crate::id_tree::IdTree;

verus! {

/// How two histories compare, given whether the first is at most the second
/// and whether the second is at most the first.
pub open spec fn order_of(le: bool, ge: bool) -> Option<Ordering> {
    if le && ge {
        Some(Ordering::Equal)
    } else if le {
        Some(Ordering::Less)
    } else if ge {
        Some(Ordering::Greater)
    } else {
        None
    }
}

/// How a tree compares with another, given how their left halves and their
/// right halves compare.
fn both_halves(left: Ordering, right: Ordering) -> (r: Option<Ordering>)
    ensures
        r == match (left, right) {
            (Ordering::Greater, Ordering::Greater) => Some(Ordering::Greater),
            (Ordering::Less, Ordering::Less) => Some(Ordering::Less),
            (Ordering::Equal, x) => Some(x),
            (x, Ordering::Equal) => Some(x),
            _ => None,
        },
{
    match (left, right) {
        (Ordering::Greater, Ordering::Greater) => Some(Ordering::Greater),
        (Ordering::Less, Ordering::Less) => Some(Ordering::Less),
        (Ordering::Equal, x) => Some(x),
        (x, Ordering::Equal) => Some(x),
        _ => None,
    }
}

impl EventTree {
    /// How `self` compares with `other`: `Equal` where they record the same
    /// count at every point, `Less` or `Greater` where one records at most the
    /// other's count at every point and less at some, and `None` where each
    /// records more than the other at some point.
    pub open spec fn compare_spec(self, other: EventTree) -> Option<Ordering> {
        order_of(self.leq(other), other.leq(self))
    }

    /// Compares `x` lifted by `xa` with `y` lifted by `ya`, point by point.
    fn compare_lifted(x: &EventTree, xa: u64, y: &EventTree, ya: u64) -> (r: Option<Ordering>)
        requires
            x.max_spec() + xa <= u64::MAX,
            y.max_spec() + ya <= u64::MAX,
        ensures
            r == order_of(x.leq_at(xa, *y, ya), y.leq_at(ya, *x, xa)),
        decreases x.depth_spec() + y.depth_spec(),
    {
        proof {
            lemma_halves(*x);
            lemma_halves(*y);
            lemma_value_bounds(*x, Seq::empty());
            lemma_value_bounds(*y, Seq::empty());
        }
        let (a, b) = (x.value(), y.value());
        let (xb, yb) = (xa + a, ya + b);
        if x.is_leaf() && y.is_leaf() {
            proof {
                lemma_leq_at_leaves(*x, xa, *y, ya);
                lemma_leq_at_leaves(*y, ya, *x, xa);
            }
            if xb < yb {
                Some(Ordering::Less)
            } else if xb == yb {
                Some(Ordering::Equal)
            } else {
                Some(Ordering::Greater)
            }
        } else {
            proof {
                lemma_leq_at_halves(*x, xa, *y, ya);
                lemma_leq_at_halves(*y, ya, *x, xa);
            }
            let zero = EventTree::Leaf(0);
            let (l0, r0) = match x {
                EventTree::Leaf(_) => (&zero, &zero),
                EventTree::SubTree(_, l, r) => (&**l, &**r),
            };
            let (l1, r1) = match y {
                EventTree::Leaf(_) => (&zero, &zero),
                EventTree::SubTree(_, l, r) => (&**l, &**r),
            };
            let left = Self::compare_lifted(l0, xb, l1, yb)?;
            let right = Self::compare_lifted(r0, xb, r1, yb)?;
            both_halves(left, right)
        }
    }
}

impl PartialOrd for EventTree {
    /// Compares two histories point by point. Trees whose counts do not fit in
    /// a `u64` compare with nothing.
    fn partial_cmp(&self, other: &Self) -> (r: Option<Ordering>) {
        match (self.checked_max(), other.checked_max()) {
            (Some(_), Some(_)) => {
                proof {
                    lemma_leq_at_zero(*self, *other);
                    lemma_leq_at_zero(*other, *self);
                }
                Self::compare_lifted(self, 0, other, 0)
            },
            _ => None,
        }
    }
}

impl vstd::std_specs::cmp::PartialOrdSpecImpl for EventTree {
    open spec fn obeys_partial_cmp_spec() -> bool {
        true
    }

    open spec fn partial_cmp_spec(&self, other: &Self) -> Option<Ordering> {
        if self.wf() && other.wf() {
            self.compare_spec(*other)
        } else {
            None
        }
    }
}

/// An event strictly advances: the tree after an event under a share that is
/// not empty is greater than the tree before it.
pub proof fn lemma_event_advances(t: EventTree, id: IdTree)
    requires
        t.is_normalized(),
        t.max_spec() < u64::MAX,
        id.is_normalized(),
        id != IdTree::Zero,
    ensures
        t.event_spec(id).compare_spec(t) == Some(Ordering::Greater),
        t.compare_spec(t.event_spec(id)) == Some(Ordering::Less),
{
    lemma_event(t, id);
    let r = t.event_spec(id);
    let p = choose|p: Seq<bool>| id.owns(p) && #[trigger] r.value_at(p) > t.value_at(p);
    assert(!(r.value_at(p) <= t.value_at(p)));
}

/// Causality: the tree after an event is at least the tree before it, and
/// joining the two gives the tree after the event.
pub proof fn lemma_event_absorbs(t: EventTree, id: IdTree)
    requires
        t.max_spec() < u64::MAX,
        id.is_normalized(),
        id != IdTree::Zero,
    ensures
        t.join_spec(t.event_spec(id)) == t.event_spec(id),
        t.leq(t.event_spec(id)),
        t.compare_spec(t.event_spec(id)) == Some(Ordering::Less) || t.compare_spec(
            t.event_spec(id),
        ) == Some(Ordering::Equal),
{
    lemma_event(t, id);
    lemma_join_absorbs(t, t.event_spec(id));
}

} // verus!
