//! Event trees: counters over the unit interval, the causal clock.
use vstd::prelude::*;
use vstd::string::StringExecFns;
use crate::id_tree::IdTree;
use crate::point::{goes_right, rest};
use crate::text::{decimal, push_decimal};

pub mod inflation;
pub mod laws;
pub mod order;

verus! {

/// The larger of two counts.
pub open spec fn larger(a: nat, b: nat) -> nat {
    if a >= b {
        a
    } else {
        b
    }
}

/// The smaller of two counts.
pub open spec fn smaller(a: nat, b: nat) -> nat {
    if a <= b {
        a
    } else {
        b
    }
}

/// A count of events at every point of the unit interval `[0, 1)`.
#[derive(Debug)]
pub enum EventTree {
    /// Every point of the region has seen this many events.
    Leaf(u64),
    /// Every point of the region has seen this many events, and the points of
    /// each half as many more as that half's tree says.
    SubTree(u64, Box<EventTree>, Box<EventTree>),
}

impl EventTree {
    /// The counter at the root.
    pub open spec fn root(self) -> nat {
        match self {
            EventTree::Leaf(v) => v as nat,
            EventTree::SubTree(v, _, _) => v as nat,
        }
    }

    /// The left half, relative to the root; that of a leaf adds nothing.
    pub open spec fn left(self) -> EventTree {
        match self {
            EventTree::Leaf(_) => EventTree::Leaf(0),
            EventTree::SubTree(_, l, _) => *l,
        }
    }

    /// The right half, relative to the root; that of a leaf adds nothing.
    pub open spec fn right(self) -> EventTree {
        match self {
            EventTree::Leaf(_) => EventTree::Leaf(0),
            EventTree::SubTree(_, _, r) => *r,
        }
    }

    /// The number of events that the tree records at the point `p`.
    pub open spec fn value_at(self, p: Seq<bool>) -> nat
        decreases self,
    {
        match self {
            EventTree::Leaf(v) => v as nat,
            EventTree::SubTree(v, l, r) => v as nat + if goes_right(p) {
                r.value_at(rest(p))
            } else {
                l.value_at(rest(p))
            },
        }
    }

    /// The largest number of events that the tree records at any point.
    pub open spec fn max_spec(self) -> nat
        decreases self,
    {
        match self {
            EventTree::Leaf(v) => v as nat,
            EventTree::SubTree(v, l, r) => v as nat + larger(l.max_spec(), r.max_spec()),
        }
    }

    /// Number of levels of the tree; a leaf has one.
    pub open spec fn depth_spec(self) -> nat
        decreases self,
    {
        match self {
            EventTree::Leaf(_) => 1,
            EventTree::SubTree(_, l, r) => 1 + larger(l.depth_spec(), r.depth_spec()),
        }
    }

    /// The counts at all points fit in a `u64`.
    pub open spec fn wf(self) -> bool {
        self.max_spec() <= u64::MAX
    }

    /// Normal form: below every node, the two halves are not the same leaf,
    /// and one of them has root zero.
    pub open spec fn is_normalized(self) -> bool
        decreases self,
    {
        match self {
            EventTree::Leaf(_) => true,
            EventTree::SubTree(_, l, r) => {
                &&& l.is_normalized()
                &&& r.is_normalized()
                &&& smaller(l.root(), r.root()) == 0
                &&& !(*l is Leaf && *r is Leaf && l.root() == r.root())
            },
        }
    }

    /// Whether the tree records at every point at most what `other` records.
    pub open spec fn leq(self, other: EventTree) -> bool {
        forall|p: Seq<bool>| #[trigger] self.value_at(p) <= other.value_at(p)
    }

    /// Whether two trees record the same count at every point.
    pub open spec fn same_values(self, other: EventTree) -> bool {
        forall|p: Seq<bool>| #[trigger] self.value_at(p) == other.value_at(p)
    }

    /// The tree with `m` added to the root.
    pub open spec fn lift_spec(self, m: u64) -> EventTree {
        match self {
            EventTree::Leaf(v) => EventTree::Leaf((v + m) as u64),
            EventTree::SubTree(v, l, r) => EventTree::SubTree((v + m) as u64, l, r),
        }
    }

    /// The tree with `m` taken from the root.
    pub open spec fn sink_spec(self, m: u64) -> EventTree {
        match self {
            EventTree::Leaf(v) => EventTree::Leaf((v - m) as u64),
            EventTree::SubTree(v, l, r) => EventTree::SubTree((v - m) as u64, l, r),
        }
    }

    /// The node with root `v` over two halves, brought to normal form at the
    /// root: two equal leaves become one leaf, and otherwise what both halves
    /// have in common moves up into the root.
    pub open spec fn settle(v: u64, l: EventTree, r: EventTree) -> EventTree {
        if l is Leaf && r is Leaf && l.root() == r.root() {
            EventTree::Leaf((v + l.root()) as u64)
        } else {
            let m = smaller(l.root(), r.root()) as u64;
            EventTree::SubTree((v + m) as u64, Box::new(l.sink_spec(m)), Box::new(r.sink_spec(m)))
        }
    }

    /// The normal form of the tree, from the leaves up to the root.
    pub open spec fn norm_spec(self) -> EventTree
        decreases self,
    {
        match self {
            EventTree::Leaf(_) => self,
            EventTree::SubTree(v, l, r) => Self::settle(v, l.norm_spec(), r.norm_spec()),
        }
    }

    /// The join of two trees: leaves by their larger count; otherwise the tree
    /// with the smaller root takes the other's halves, lifted by what the
    /// roots differ, into its own halves, a leaf counting as a node over two
    /// empty halves.
    pub open spec fn join_spec(self, other: EventTree) -> EventTree
        decreases self.depth_spec() + other.depth_spec(),
        via Self::halves_decrease
    {
        if self is Leaf && other is Leaf {
            EventTree::Leaf(larger(self.root(), other.root()) as u64)
        } else {
            let (lo, hi) = if self.root() <= other.root() {
                (self, other)
            } else {
                (other, self)
            };
            let d = (hi.root() - lo.root()) as u64;
            EventTree::SubTree(
                lo.root() as u64,
                Box::new(lo.left().join_spec(hi.left().lift_spec(d))),
                Box::new(lo.right().join_spec(hi.right().lift_spec(d))),
            ).norm_spec()
        }
    }

    /// What `self` records beyond `other`: leaves by saturating subtraction of
    /// their counts; otherwise half by half, each half lifted by its root, a
    /// leaf counting as a node over two empty halves.
    pub open spec fn diff_spec(self, other: EventTree) -> EventTree
        decreases self.depth_spec() + other.depth_spec(),
        via Self::lifted_halves_decrease
    {
        if self is Leaf && other is Leaf {
            EventTree::Leaf(
                if self.root() >= other.root() {
                    (self.root() - other.root()) as u64
                } else {
                    0
                },
            )
        } else {
            EventTree::SubTree(
                0,
                Box::new(
                    self.left().lift_spec(self.root() as u64).diff_spec(
                        other.left().lift_spec(other.root() as u64),
                    ),
                ),
                Box::new(
                    self.right().lift_spec(self.root() as u64).diff_spec(
                        other.right().lift_spec(other.root() as u64),
                    ),
                ),
            ).norm_spec()
        }
    }

    /// Whether `self`, lifted by `up`, records at every point at most what
    /// `other` records, lifted by `other_up`.
    pub open spec fn leq_at(self, up: u64, other: EventTree, other_up: u64) -> bool {
        forall|p: Seq<bool>| #[trigger] self.value_at(p) + up <= other.value_at(p) + other_up
    }

    /// Whether the tree records an event somewhere in the share `id`, read
    /// off the two trees: never in an empty share; in a leaf or under a root
    /// that is not zero, wherever the share is not empty; under a root that is
    /// zero, in one of the halves, each with its half of the share.
    pub open spec fn contains_spec(self, id: IdTree) -> bool
        decreases self,
    {
        match (self, id) {
            (_, IdTree::Zero) => false,
            (EventTree::Leaf(v), _) => v > 0,
            (EventTree::SubTree(v, l, r), IdTree::One) => v > 0 || l.contains_spec(IdTree::One)
                || r.contains_spec(IdTree::One),
            (EventTree::SubTree(v, l, r), IdTree::SubTree(il, ir)) => v > 0 || l.contains_spec(*il)
                || r.contains_spec(*ir),
        }
    }

    /// Whether the tree records more than `other` at some point of the share
    /// `id`.
    pub open spec fn ahead_in(self, other: EventTree, id: IdTree) -> bool {
        exists|p: Seq<bool>| id.owns(p) && #[trigger] self.value_at(p) > other.value_at(p)
    }

    /// Whether the tree records an event at some point of the share `id`.
    pub open spec fn positive_in(self, id: IdTree) -> bool {
        exists|p: Seq<bool>| id.owns(p) && #[trigger] self.value_at(p) > 0
    }

    /// The tree filled under the share `id`: counts are raised as far as the
    /// tree's own structure allows, and no node is added.
    ///
    /// Nothing changes under an empty share, and a region that is owned whole
    /// is levelled to its largest count. Under a split share each half is
    /// filled with its half of the share; a half that is owned whole becomes a
    /// leaf of its largest count, or of what the other half has at least after
    /// filling, if that is more.
    pub open spec fn fill_spec(self, id: IdTree) -> EventTree
        decreases self,
    {
        match (id, self) {
            (IdTree::Zero, _) => self,
            (IdTree::One, _) => EventTree::Leaf(self.max_spec() as u64),
            (_, EventTree::Leaf(_)) => self,
            (IdTree::SubTree(il, ir), EventTree::SubTree(n, el, er)) => {
                if *il == IdTree::One {
                    let er2 = er.fill_spec(*ir);
                    EventTree::SubTree(
                        n,
                        Box::new(EventTree::Leaf(larger(el.max_spec(), er2.root()) as u64)),
                        Box::new(er2),
                    ).norm_spec()
                } else if *ir == IdTree::One {
                    let el2 = el.fill_spec(*il);
                    EventTree::SubTree(
                        n,
                        Box::new(el2),
                        Box::new(EventTree::Leaf(larger(er.max_spec(), el2.root()) as u64)),
                    ).norm_spec()
                } else {
                    EventTree::SubTree(
                        n,
                        Box::new(el.fill_spec(*il)),
                        Box::new(er.fill_spec(*ir)),
                    ).norm_spec()
                }
            },
        }
    }

    /// Whether `grow_spec` is defined on the tree and the share: the share is
    /// not empty where it reaches a leaf, and owns no node of the tree whole.
    pub open spec fn growable(self, id: IdTree) -> bool
        decreases id, (if self is Leaf { 1nat } else { 0nat }),
    {
        match (id, self) {
            (IdTree::One, EventTree::Leaf(_)) => true,
            (IdTree::SubTree(_, _), EventTree::Leaf(v)) => EventTree::SubTree(
                v,
                Box::new(EventTree::Leaf(0)),
                Box::new(EventTree::Leaf(0)),
            ).growable(id),
            (IdTree::SubTree(il, ir), EventTree::SubTree(_, el, er)) => {
                if *il == IdTree::Zero {
                    er.growable(*ir)
                } else if *ir == IdTree::Zero {
                    el.growable(*il)
                } else {
                    el.growable(*il) && er.growable(*ir)
                }
            },
            _ => false,
        }
    }

    /// The tree grown under the share `id`, and what that growth costs.
    ///
    /// A leaf that is owned whole counts one more, at no cost. A leaf under a
    /// split share becomes a node over two empty halves, at the cost `n`, and
    /// grows as a node. A node grows in the half that the share owns part of,
    /// or, where it owns part of both, in the half where growing costs less,
    /// and in the right half where both cost the same; each level costs one.
    /// Where `growable` does not hold the tree is left as it is.
    pub open spec fn grow_spec(self, id: IdTree, n: nat) -> (EventTree, nat)
        decreases id, (if self is Leaf { 1nat } else { 0nat }),
    {
        match (id, self) {
            (IdTree::One, EventTree::Leaf(v)) => (EventTree::Leaf((v + 1) as u64), 0),
            (IdTree::SubTree(_, _), EventTree::Leaf(v)) => {
                let (e, c) = EventTree::SubTree(
                    v,
                    Box::new(EventTree::Leaf(0)),
                    Box::new(EventTree::Leaf(0)),
                ).grow_spec(id, n);
                (e, c + n)
            },
            (IdTree::SubTree(il, ir), EventTree::SubTree(v, el, er)) => {
                if *il == IdTree::Zero {
                    let (g, c) = er.grow_spec(*ir, n);
                    (EventTree::SubTree(v, el, Box::new(g)), c + 1)
                } else if *ir == IdTree::Zero {
                    let (g, c) = el.grow_spec(*il, n);
                    (EventTree::SubTree(v, Box::new(g), er), c + 1)
                } else {
                    let (gr, cr) = er.grow_spec(*ir, n);
                    let (gl, cl) = el.grow_spec(*il, n);
                    if cl < cr {
                        (EventTree::SubTree(v, Box::new(gl), er), cl + 1)
                    } else {
                        (EventTree::SubTree(v, el, Box::new(gr)), cr + 1)
                    }
                }
            },
            _ => (self, 0),
        }
    }

    /// The most that growing under the share `id` can cost, where a leaf
    /// that becomes a node costs `n`.
    pub open spec fn grow_cost_bound(id: IdTree, n: nat) -> nat
        decreases id,
    {
        match id {
            IdTree::SubTree(l, r) => n + 1 + larger(
                Self::grow_cost_bound(*l, n),
                Self::grow_cost_bound(*r, n),
            ),
            _ => 0,
        }
    }

    /// The tree after an event under the share `id`: the tree filled under
    /// `id` where filling changes it, and else the tree grown under `id`, a
    /// new node costing one more than the tree's depth.
    pub open spec fn event_spec(self, id: IdTree) -> EventTree {
        if self.fill_spec(id) == self {
            self.grow_spec(id, self.depth_spec() + 1).0
        } else {
            self.fill_spec(id)
        }
    }

    /// The text form: the count of a leaf; for a node the root and the two
    /// halves, in round brackets.
    pub open spec fn text(self) -> Seq<char>
        decreases self,
    {
        match self {
            EventTree::Leaf(v) => decimal(v as nat),
            EventTree::SubTree(v, l, r) => seq!['('] + decimal(v as nat) + seq![',', ' ']
                + l.text() + seq![',', ' '] + r.text() + seq![')'],
        }
    }

    #[via_fn]
    proof fn halves_decrease(self, other: EventTree) {
        laws::lemma_halves_depth(self);
        laws::lemma_halves_depth(other);
    }

    #[via_fn]
    proof fn lifted_halves_decrease(self, other: EventTree) {
        laws::lemma_halves_depth(self);
        laws::lemma_halves_depth(other);
    }

    /// The tree that records no event anywhere.
    pub fn new() -> (r: Self)
        ensures
            r == EventTree::Leaf(0),
    {
        EventTree::Leaf(0)
    }

    /// The node with root `val` over the given halves, as they are.
    pub fn subtree(val: u64, left: EventTree, right: EventTree) -> (r: Self)
        ensures
            r == EventTree::SubTree(val, Box::new(left), Box::new(right)),
    {
        EventTree::SubTree(val, Box::new(left), Box::new(right))
    }

    /// The counter at the root.
    pub fn value(&self) -> (r: u64)
        ensures
            r == self.root(),
    {
        match self {
            EventTree::Leaf(val) => *val,
            EventTree::SubTree(val, _, _) => *val,
        }
    }

    /// The smallest count that a tree in normal form records at any point: the
    /// counter at its root.
    pub fn min(&self) -> (r: u64)
        ensures
            r == self.root(),
            self.is_normalized() ==> exists|p: Seq<bool>| self.value_at(p) == r,
            forall|p: Seq<bool>| r <= #[trigger] self.value_at(p),
    {
        proof {
            if self.is_normalized() {
                let p = laws::lemma_low_point(*self);
            }
            assert forall|p: Seq<bool>| self.root() <= #[trigger] self.value_at(p) by {
                laws::lemma_value_bounds(*self, p);
            }
        }
        match self {
            EventTree::Leaf(val) => *val,
            EventTree::SubTree(val, _, _) => *val,
        }
    }

    /// The largest count that the tree records at any point.
    pub fn max(&self) -> (r: u64)
        requires
            self.wf(),
        ensures
            r == self.max_spec(),
            forall|p: Seq<bool>| #[trigger] self.value_at(p) <= r,
        decreases *self,
    {
        proof {
            assert forall|p: Seq<bool>| #[trigger] self.value_at(p) <= self.max_spec() by {
                laws::lemma_value_bounds(*self, p);
            }
        }
        match self {
            EventTree::Leaf(val) => *val,
            EventTree::SubTree(val, l, r) => {
                let a = l.max();
                let b = r.max();
                *val + if a >= b { a } else { b }
            },
        }
    }

    /// The number of levels of the tree, counted on from `at`.
    pub fn depth(&self, at: u64) -> (r: u64)
        requires
            at + self.depth_spec() <= u64::MAX,
        ensures
            r == at + self.depth_spec(),
        decreases *self,
    {
        match self {
            EventTree::Leaf(_) => at + 1,
            EventTree::SubTree(_, l, r) => {
                let at = at + 1;
                let a = l.depth(at);
                let b = r.depth(at);
                if a >= b { a } else { b }
            },
        }
    }

    /// Adds `m` to the root, and so to the count at every point.
    pub fn lift(self, m: u64) -> (r: Self)
        requires
            self.max_spec() + m <= u64::MAX,
        ensures
            r == self.lift_spec(m),
            forall|p: Seq<bool>| #[trigger] r.value_at(p) == self.value_at(p) + m,
            r.max_spec() == self.max_spec() + m,
    {
        proof {
            laws::lemma_lift(self, m);
        }
        match self {
            EventTree::Leaf(val) => EventTree::Leaf(val + m),
            EventTree::SubTree(val, l, r) => EventTree::SubTree(val + m, l, r),
        }
    }

    /// Takes `m` from the root, and so from the count at every point.
    pub fn sink(self, m: u64) -> (r: Self)
        requires
            m <= self.root(),
        ensures
            r == self.sink_spec(m),
            forall|p: Seq<bool>| #[trigger] r.value_at(p) == self.value_at(p) - m,
            r.max_spec() == self.max_spec() - m,
    {
        proof {
            laws::lemma_sink(self, m);
        }
        match self {
            EventTree::Leaf(val) => EventTree::Leaf(val - m),
            EventTree::SubTree(val, l, r) => EventTree::SubTree(val - m, l, r),
        }
    }

    /// Brings the tree into normal form without changing the count at any
    /// point.
    pub fn norm(&self) -> (r: Self)
        requires
            self.wf(),
        ensures
            r == self.norm_spec(),
            r.is_normalized(),
            r.same_values(*self),
            r.max_spec() == self.max_spec(),
        decreases *self,
    {
        proof {
            laws::lemma_norm(*self);
        }
        match self {
            EventTree::Leaf(_) => self.clone(),
            EventTree::SubTree(val, l, r) => {
                let l = l.norm();
                let r = r.norm();
                Self::settled(*val, l, r)
            },
        }
    }

    fn settled(val: u64, l: EventTree, r: EventTree) -> (t: EventTree)
        requires
            val + larger(l.max_spec(), r.max_spec()) <= u64::MAX,
        ensures
            t == Self::settle(val, l, r),
    {
        proof {
            laws::lemma_value_bounds(l, Seq::empty());
            laws::lemma_value_bounds(r, Seq::empty());
        }
        let a = l.value();
        let b = r.value();
        if l.is_leaf() && r.is_leaf() && a == b {
            EventTree::Leaf(val + a)
        } else {
            let m: u64 = if a <= b { a } else { b };
            EventTree::SubTree(val + m, Box::new(l.sink(m)), Box::new(r.sink(m)))
        }
    }

    fn is_leaf(&self) -> (b: bool)
        ensures
            b == (*self is Leaf),
    {
        match self {
            EventTree::Leaf(_) => true,
            _ => false,
        }
    }

    /// The root and the two halves of the tree, a leaf counting as a node over
    /// two empty halves.
    fn into_parts(self) -> (r: (u64, EventTree, EventTree))
        ensures
            r.0 == self.root(),
            r.1 == self.left(),
            r.2 == self.right(),
    {
        match self {
            EventTree::Leaf(v) => (v, EventTree::Leaf(0), EventTree::Leaf(0)),
            EventTree::SubTree(v, l, r) => (v, *l, *r),
        }
    }

    /// Merges two histories: the result records at every point the larger of
    /// the two counts, and is in normal form.
    pub fn join(self, other: Self) -> (r: Self)
        requires
            self.wf(),
            other.wf(),
        ensures
            r == self.join_spec(other),
            r.is_normalized(),
            forall|p: Seq<bool>|
                #[trigger] r.value_at(p) == larger(self.value_at(p), other.value_at(p)),
            r.max_spec() == larger(self.max_spec(), other.max_spec()),
        decreases self.depth_spec() + other.depth_spec(),
    {
        proof {
            laws::lemma_join(self, other);
        }
        if self.is_leaf() && other.is_leaf() {
            let a = self.value();
            let b = other.value();
            EventTree::Leaf(if a >= b { a } else { b })
        } else {
            let (lo, hi) = if self.value() <= other.value() {
                (self, other)
            } else {
                (other, self)
            };
            proof {
                laws::lemma_halves(lo);
                laws::lemma_halves(hi);
            }
            let (a, l0, r0) = lo.into_parts();
            let (b, l1, r1) = hi.into_parts();
            let d = b - a;
            let l = l0.join(l1.lift(d));
            let r = r0.join(r1.lift(d));
            EventTree::SubTree(a, Box::new(l), Box::new(r)).norm()
        }
    }

    /// What `self` records beyond `other`: the result records at every point
    /// the count of `self` less that of `other`, or zero where `other` has
    /// more, and is in normal form.
    pub fn diff(self, other: &Self) -> (r: Self)
        requires
            self.wf(),
            other.wf(),
        ensures
            r == self.diff_spec(*other),
            r.is_normalized(),
            forall|p: Seq<bool>|
                #[trigger] r.value_at(p) == if self.value_at(p) >= other.value_at(p) {
                    self.value_at(p) - other.value_at(p)
                } else {
                    0
                },
            r.max_spec() <= self.max_spec(),
        decreases self.depth_spec() + other.depth_spec(),
    {
        proof {
            laws::lemma_diff(self, *other);
            laws::lemma_halves(self);
            laws::lemma_halves(*other);
        }
        match (self, other) {
            (EventTree::Leaf(a), EventTree::Leaf(b)) => EventTree::Leaf(
                if a >= *b { a - *b } else { 0 },
            ),
            (EventTree::SubTree(a, l0, r0), EventTree::Leaf(b)) => {
                let l = (*l0).lift(a).diff(&EventTree::Leaf(*b));
                let r = (*r0).lift(a).diff(&EventTree::Leaf(*b));
                EventTree::SubTree(0, Box::new(l), Box::new(r)).norm()
            },
            (EventTree::Leaf(a), EventTree::SubTree(b, l1, r1)) => {
                let l = EventTree::Leaf(a).diff(&(&**l1).clone().lift(*b));
                let r = EventTree::Leaf(a).diff(&(&**r1).clone().lift(*b));
                EventTree::SubTree(0, Box::new(l), Box::new(r)).norm()
            },
            (EventTree::SubTree(a, l0, r0), EventTree::SubTree(b, l1, r1)) => {
                let l = (*l0).lift(a).diff(&(&**l1).clone().lift(*b));
                let r = (*r0).lift(a).diff(&(&**r1).clone().lift(*b));
                EventTree::SubTree(0, Box::new(l), Box::new(r)).norm()
            },
        }
    }

    /// Records an event under the share `id`.
    ///
    /// The result is in normal form and records at every point at least what
    /// `self` records, and the same outside `id`. Where `self` is in normal
    /// form it records more than `self` at some point of `id`.
    pub fn event(self, id: &IdTree) -> (r: Self)
        requires
            id.is_normalized(),
            *id != IdTree::Zero,
            self.max_spec() < u64::MAX,
            (self.depth_spec() + 2) * id.depth_spec() <= u64::MAX,
        ensures
            r == self.event_spec(*id),
            r.is_normalized(),
            r.max_spec() <= self.max_spec() + 1,
            self.leq(r),
            self.is_normalized() ==> exists|p: Seq<bool>|
                id.owns(p) && #[trigger] r.value_at(p) > self.value_at(p),
            forall|p: Seq<bool>| !id.owns(p) ==> #[trigger] r.value_at(p) == self.value_at(p),
    {
        proof {
            inflation::lemma_event(self, *id);
            inflation::lemma_event_fits(self, *id);
        }
        let fill = self.fill(id);
        if fill == self {
            let n = self.depth(0);
            let (tree, _) = self.grow(id, n + 1);
            tree
        } else {
            fill
        }
    }

    /// Fills the tree under the share `id`: raises counts as far as the tree's
    /// own structure allows, without adding a node.
    ///
    /// The result records at every point at least what `self` records, the
    /// same outside `id`, and nowhere more than the largest count of `self`;
    /// it has no more levels than `self`.
    pub fn fill(&self, id: &IdTree) -> (r: Self)
        requires
            self.wf(),
        ensures
            r == self.fill_spec(*id),
            r.max_spec() == self.max_spec(),
            r.depth_spec() <= self.depth_spec(),
            self.leq(r),
            forall|p: Seq<bool>| !id.owns(p) ==> #[trigger] r.value_at(p) == self.value_at(p),
            *id != IdTree::Zero || self.is_normalized() ==> r.is_normalized(),
        decreases *self,
    {
        proof {
            inflation::lemma_fill(*self, *id);
            inflation::lemma_fill_depth(*self, *id);
            assert forall|p: Seq<bool>| !id.owns(p) implies #[trigger] self.fill_spec(
                *id,
            ).value_at(p) == self.value_at(p) by {
                inflation::lemma_fill_outside(*self, *id, p);
            }
        }
        match (id, self) {
            (IdTree::Zero, e) => e.clone(),
            (IdTree::One, e) => EventTree::Leaf(e.max()),
            (_, EventTree::Leaf(v)) => EventTree::Leaf(*v),
            (IdTree::SubTree(il, ir), EventTree::SubTree(n, el, er)) => {
                proof {
                    inflation::lemma_fill(**el, **il);
                    inflation::lemma_fill(**er, **ir);
                    inflation::lemma_fill_halves(*self, *id);
                    reveal_with_fuel(EventTree::max_spec, 2);
                }
                if il.is_one() {
                    let er = er.fill(ir);
                    let a = el.max();
                    let b = er.min();
                    EventTree::SubTree(
                        *n,
                        Box::new(EventTree::Leaf(if a >= b { a } else { b })),
                        Box::new(er),
                    ).norm()
                } else if ir.is_one() {
                    let el = el.fill(il);
                    let a = er.max();
                    let b = el.min();
                    EventTree::SubTree(
                        *n,
                        Box::new(el),
                        Box::new(EventTree::Leaf(if a >= b { a } else { b })),
                    ).norm()
                } else {
                    EventTree::SubTree(*n, Box::new(el.fill(il)), Box::new(er.fill(ir))).norm()
                }
            },
        }
    }

    /// Grows the tree under the share `id` by one event, adding nodes where
    /// the share owns part of a leaf; returns the tree and what the growth
    /// costs, a leaf that becomes a node costing `n`.
    ///
    /// The result records at every point what `self` records or one more,
    /// the same outside `id`, and one more at some point of `id`. It is in
    /// normal form where filling under `id` leaves `self` as it is.
    pub fn grow(&self, id: &IdTree, n: u64) -> (r: (Self, u64))
        requires
            self.growable(*id),
            self.max_spec() < u64::MAX,
            Self::grow_cost_bound(*id, n as nat) <= u64::MAX,
        ensures
            r.0 == self.grow_spec(*id, n as nat).0,
            r.1 == self.grow_spec(*id, n as nat).1,
            r.0.max_spec() <= self.max_spec() + 1,
            self.leq(r.0),
            forall|p: Seq<bool>| !id.owns(p) ==> #[trigger] r.0.value_at(p) == self.value_at(p),
            forall|p: Seq<bool>| #[trigger] r.0.value_at(p) <= self.value_at(p) + 1,
            exists|p: Seq<bool>| id.owns(p) && #[trigger] r.0.value_at(p) > self.value_at(p),
            id.is_normalized() && *id != IdTree::Zero && self.fill_spec(*id) == *self
                ==> r.0.is_normalized(),
        decreases *id, (if *self is Leaf { 1nat } else { 0nat }),
    {
        proof {
            if id.is_normalized() && *id != IdTree::Zero && self.fill_spec(*id) == *self {
                inflation::lemma_grow_normalized(*self, *id, n as nat);
            }
            assert forall|p: Seq<bool>| #[trigger]
                self.grow_spec(*id, n as nat).0.value_at(p) <= self.value_at(p) + 1 by {
                inflation::lemma_grow_step(*self, *id, n as nat, p);
            }
            let p = inflation::lemma_grow(*self, *id, n as nat);
            assert(id.owns(p) && self.grow_spec(*id, n as nat).0.value_at(p) > self.value_at(p));
            assert forall|p: Seq<bool>| !id.owns(p) implies #[trigger] self.grow_spec(
                *id,
                n as nat,
            ).0.value_at(p) == self.value_at(p) by {
                inflation::lemma_grow_outside(*self, *id, n as nat, p);
            }
            inflation::lemma_grow_cost(*self, *id, n as nat);
        }
        match (id, self) {
            (IdTree::One, EventTree::Leaf(val)) => (EventTree::Leaf(*val + 1), 0),
            (IdTree::SubTree(_, _), EventTree::Leaf(val)) => {
                let node = EventTree::SubTree(
                    *val,
                    Box::new(EventTree::Leaf(0)),
                    Box::new(EventTree::Leaf(0)),
                );
                proof {
                    inflation::lemma_grow_cost(node, *id, n as nat);
                    reveal_with_fuel(EventTree::max_spec, 2);
                }
                let (e, c) = node.grow(id, n);
                (e, c + n)
            },
            (IdTree::SubTree(il, ir), EventTree::SubTree(v, el, er)) => {
                proof {
                    if **il != IdTree::Zero {
                        inflation::lemma_grow_cost(**el, **il, n as nat);
                    }
                    if **ir != IdTree::Zero {
                        inflation::lemma_grow_cost(**er, **ir, n as nat);
                    }
                }
                if il.is_zero() {
                    let (g, c) = er.grow(ir, n);
                    (EventTree::SubTree(*v, el.clone(), Box::new(g)), c + 1)
                } else if ir.is_zero() {
                    let (g, c) = el.grow(il, n);
                    (EventTree::SubTree(*v, Box::new(g), er.clone()), c + 1)
                } else {
                    let (gr, cr) = er.grow(ir, n);
                    let (gl, cl) = el.grow(il, n);
                    if cl < cr {
                        (EventTree::SubTree(*v, Box::new(gl), er.clone()), cl + 1)
                    } else {
                        (EventTree::SubTree(*v, el.clone(), Box::new(gr)), cr + 1)
                    }
                }
            },
            _ => (self.clone(), 0),
        }
    }

    /// Whether the tree records an event somewhere in the share `id`.
    pub fn contains(&self, id: &IdTree) -> (b: bool)
        ensures
            b == self.contains_spec(*id),
            id.is_normalized() ==> b == self.positive_in(*id),
        decreases *self,
    {
        proof {
            if id.is_normalized() {
                laws::lemma_contains(*self, *id);
            }
        }
        match (self, id) {
            (_, IdTree::Zero) => false,
            (EventTree::Leaf(v), _) => *v > 0,
            (EventTree::SubTree(v, l, r), IdTree::One) => {
                *v > 0 || l.contains(id) || r.contains(id)
            },
            (EventTree::SubTree(v, l, r), IdTree::SubTree(il, ir)) => {
                *v > 0 || l.contains(il) || r.contains(ir)
            },
        }
    }

    /// Whether the tree is in normal form.
    pub fn check_normalized(&self) -> (b: bool)
        ensures
            b == self.is_normalized(),
        decreases *self,
    {
        match self {
            EventTree::Leaf(_) => true,
            EventTree::SubTree(_, l, r) => {
                let a = l.value();
                let b = r.value();
                l.check_normalized() && r.check_normalized() && (a == 0 || b == 0) && !(
                l.is_leaf() && r.is_leaf() && a == b)
            },
        }
    }

    /// The largest count that the tree records, or `None` where it does not
    /// fit in a `u64`.
    pub fn checked_max(&self) -> (r: Option<u64>)
        ensures
            match r {
                Some(m) => m == self.max_spec(),
                None => !self.wf(),
            },
        decreases *self,
    {
        match self {
            EventTree::Leaf(val) => Some(*val),
            EventTree::SubTree(val, l, r) => {
                match (l.checked_max(), r.checked_max()) {
                    (Some(a), Some(b)) => val.checked_add(if a >= b { a } else { b }),
                    _ => None,
                }
            },
        }
    }

    /// Appends the text form of the tree to a string.
    pub fn write_text(&self, s: &mut String)
        ensures
            final(s)@ == old(s)@ + self.text(),
        decreases *self,
    {
        proof {
            reveal_strlit("(");
            reveal_strlit(", ");
            reveal_strlit(")");
        }
        match self {
            EventTree::Leaf(v) => {
                push_decimal(s, *v);
            },
            EventTree::SubTree(v, l, r) => {
                s.append("(");
                push_decimal(s, *v);
                s.append(", ");
                l.write_text(s);
                s.append(", ");
                r.write_text(s);
                s.append(")");
                assert(s@ =~= old(s)@ + self.text());
            },
        }
    }

    /// The text form of the tree.
    pub fn to_string(&self) -> (r: String)
        ensures
            r@ == self.text(),
    {
        let mut s = String::new();
        self.write_text(&mut s);
        assert(s@ =~= self.text());
        s
    }

    fn same(&self, other: &Self) -> (b: bool)
        ensures
            b == (*self == *other),
        decreases *self,
    {
        match (self, other) {
            (EventTree::Leaf(a), EventTree::Leaf(b)) => *a == *b,
            (EventTree::SubTree(a, l0, r0), EventTree::SubTree(b, l1, r1)) => {
                *a == *b && l0.same(l1) && r0.same(r1)
            },
            _ => false,
        }
    }
}

impl Clone for EventTree {
    fn clone(&self) -> (r: Self)
        ensures
            r == *self,
        decreases *self,
    {
        match self {
            EventTree::Leaf(v) => EventTree::Leaf(*v),
            EventTree::SubTree(v, l, r) => {
                let lc = (&**l).clone();
                let rc = (&**r).clone();
                EventTree::SubTree(*v, Box::new(lc), Box::new(rc))
            },
        }
    }
}

impl PartialEq for EventTree {
    fn eq(&self, other: &Self) -> (b: bool) {
        self.same(other)
    }
}

impl Eq for EventTree {

}

impl vstd::std_specs::cmp::PartialEqSpecImpl for EventTree {
    open spec fn obeys_eq_spec() -> bool {
        true
    }

    open spec fn eq_spec(&self, other: &Self) -> bool {
        *self == *other
    }
}

impl Default for EventTree {
    fn default() -> (r: Self)
        ensures
            r == EventTree::Leaf(0),
    {
        EventTree::Leaf(0)
    }
}

} // verus!
