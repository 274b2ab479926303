//! Identity trees: shares of the unit interval that can be split and merged.
use vstd::prelude::*;
use vstd::string::StringExecFns;
use crate::point::{goes_right, rest};

pub mod laws;
pub mod parser;

verus! {

/// A share of the unit interval `[0, 1)`, held as a binary tree.
#[derive(Debug, Hash)]
pub enum IdTree {
    /// No part of the region is owned.
    Zero,
    /// The whole region is owned.
    One,
    /// The region is cut in two halves, owned as the two children say.
    SubTree(Box<IdTree>, Box<IdTree>),
}

impl IdTree {
    /// Whether the share contains the point `p`.
    pub open spec fn owns(self, p: Seq<bool>) -> bool
        decreases self,
    {
        match self {
            IdTree::Zero => false,
            IdTree::One => true,
            IdTree::SubTree(l, r) => if goes_right(p) {
                r.owns(rest(p))
            } else {
                l.owns(rest(p))
            },
        }
    }

    /// Normal form: no node has two `Zero` children or two `One` children.
    pub open spec fn is_normalized(self) -> bool
        decreases self,
    {
        match self {
            IdTree::Zero => true,
            IdTree::One => true,
            IdTree::SubTree(l, r) => {
                &&& l.is_normalized()
                &&& r.is_normalized()
                &&& !(*l == IdTree::Zero && *r == IdTree::Zero)
                &&& !(*l == IdTree::One && *r == IdTree::One)
            },
        }
    }

    /// Number of levels of the tree; a leaf has one.
    pub open spec fn depth_spec(self) -> nat
        decreases self,
    {
        match self {
            IdTree::Zero => 1,
            IdTree::One => 1,
            IdTree::SubTree(l, r) => 1 + if l.depth_spec() >= r.depth_spec() {
                l.depth_spec()
            } else {
                r.depth_spec()
            },
        }
    }

    /// The node with the given halves, collapsed to a leaf where both halves
    /// are the same leaf.
    pub open spec fn collapse(l: IdTree, r: IdTree) -> IdTree {
        if l == IdTree::Zero && r == IdTree::Zero {
            IdTree::Zero
        } else if l == IdTree::One && r == IdTree::One {
            IdTree::One
        } else {
            IdTree::SubTree(Box::new(l), Box::new(r))
        }
    }

    /// The normal form of the tree: every node with two equal leaves below it
    /// is collapsed, from the leaves up to the root.
    pub open spec fn norm_spec(self) -> IdTree
        decreases self,
    {
        match self {
            IdTree::SubTree(l, r) => Self::collapse(l.norm_spec(), r.norm_spec()),
            _ => self,
        }
    }

    /// The two shares that `fork` cuts the share into.
    pub open spec fn fork_spec(self) -> (IdTree, IdTree)
        decreases self,
    {
        match self {
            IdTree::Zero => (IdTree::Zero, IdTree::Zero),
            IdTree::One => (
                IdTree::SubTree(Box::new(IdTree::One), Box::new(IdTree::Zero)),
                IdTree::SubTree(Box::new(IdTree::Zero), Box::new(IdTree::One)),
            ),
            IdTree::SubTree(a, b) => if *a == IdTree::Zero {
                let (b1, b2) = b.fork_spec();
                (
                    IdTree::SubTree(Box::new(IdTree::Zero), Box::new(b1)),
                    IdTree::SubTree(Box::new(IdTree::Zero), Box::new(b2)),
                )
            } else if *b == IdTree::Zero {
                let (a1, a2) = a.fork_spec();
                (
                    IdTree::SubTree(Box::new(a1), Box::new(IdTree::Zero)),
                    IdTree::SubTree(Box::new(a2), Box::new(IdTree::Zero)),
                )
            } else {
                (
                    IdTree::SubTree(a, Box::new(IdTree::Zero)),
                    IdTree::SubTree(Box::new(IdTree::Zero), b),
                )
            },
        }
    }

    /// The union of two shares.
    pub open spec fn join_spec(self, other: IdTree) -> IdTree
        decreases self,
    {
        match (self, other) {
            (IdTree::Zero, b) => b,
            (a, IdTree::Zero) => a,
            (IdTree::One, _) => IdTree::One,
            (_, IdTree::One) => IdTree::One,
            (IdTree::SubTree(l0, r0), IdTree::SubTree(l1, r1)) => Self::collapse(
                l0.join_spec(*l1).norm_spec(),
                r0.join_spec(*r1).norm_spec(),
            ),
        }
    }

    /// The text form: `0`, `1`, or the two halves in round brackets.
    pub open spec fn text(self) -> Seq<char>
        decreases self,
    {
        match self {
            IdTree::Zero => seq!['0'],
            IdTree::One => seq!['1'],
            IdTree::SubTree(l, r) => seq!['('] + l.text() + seq![',', ' '] + r.text() + seq![')'],
        }
    }

    /// Whether two shares have no point in common.
    pub open spec fn disjoint(self, other: IdTree) -> bool {
        forall|p: Seq<bool>| !(#[trigger] self.owns(p) && other.owns(p))
    }

    /// Whether two shares contain the same points.
    pub open spec fn same_points(self, other: IdTree) -> bool {
        forall|p: Seq<bool>| #[trigger] self.owns(p) == other.owns(p)
    }

    /// The full share: the whole unit interval.
    pub fn new() -> (r: Self)
        ensures
            r == IdTree::One,
    {
        IdTree::One
    }

    /// The full share: the whole unit interval.
    pub fn one() -> (r: Self)
        ensures
            r == IdTree::One,
    {
        IdTree::One
    }

    /// The node with the given halves, as they are.
    pub fn subtree(left: IdTree, right: IdTree) -> (r: Self)
        ensures
            r == IdTree::SubTree(Box::new(left), Box::new(right)),
    {
        IdTree::SubTree(Box::new(left), Box::new(right))
    }

    /// Whether the share is the empty leaf.
    pub fn is_zero(&self) -> (b: bool)
        ensures
            b == (*self == IdTree::Zero),
    {
        match self {
            IdTree::Zero => true,
            _ => false,
        }
    }

    pub(crate) fn is_one(&self) -> (b: bool)
        ensures
            b == (*self == IdTree::One),
    {
        match self {
            IdTree::One => true,
            _ => false,
        }
    }

    /// Number of levels of the tree, or `None` where it exceeds `u64::MAX`.
    pub fn depth(&self) -> (r: Option<u64>)
        ensures
            match r {
                Some(d) => d == self.depth_spec(),
                None => self.depth_spec() > u64::MAX,
            },
        decreases *self,
    {
        match self {
            IdTree::Zero => Some(1),
            IdTree::One => Some(1),
            IdTree::SubTree(l, r) => {
                let dl = l.depth();
                let dr = r.depth();
                match (dl, dr) {
                    (Some(a), Some(b)) => {
                        let m: u64 = if a >= b { a } else { b };
                        m.checked_add(1)
                    },
                    _ => None,
                }
            },
        }
    }

    /// Whether the tree is in normal form.
    pub fn check_normalized(&self) -> (b: bool)
        ensures
            b == self.is_normalized(),
        decreases *self,
    {
        match self {
            IdTree::SubTree(l, r) => {
                l.check_normalized() && r.check_normalized() && !(l.is_zero() && r.is_zero())
                    && !(l.is_one() && r.is_one())
            },
            _ => true,
        }
    }

    /// Splits the share into two disjoint shares that together make up `self`.
    ///
    /// The empty share splits into two empty shares, the full share into its
    /// left and its right half. A share that owns something in one half only is
    /// split within that half; one that owns something in both halves gives its
    /// left half to the first result and its right half to the second.
    pub fn fork(self) -> (r: (Self, Self))
        ensures
            r == self.fork_spec(),
            r.0.disjoint(r.1),
            forall|p: Seq<bool>| (#[trigger] r.0.owns(p) || r.1.owns(p)) == self.owns(p),
            self.is_normalized() ==> r.0.is_normalized() && r.1.is_normalized(),
        decreases self,
    {
        proof {
            laws::lemma_fork_splits(self);
            laws::lemma_fork_normalized(self);
        }
        match self {
            IdTree::Zero => (IdTree::Zero, IdTree::Zero),
            IdTree::One => (
                IdTree::SubTree(Box::new(IdTree::One), Box::new(IdTree::Zero)),
                IdTree::SubTree(Box::new(IdTree::Zero), Box::new(IdTree::One)),
            ),
            IdTree::SubTree(a, b) => {
                if a.is_zero() {
                    let (b1, b2) = (*b).fork();
                    (
                        IdTree::SubTree(Box::new(IdTree::Zero), Box::new(b1)),
                        IdTree::SubTree(Box::new(IdTree::Zero), Box::new(b2)),
                    )
                } else if b.is_zero() {
                    let (a1, a2) = (*a).fork();
                    (
                        IdTree::SubTree(Box::new(a1), Box::new(IdTree::Zero)),
                        IdTree::SubTree(Box::new(a2), Box::new(IdTree::Zero)),
                    )
                } else {
                    (IdTree::SubTree(a, Box::new(IdTree::Zero)), IdTree::SubTree(Box::new(IdTree::Zero), b))
                }
            },
        }
    }

    /// Merges two shares into the share that owns what either of them owns.
    ///
    /// The result is in normal form where both arguments are.
    pub fn join(self, other: Self) -> (r: Self)
        ensures
            r == self.join_spec(other),
            forall|p: Seq<bool>| #[trigger] r.owns(p) == (self.owns(p) || other.owns(p)),
            self.is_normalized() && other.is_normalized() ==> r.is_normalized(),
        decreases self,
    {
        proof {
            laws::lemma_join_points(self, other);
            laws::lemma_join_normalized(self, other);
        }
        match (self, other) {
            (IdTree::Zero, b) => b,
            (a, IdTree::Zero) => a,
            (IdTree::One, _) => IdTree::One,
            (_, IdTree::One) => IdTree::One,
            (IdTree::SubTree(l0, r0), IdTree::SubTree(l1, r1)) => {
                let l = (*l0).join(*l1).norm();
                let r = (*r0).join(*r1).norm();
                Self::collapsed(l, r)
            },
        }
    }

    /// Brings the tree into normal form without changing the points it owns.
    pub fn norm(&self) -> (r: Self)
        ensures
            r == self.norm_spec(),
            r.is_normalized(),
            r.same_points(*self),
        decreases *self,
    {
        proof {
            laws::lemma_norm(*self);
        }
        match self {
            IdTree::SubTree(l, r) => {
                let l = l.norm();
                let r = r.norm();
                Self::collapsed(l, r)
            },
            _ => self.clone(),
        }
    }

    /// Appends the text form of the tree to a string.
    pub fn write_text(&self, s: &mut String)
        ensures
            final(s)@ == old(s)@ + self.text(),
        decreases *self,
    {
        proof {
            reveal_strlit("0");
            reveal_strlit("1");
            reveal_strlit("(");
            reveal_strlit(", ");
            reveal_strlit(")");
        }
        match self {
            IdTree::Zero => {
                s.append("0");
                assert(s@ =~= old(s)@ + self.text());
            },
            IdTree::One => {
                s.append("1");
                assert(s@ =~= old(s)@ + self.text());
            },
            IdTree::SubTree(l, r) => {
                s.append("(");
                l.write_text(s);
                s.append(", ");
                r.write_text(s);
                s.append(")");
                assert(s@ =~= old(s)@ + self.text());
            },
        }
    }

    /// The text form of the tree.
    pub fn to_string(&self) -> (r: String)
        ensures
            r@ == self.text(),
    {
        let mut s = String::new();
        self.write_text(&mut s);
        assert(s@ =~= self.text());
        s
    }

    fn collapsed(l: IdTree, r: IdTree) -> (t: IdTree)
        ensures
            t == Self::collapse(l, r),
    {
        if l.is_zero() && r.is_zero() {
            IdTree::Zero
        } else if l.is_one() && r.is_one() {
            IdTree::One
        } else {
            IdTree::SubTree(Box::new(l), Box::new(r))
        }
    }

    fn same(&self, other: &Self) -> (b: bool)
        ensures
            b == (*self == *other),
        decreases *self,
    {
        match (self, other) {
            (IdTree::Zero, IdTree::Zero) => true,
            (IdTree::One, IdTree::One) => true,
            (IdTree::SubTree(l0, r0), IdTree::SubTree(l1, r1)) => l0.same(l1) && r0.same(r1),
            _ => false,
        }
    }
}

impl Clone for IdTree {
    fn clone(&self) -> (r: Self)
        ensures
            r == *self,
        decreases *self,
    {
        match self {
            IdTree::Zero => IdTree::Zero,
            IdTree::One => IdTree::One,
            IdTree::SubTree(l, r) => {
                let lc = (&**l).clone();
                let rc = (&**r).clone();
                IdTree::SubTree(Box::new(lc), Box::new(rc))
            },
        }
    }
}

impl PartialEq for IdTree {
    fn eq(&self, other: &Self) -> (b: bool) {
        self.same(other)
    }
}

impl Eq for IdTree {

}

impl vstd::std_specs::cmp::PartialEqSpecImpl for IdTree {
    open spec fn obeys_eq_spec() -> bool {
        true
    }

    open spec fn eq_spec(&self, other: &Self) -> bool {
        *self == *other
    }
}

impl Default for IdTree {
    fn default() -> (r: Self)
        ensures
            r == IdTree::One,
    {
        IdTree::One
    }
}

} // verus!
