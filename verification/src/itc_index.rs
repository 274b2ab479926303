//! The index of a replicated map: which storage slot each part of the unit
//! interval belongs to.
use std::collections::HashSet;
use vstd::prelude::*;
use vstd::std_specs::hash::{group_hash_axioms, spec_hash_keys_iter};
use vstd::std_specs::iter::IteratorSpec;
use vstd::string::StringExecFns;
use crate::event_tree::EventTree;
use crate::id_tree::IdTree;
use crate::point::{goes_right, rest};
use crate::text::{decimal, push_decimal};

pub mod laws;

verus! {

/// A map from the points of the unit interval `[0, 1)` to storage slots.
#[derive(Debug)]
pub enum ItcIndex {
    /// No point of the region belongs to a slot.
    Unknown,
    /// Every point of the region belongs to this slot.
    Leaf(usize),
    /// The region is cut in two halves, each with an index of its own.
    SubTree(Box<ItcIndex>, Box<ItcIndex>),
}

impl ItcIndex {
    /// The slot that the point `p` belongs to, if any.
    pub open spec fn slot_at(self, p: Seq<bool>) -> Option<usize>
        decreases self,
    {
        match self {
            ItcIndex::Unknown => None,
            ItcIndex::Leaf(s) => Some(s),
            ItcIndex::SubTree(l, r) => if goes_right(p) {
                r.slot_at(rest(p))
            } else {
                l.slot_at(rest(p))
            },
        }
    }

    /// The slots that occur in the index.
    pub open spec fn slots(self) -> Set<usize>
        decreases self,
    {
        match self {
            ItcIndex::Unknown => Set::empty(),
            ItcIndex::Leaf(s) => set![s],
            ItcIndex::SubTree(l, r) => l.slots().union(r.slots()),
        }
    }

    /// Number of levels of the tree; a leaf has one.
    pub open spec fn depth_spec(self) -> nat
        decreases self,
    {
        match self {
            ItcIndex::SubTree(l, r) => 1 + if l.depth_spec() >= r.depth_spec() {
                l.depth_spec()
            } else {
                r.depth_spec()
            },
            _ => 1,
        }
    }

    /// Normal form: no node has two unknown halves, or two halves that are
    /// the same slot.
    pub open spec fn is_normalized(self) -> bool
        decreases self,
    {
        match self {
            ItcIndex::SubTree(l, r) => {
                &&& l.is_normalized()
                &&& r.is_normalized()
                &&& !(*l is Unknown && *r is Unknown)
                &&& !(*l is Leaf && *r is Leaf && *l == *r)
            },
            _ => true,
        }
    }

    /// The node over the given halves, collapsed where both are unknown or
    /// both are the same slot.
    pub open spec fn collapse(l: ItcIndex, r: ItcIndex) -> ItcIndex {
        if l is Unknown && r is Unknown {
            ItcIndex::Unknown
        } else if l is Leaf && r is Leaf && l == r {
            l
        } else {
            ItcIndex::SubTree(Box::new(l), Box::new(r))
        }
    }

    /// The normal form of the index, from the leaves up to the root.
    pub open spec fn norm_spec(self) -> ItcIndex
        decreases self,
    {
        match self {
            ItcIndex::SubTree(l, r) => Self::collapse(l.norm_spec(), r.norm_spec()),
            _ => self,
        }
    }

    /// The slot that the share `id` resolves to: the slot of the first region
    /// that the share owns whole, from the left, where the index has one slot
    /// for just that region.
    pub open spec fn get_spec(self, id: IdTree) -> Option<usize>
        decreases self,
    {
        match (self, id) {
            (ItcIndex::Leaf(s), IdTree::One) => Some(s),
            (ItcIndex::SubTree(l0, r0), IdTree::SubTree(l1, r1)) => {
                if l0.get_spec(*l1) is Some {
                    l0.get_spec(*l1)
                } else {
                    r0.get_spec(*r1)
                }
            },
            _ => None,
        }
    }

    /// The index after the share `id` has been given to the slot `idx`.
    ///
    /// Each region that the share owns whole becomes the slot `idx`. A slot
    /// that held a region which the share owns part of loses that region
    /// whole. Every node that is built anew is brought to normal form.
    pub open spec fn insert_spec(self, id: IdTree, idx: usize) -> ItcIndex
        decreases self.depth_spec() + id.depth_spec(),
    {
        match (self, id) {
            (_, IdTree::Zero) => self,
            (_, IdTree::One) => ItcIndex::Leaf(idx),
            (ItcIndex::SubTree(l0, r0), IdTree::SubTree(l1, r1)) => ItcIndex::SubTree(
                Box::new(l0.insert_spec(*l1, idx)),
                Box::new(r0.insert_spec(*r1, idx)),
            ).norm_spec(),
            (_, IdTree::SubTree(l1, r1)) => ItcIndex::SubTree(
                Box::new(ItcIndex::Unknown.insert_spec(*l1, idx)),
                Box::new(ItcIndex::Unknown.insert_spec(*r1, idx)),
            ).norm_spec(),
        }
    }

    /// The slots that lose a region when the share `id` is given to a slot:
    /// those of the regions that the share owns whole or in part.
    pub open spec fn displaced_spec(self, id: IdTree) -> Set<usize>
        decreases self,
    {
        match (self, id) {
            (_, IdTree::Zero) => Set::empty(),
            (ItcIndex::Unknown, _) => Set::empty(),
            (ItcIndex::Leaf(old), _) => set![old],
            (ItcIndex::SubTree(_, _), IdTree::One) => self.slots(),
            (ItcIndex::SubTree(l0, r0), IdTree::SubTree(l1, r1)) => l0.displaced_spec(*l1).union(
                r0.displaced_spec(*r1),
            ),
        }
    }

    /// The index without the slot `idx` in the share `id`: every region of
    /// that slot which the share owns becomes unknown, a leaf of the slot being
    /// cut where the share owns part of it, and the result is brought to
    /// normal form.
    pub open spec fn purge_spec(self, id: IdTree, idx: usize) -> ItcIndex
        decreases self.depth_spec() + id.depth_spec(),
    {
        match (self, id) {
            (_, IdTree::Zero) => self.norm_spec(),
            (ItcIndex::Unknown, _) => self,
            (ItcIndex::Leaf(old), IdTree::One) => if old == idx {
                ItcIndex::Unknown
            } else {
                self
            },
            (ItcIndex::Leaf(old), IdTree::SubTree(l1, r1)) => if old == idx {
                ItcIndex::SubTree(
                    Box::new(self.purge_spec(*l1, idx)),
                    Box::new(self.purge_spec(*r1, idx)),
                ).norm_spec()
            } else {
                self
            },
            (ItcIndex::SubTree(l0, r0), IdTree::One) => ItcIndex::SubTree(
                Box::new(l0.purge_spec(id, idx)),
                Box::new(r0.purge_spec(id, idx)),
            ).norm_spec(),
            (ItcIndex::SubTree(l0, r0), IdTree::SubTree(l1, r1)) => ItcIndex::SubTree(
                Box::new(l0.purge_spec(*l1, idx)),
                Box::new(r0.purge_spec(*r1, idx)),
            ).norm_spec(),
        }
    }

    /// The index with a partial index laid over it: where the partial index
    /// knows a slot or is cut further than the index, its region is taken
    /// whole; where it knows nothing, the index stays.
    pub open spec fn apply_spec(self, partial: ItcIndex) -> ItcIndex
        decreases self,
    {
        match (self, partial) {
            (_, ItcIndex::Unknown) => self,
            (ItcIndex::SubTree(l0, r0), ItcIndex::SubTree(l1, r1)) => ItcIndex::SubTree(
                Box::new(l0.apply_spec(*l1)),
                Box::new(r0.apply_spec(*r1)),
            ),
            _ => partial,
        }
    }

    /// Whether the index gives the share `id`, and nothing else, to the slot
    /// `s`, region by region: where the share owns a region whole, the index
    /// has the slot `s` for just that region, and where the share owns
    /// nothing of a region, the slot does not occur in it.
    pub open spec fn covers(self, id: IdTree, s: usize) -> bool
        decreases self,
    {
        match (self, id) {
            (_, IdTree::Zero) => !self.slots().contains(s),
            (ItcIndex::Leaf(t), IdTree::One) => t == s,
            (ItcIndex::SubTree(l0, r0), IdTree::SubTree(l1, r1)) => l0.covers(*l1, s)
                && r0.covers(*r1, s),
            _ => false,
        }
    }

    /// Whether every point that belongs to the slot `s` is a point of the
    /// share `id`.
    pub open spec fn tracks(self, id: IdTree, s: usize) -> bool {
        forall|p: Seq<bool>| #[trigger] self.slot_at(p) == Some(s) ==> id.owns(p)
    }

    /// The slots that hold a point at which the event tree records an event.
    pub open spec fn query_spec(self, partial: EventTree) -> Set<usize> {
        Set::new(
            |s: usize|
                exists|p: Seq<bool>|
                    self.slot_at(p) == Some(s) && #[trigger] partial.value_at(p) > 0,
        )
    }

    /// The text form: `?` for an unknown region, the number of a slot, or the
    /// two halves in square brackets.
    pub open spec fn text(self) -> Seq<char>
        decreases self,
    {
        match self {
            ItcIndex::Unknown => seq!['?'],
            ItcIndex::Leaf(s) => decimal(s as nat),
            ItcIndex::SubTree(l, r) => seq!['['] + l.text() + seq![',', ' '] + r.text() + seq![']'],
        }
    }

    /// The index in which nothing is known.
    pub fn new() -> (r: Self)
        ensures
            r == ItcIndex::Unknown,
    {
        ItcIndex::Unknown
    }

    /// The node over the given halves, as they are.
    pub fn subtree(left: ItcIndex, right: ItcIndex) -> (r: Self)
        ensures
            r == ItcIndex::SubTree(Box::new(left), Box::new(right)),
    {
        ItcIndex::SubTree(Box::new(left), Box::new(right))
    }

    /// The slot that the share `id` resolves to, if any.
    pub fn get(&self, id: &IdTree) -> (r: Option<usize>)
        ensures
            r == self.get_spec(*id),
            r matches Some(s) ==> self.slots().contains(s),
        decreases *self,
    {
        match (self, id) {
            (ItcIndex::Leaf(idx), IdTree::One) => Some(*idx),
            (ItcIndex::SubTree(l0, r0), IdTree::SubTree(l1, r1)) => {
                if let Some(idx) = l0.get(l1) {
                    Some(idx)
                } else {
                    r0.get(r1)
                }
            },
            _ => None,
        }
    }

    /// Gives the share `id` to the slot `idx`; returns the index after that
    /// and the slots that lost a region to it.
    ///
    /// Every point of the share belongs to `idx` afterwards. Every other
    /// point belongs to the slot that it belonged to, or to none where that
    /// slot is displaced.
    pub fn insert(self, id: &IdTree, idx: usize) -> (r: (ItcIndex, HashSet<usize>))
        ensures
            r.0 == self.insert_spec(*id, idx),
            r.1@ == self.displaced_spec(*id),
            *id != IdTree::Zero || self.is_normalized() ==> r.0.is_normalized(),
            forall|p: Seq<bool>| id.owns(p) ==> #[trigger] r.0.slot_at(p) == Some(idx),
            forall|p: Seq<bool>|
                !id.owns(p) ==> #[trigger] r.0.slot_at(p) == self.slot_at(p) || (r.0.slot_at(p)
                    is None && self.slot_at(p) is Some && r.1@.contains(self.slot_at(p).unwrap())),
    {
        proof {
            laws::lemma_insert_points(self, *id, idx);
            laws::lemma_insert_normalized(self, *id, idx);
        }
        broadcast use group_hash_axioms;

        let mut displaced: HashSet<usize> = HashSet::new();
        let index = self.insert_recurse(id, idx, &mut displaced);
        assert(displaced@ =~= self.displaced_spec(*id));
        (index, displaced)
    }

    /// Gives the share `id` to the slot `idx`, and adds the slots that lose a
    /// region to `displaced`.
    pub fn insert_recurse(self, id: &IdTree, idx: usize, displaced: &mut HashSet<usize>) -> (r:
        ItcIndex)
        ensures
            r == self.insert_spec(*id, idx),
            final(displaced)@ == old(displaced)@.union(self.displaced_spec(*id)),
        decreases self.depth_spec() + id.depth_spec(),
    {
        broadcast use group_hash_axioms;

        let ghost want = old(displaced)@.union(self.displaced_spec(*id));
        let r = match (self, id) {
            (s, IdTree::Zero) => s,
            (ItcIndex::Unknown, IdTree::One) => ItcIndex::Leaf(idx),
            (ItcIndex::Unknown, IdTree::SubTree(l, r)) => {
                let l = ItcIndex::Unknown.insert_recurse(l, idx, displaced);
                let r = ItcIndex::Unknown.insert_recurse(r, idx, displaced);
                ItcIndex::SubTree(Box::new(l), Box::new(r)).norm()
            },
            (ItcIndex::Leaf(old), IdTree::One) => {
                displaced.insert(old);
                ItcIndex::Leaf(idx)
            },
            (ItcIndex::Leaf(old), IdTree::SubTree(l, r)) => {
                let l = ItcIndex::Unknown.insert_recurse(l, idx, displaced);
                let r = ItcIndex::Unknown.insert_recurse(r, idx, displaced);
                displaced.insert(old);
                ItcIndex::SubTree(Box::new(l), Box::new(r)).norm()
            },
            (ItcIndex::SubTree(l0, r0), IdTree::One) => {
                proof {
                    laws::lemma_displaced_whole(*l0);
                    laws::lemma_displaced_whole(*r0);
                }
                let _ = (*l0).insert_recurse(id, idx, displaced);
                let _ = (*r0).insert_recurse(id, idx, displaced);
                ItcIndex::Leaf(idx)
            },
            (ItcIndex::SubTree(l0, r0), IdTree::SubTree(l1, r1)) => {
                let l = (*l0).insert_recurse(l1, idx, displaced);
                let r = (*r0).insert_recurse(r1, idx, displaced);
                ItcIndex::SubTree(Box::new(l), Box::new(r)).norm()
            },
        };
        assert(displaced@ =~= want);
        r
    }

    /// Lays a partial index over the index. Every point that belongs to a
    /// slot in the partial index belongs to that slot in the result.
    pub fn apply(self, partial: ItcIndex) -> (r: Self)
        ensures
            r == self.apply_spec(partial),
            forall|p: Seq<bool>|
                partial.slot_at(p) is Some ==> #[trigger] r.slot_at(p) == partial.slot_at(p),
        decreases self,
    {
        proof {
            laws::lemma_apply(self, partial);
        }
        match (self, partial) {
            (s, ItcIndex::Unknown) => s,
            (ItcIndex::SubTree(l0, r0), ItcIndex::SubTree(l1, r1)) => ItcIndex::SubTree(
                Box::new((*l0).apply(*l1)),
                Box::new((*r0).apply(*r1)),
            ),
            (_, p) => p,
        }
    }

    /// Brings the index into normal form without changing the slot of any
    /// point.
    pub fn norm(self) -> (r: Self)
        ensures
            r == self.norm_spec(),
            r.is_normalized(),
            forall|p: Seq<bool>| #[trigger] r.slot_at(p) == self.slot_at(p),
        decreases self,
    {
        proof {
            laws::lemma_norm(self);
        }
        match self {
            ItcIndex::SubTree(l, r) => {
                let l = (*l).norm();
                let r = (*r).norm();
                Self::collapsed(l, r)
            },
            _ => self,
        }
    }

    fn collapsed(l: ItcIndex, r: ItcIndex) -> (t: ItcIndex)
        ensures
            t == Self::collapse(l, r),
    {
        match (l, r) {
            (ItcIndex::Unknown, ItcIndex::Unknown) => ItcIndex::Unknown,
            (ItcIndex::Leaf(a), ItcIndex::Leaf(b)) => {
                if a == b {
                    ItcIndex::Leaf(a)
                } else {
                    ItcIndex::SubTree(Box::new(ItcIndex::Leaf(a)), Box::new(ItcIndex::Leaf(b)))
                }
            },
            (l, r) => ItcIndex::SubTree(Box::new(l), Box::new(r)),
        }
    }

    /// Takes the slot `idx` out of the index within the share `id`: every
    /// point of the share that belonged to `idx` belongs to no slot
    /// afterwards, every other point belongs to the slot that it belonged to,
    /// and the result is in normal form.
    pub fn purge(self, id: &IdTree, idx: usize) -> (r: ItcIndex)
        ensures
            r == self.purge_spec(*id, idx),
            r.is_normalized(),
            forall|p: Seq<bool>| #[trigger]
                r.slot_at(p) == if id.owns(p) && self.slot_at(p) == Some(idx) {
                    None
                } else {
                    self.slot_at(p)
                },
        decreases self.depth_spec() + id.depth_spec(),
    {
        proof {
            laws::lemma_purge(self, *id, idx);
        }
        match (self, id) {
            (s, IdTree::Zero) => s.norm(),
            (ItcIndex::Unknown, _) => ItcIndex::Unknown,
            (ItcIndex::Leaf(old), IdTree::One) => {
                if old == idx {
                    ItcIndex::Unknown
                } else {
                    ItcIndex::Leaf(old)
                }
            },
            (ItcIndex::Leaf(old), IdTree::SubTree(l1, r1)) => {
                if old == idx {
                    let l = ItcIndex::Leaf(old).purge(l1, idx);
                    let r = ItcIndex::Leaf(old).purge(r1, idx);
                    ItcIndex::SubTree(Box::new(l), Box::new(r)).norm()
                } else {
                    ItcIndex::Leaf(old)
                }
            },
            (ItcIndex::SubTree(l0, r0), IdTree::One) => {
                let l = (*l0).purge(id, idx);
                let r = (*r0).purge(id, idx);
                ItcIndex::SubTree(Box::new(l), Box::new(r)).norm()
            },
            (ItcIndex::SubTree(l0, r0), IdTree::SubTree(l1, r1)) => {
                let l = (*l0).purge(l1, idx);
                let r = (*r0).purge(r1, idx);
                ItcIndex::SubTree(Box::new(l), Box::new(r)).norm()
            },
        }
    }

    /// The slots that hold a point at which the event tree records an event,
    /// each once.
    pub fn query(&self, partial: &EventTree) -> (r: Vec<usize>)
        ensures
            r@.no_duplicates(),
            forall|s: usize| r@.contains(s) <==> self.query_spec(*partial).contains(s),
    {
        broadcast use group_hash_axioms;

        let mut found: HashSet<usize> = HashSet::new();
        self.query_recurse(partial, &mut found);
        slots_of(&found)
    }

    /// Adds to `found` the slots that hold a point at which the event tree
    /// records an event.
    pub fn query_recurse(&self, partial: &EventTree, found: &mut HashSet<usize>)
        ensures
            final(found)@ == old(found)@.union(self.query_spec(*partial)),
        decreases self.depth_spec() + partial.depth_spec(),
    {
        broadcast use group_hash_axioms;

        proof {
            laws::lemma_query(*self, *partial);
        }
        let ghost want = old(found)@.union(self.query_spec(*partial));
        match (self, partial) {
            (ItcIndex::Unknown, _) => {},
            (ItcIndex::Leaf(idx), EventTree::Leaf(v)) => {
                if *v > 0 {
                    found.insert(*idx);
                }
            },
            (ItcIndex::SubTree(l, r), EventTree::Leaf(v)) => {
                if *v > 0 {
                    proof {
                        laws::lemma_query(**l, *partial);
                        laws::lemma_query(**r, *partial);
                    }
                    l.query_recurse(partial, found);
                    r.query_recurse(partial, found);
                }
            },
            (ItcIndex::Leaf(idx), EventTree::SubTree(v, l, r)) => {
                if *v > 0 {
                    found.insert(*idx);
                } else {
                    self.query_recurse(l, found);
                    self.query_recurse(r, found);
                }
            },
            (ItcIndex::SubTree(l0, r0), EventTree::SubTree(v, l1, r1)) => {
                if *v > 0 {
                    let everywhere = EventTree::Leaf(1);
                    proof {
                        laws::lemma_query(**l0, everywhere);
                        laws::lemma_query(**r0, everywhere);
                    }
                    l0.query_recurse(&everywhere, found);
                    r0.query_recurse(&everywhere, found);
                } else {
                    l0.query_recurse(l1, found);
                    r0.query_recurse(r1, found);
                }
            },
        }
        assert(found@ =~= want);
    }

    /// Whether the index is in normal form.
    pub fn check_normalized(&self) -> (b: bool)
        ensures
            b == self.is_normalized(),
        decreases *self,
    {
        match self {
            ItcIndex::SubTree(l, r) => {
                let same = match (&**l, &**r) {
                    (ItcIndex::Unknown, ItcIndex::Unknown) => true,
                    (ItcIndex::Leaf(a), ItcIndex::Leaf(b)) => *a == *b,
                    _ => false,
                };
                l.check_normalized() && r.check_normalized() && !same
            },
            _ => true,
        }
    }

    /// Whether the slot `s` occurs in the index.
    pub fn has_slot(&self, s: usize) -> (b: bool)
        ensures
            b == self.slots().contains(s),
        decreases *self,
    {
        match self {
            ItcIndex::Unknown => false,
            ItcIndex::Leaf(t) => *t == s,
            ItcIndex::SubTree(l, r) => l.has_slot(s) || r.has_slot(s),
        }
    }

    /// Whether the index gives the share `id`, and nothing else, to the slot
    /// `s`.
    pub fn check_covers(&self, id: &IdTree, s: usize) -> (b: bool)
        ensures
            b == self.covers(*id, s),
        decreases *self,
    {
        match (self, id) {
            (_, IdTree::Zero) => !self.has_slot(s),
            (ItcIndex::Leaf(t), IdTree::One) => *t == s,
            (ItcIndex::SubTree(l0, r0), IdTree::SubTree(l1, r1)) => {
                l0.check_covers(l1, s) && r0.check_covers(r1, s)
            },
            _ => false,
        }
    }

    /// Appends the text form of the index to a string.
    pub fn write_text(&self, s: &mut String)
        ensures
            final(s)@ == old(s)@ + self.text(),
        decreases *self,
    {
        proof {
            reveal_strlit("?");
            reveal_strlit("[");
            reveal_strlit(", ");
            reveal_strlit("]");
        }
        match self {
            ItcIndex::Unknown => {
                s.append("?");
                assert(s@ =~= old(s)@ + self.text());
            },
            ItcIndex::Leaf(idx) => {
                push_decimal(s, *idx as u64);
            },
            ItcIndex::SubTree(l, r) => {
                s.append("[");
                l.write_text(s);
                s.append(", ");
                r.write_text(s);
                s.append("]");
                assert(s@ =~= old(s)@ + self.text());
            },
        }
    }

    /// The text form of the index.
    pub fn to_string(&self) -> (r: String)
        ensures
            r@ == self.text(),
    {
        let mut s = String::new();
        self.write_text(&mut s);
        assert(s@ =~= self.text());
        s
    }
}

/// The slots of a set as a list, each once, in the order in which the set
/// gives them.
pub fn slots_of(set: &HashSet<usize>) -> (r: Vec<usize>)
    ensures
        r@.no_duplicates(),
        forall|s: usize| r@.contains(s) <==> set@.contains(s),
{
    broadcast use group_hash_axioms;

    let ghost keys = spec_hash_keys_iter(set).remaining();
    let mut out: Vec<usize> = Vec::new();
    for x in it: set.iter()
        invariant
            it.seq() == keys,
            out@.len() == it.index(),
            forall|j: int| 0 <= j < out@.len() ==> out@[j] == *(#[trigger] keys[j]),
    {
        out.push(*x);
    }
    proof {
        assert(out@ =~= keys.unref());
        assert forall|i: int, j: int|
            0 <= i < out@.len() && 0 <= j < out@.len() && i != j implies out@[i] != out@[j] by {
            assert(keys[i] != keys[j]);
        }
        assert(out@.to_set() == set@);
    }
    out
}

impl Clone for ItcIndex {
    fn clone(&self) -> (r: Self)
        ensures
            r == *self,
        decreases *self,
    {
        match self {
            ItcIndex::Unknown => ItcIndex::Unknown,
            ItcIndex::Leaf(s) => ItcIndex::Leaf(*s),
            ItcIndex::SubTree(l, r) => {
                let lc = (&**l).clone();
                let rc = (&**r).clone();
                ItcIndex::SubTree(Box::new(lc), Box::new(rc))
            },
        }
    }
}

impl Default for ItcIndex {
    fn default() -> (r: Self)
        ensures
            r == ItcIndex::Unknown,
    {
        ItcIndex::Unknown
    }
}

} // verus!
