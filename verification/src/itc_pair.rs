//! A participant: a share of the unit interval together with a causal clock.
use vstd::prelude::*;
use vstd::string::StringExecFns;
use crate::event_tree::EventTree;
use crate::id_tree::IdTree;

verus! {

/// A share of the unit interval, bound to the history that its holder knows.
#[derive(Debug)]
pub struct ItcPair {
    /// The share under which the holder records events.
    pub id: IdTree,
    /// What the holder knows to have happened.
    pub timestamp: EventTree,
}

impl ItcPair {
    /// The text form: the share and the history, with a bar between them.
    pub open spec fn text(self) -> Seq<char> {
        self.id.text() + seq![' ', '|', ' '] + self.timestamp.text()
    }

    /// The first participant: the whole interval, and no event.
    pub fn new() -> (r: Self)
        ensures
            r.id == IdTree::One,
            r.timestamp == EventTree::Leaf(0),
    {
        ItcPair { id: IdTree::One, timestamp: EventTree::Leaf(0) }
    }

    /// A participant with the share `id` that knows of no event.
    pub fn from(id: IdTree) -> (r: Self)
        ensures
            r.id == id,
            r.timestamp == EventTree::Leaf(0),
    {
        ItcPair { id, timestamp: EventTree::new() }
    }

    /// Splits the share in two: `self` keeps the first part, and the second
    /// goes to a new participant that knows what `self` knows.
    pub fn fork(&mut self) -> (r: ItcPair)
        ensures
            final(self).id == old(self).id.fork_spec().0,
            r.id == old(self).id.fork_spec().1,
            final(self).timestamp == old(self).timestamp,
            r.timestamp == old(self).timestamp,
            final(self).id.disjoint(r.id),
            old(self).id.is_normalized() ==> final(self).id.is_normalized()
                && r.id.is_normalized(),
    {
        let timestamp = self.timestamp.clone();
        ItcPair { id: self.fork_id(), timestamp }
    }

    /// Splits the share in two: `self` keeps the first part, and the second
    /// is returned.
    pub fn fork_id(&mut self) -> (r: IdTree)
        ensures
            final(self).id == old(self).id.fork_spec().0,
            r == old(self).id.fork_spec().1,
            final(self).timestamp == old(self).timestamp,
            final(self).id.disjoint(r),
            old(self).id.is_normalized() ==> final(self).id.is_normalized() && r.is_normalized(),
    {
        let mut id = IdTree::One;
        std::mem::swap(&mut id, &mut self.id);
        let (my_id, other) = id.fork();
        self.id = my_id;
        other
    }

    /// Takes over a participant: its history is merged into that of `self`,
    /// and its share into the share of `self`.
    pub fn join(&mut self, other: ItcPair)
        requires
            old(self).timestamp.wf(),
            other.timestamp.wf(),
        ensures
            final(self).timestamp == old(self).timestamp.join_spec(other.timestamp),
            final(self).id == old(self).id.join_spec(other.id),
            final(self).timestamp.is_normalized(),
            final(self).timestamp.wf(),
            old(self).timestamp.leq(final(self).timestamp),
            other.timestamp.leq(final(self).timestamp),
            forall|p: Seq<bool>|
                #[trigger] final(self).id.owns(p) == (old(self).id.owns(p) || other.id.owns(p)),
    {
        self.sync(&other.timestamp);
        let mut id = IdTree::One;
        std::mem::swap(&mut id, &mut self.id);
        self.id = id.join(other.id);
    }

    /// Learns of a history: merges `other` into what `self` knows.
    pub fn sync(&mut self, other: &EventTree)
        requires
            old(self).timestamp.wf(),
            other.wf(),
        ensures
            final(self).timestamp == old(self).timestamp.join_spec(*other),
            final(self).id == old(self).id,
            final(self).timestamp.is_normalized(),
            final(self).timestamp.wf(),
            old(self).timestamp.leq(final(self).timestamp),
            other.leq(final(self).timestamp),
    {
        let other = other.clone();
        let mut timestamp = EventTree::Leaf(0);
        std::mem::swap(&mut timestamp, &mut self.timestamp);
        proof {
            crate::event_tree::laws::lemma_join_least_upper_bound(timestamp, other, other);
        }
        self.timestamp = timestamp.join(other);
    }

    /// Records an event under the share of `self`.
    pub fn event(&mut self)
        requires
            old(self).id.is_normalized(),
            old(self).id != IdTree::Zero,
            old(self).timestamp.max_spec() < u64::MAX,
            (old(self).timestamp.depth_spec() + 2) * old(self).id.depth_spec() <= u64::MAX,
        ensures
            final(self).timestamp == old(self).timestamp.event_spec(old(self).id),
            final(self).id == old(self).id,
            final(self).timestamp.is_normalized(),
            final(self).timestamp.wf(),
            old(self).timestamp.leq(final(self).timestamp),
            old(self).timestamp.is_normalized() ==> !final(self).timestamp.leq(
                old(self).timestamp,
            ),
            forall|p: Seq<bool>|
                !old(self).id.owns(p) ==> #[trigger] final(self).timestamp.value_at(p) == old(
                    self,
                ).timestamp.value_at(p),
    {
        let mut timestamp = EventTree::Leaf(0);
        std::mem::swap(&mut timestamp, &mut self.timestamp);
        let ghost before = timestamp;
        self.timestamp = timestamp.event(&self.id);
        proof {
            if before.is_normalized() {
                let p = choose|p: Seq<bool>|
                    self.id.owns(p) && #[trigger] self.timestamp.value_at(p) > before.value_at(p);
                assert(!(self.timestamp.value_at(p) <= before.value_at(p)));
            }
        }
    }

    /// The text form of the participant.
    pub fn to_string(&self) -> (r: String)
        ensures
            r@ == self.text(),
    {
        proof {
            reveal_strlit(" | ");
        }
        let mut s = String::new();
        self.id.write_text(&mut s);
        s.append(" | ");
        self.timestamp.write_text(&mut s);
        assert(s@ =~= self.text());
        s
    }
}

impl Clone for ItcPair {
    fn clone(&self) -> (r: Self)
        ensures
            r == *self,
    {
        ItcPair { id: self.id.clone(), timestamp: self.timestamp.clone() }
    }
}

impl Default for ItcPair {
    fn default() -> (r: Self)
        ensures
            r.id == IdTree::One,
            r.timestamp == EventTree::Leaf(0),
    {
        ItcPair { id: IdTree::One, timestamp: EventTree::Leaf(0) }
    }
}

} // verus!
