//! A replicated map from shares of the unit interval to values, with an event
//! tree as its causal clock.
use vstd::prelude::*;
use vstd::std_specs::cmp::PartialEqSpec;
use vstd::string::StringExecFns;
use crate::event_tree::laws::lemma_join_least_upper_bound;
use crate::event_tree::EventTree;
use crate::id_tree::IdTree;
use crate::itc_index::{slots_of, ItcIndex};
use crate::itc_index::laws::{lemma_covers_get, lemma_covers_points, lemma_slots_points};
use crate::itc_map::laws::{
    lemma_put_slots, lemma_upsert_slots, lemma_after_insert, lemma_after_purge, lemma_entries_disjoint, lemma_entries_text_prefix,
    lemma_live_distinct, lemma_live_slot, lemma_live_step, lemma_missing_is_ahead, lemma_patch,
    lemma_patch_taken_over, lemma_put, lemma_queried, lemma_removed, lemma_slot_live,
    lemma_slots_map, lemma_take_step, lemma_upsert,
};

pub mod laws;

verus! {

/// The entries among a map's storage slots, in the order of the slots.
pub open spec fn live<T>(data: Seq<Option<(IdTree, T)>>) -> Seq<(IdTree, T)>
    decreases data.len(),
{
    if data.len() == 0 {
        Seq::empty()
    } else {
        match data.last() {
            Some(e) => live(data.drop_last()).push(e),
            None => live(data.drop_last()),
        }
    }
}

/// The share of the entry in the storage slot `s`.
pub open spec fn id_at<T>(data: Seq<Option<(IdTree, T)>>, s: int) -> IdTree {
    data[s].unwrap().0
}

/// The value of the entry in the storage slot `s`.
pub open spec fn value_at<T>(data: Seq<Option<(IdTree, T)>>, s: int) -> T {
    data[s].unwrap().1
}

/// The keys of a map that have a point in common with the share `id`.
pub open spec fn overlapping<T>(m: Map<IdTree, T>, id: IdTree) -> Set<IdTree> {
    Set::new(|k: IdTree| m.contains_key(k) && !k.disjoint(id))
}

/// The map after `value` has been put under the share `id`: the entries whose
/// shares have a point in common with `id` are gone, and `id` has `value`.
pub open spec fn put<T>(m: Map<IdTree, T>, id: IdTree, value: T) -> Map<IdTree, T> {
    m.remove_keys(overlapping(m, id)).insert(id, value)
}

/// The first storage slot from `from` on that holds no entry, or the number of
/// slots where each of them holds one.
pub open spec fn first_free_from<T>(slots: Seq<Option<(IdTree, T)>>, from: int) -> int
    decreases slots.len() - from,
{
    if from < 0 || from >= slots.len() {
        slots.len() as int
    } else if slots[from] is None {
        from
    } else {
        first_free_from(slots, from + 1)
    }
}

/// The storage slots after `value` has been put under the share `id`.
///
/// Where the share is the key of an entry, the new entry takes its slot, and
/// no other slot changes. Else the new entry takes the first free slot, or a
/// new slot at the end where none is free, and every slot with an entry whose
/// share has a point in common with `id` is emptied.
pub open spec fn put_slots<T>(
    slots: Seq<Option<(IdTree, T)>>,
    id: IdTree,
    value: T,
) -> Seq<Option<(IdTree, T)>> {
    if exists|s: int| ItcMap::<T>::holds(slots, s, id) {
        slots.update(choose|s: int| ItcMap::<T>::holds(slots, s, id), Some((id, value)))
    } else {
        let ns = first_free_from(slots, 0);
        let base = if ns < slots.len() {
            slots.update(ns, Some((id, value)))
        } else {
            slots.push(Some((id, value)))
        };
        Seq::new(
            base.len(),
            |s: int|
                if s != ns && base[s] is Some && !id_at(base, s).disjoint(id) {
                    None
                } else {
                    base[s]
                },
        )
    }
}

/// The storage slots after the entries of a patch have been put into the
/// map, one after the other: each entry under whose share `incoming` records
/// an event.
pub open spec fn put_all_slots<T>(
    slots: Seq<Option<(IdTree, T)>>,
    entries: Seq<(IdTree, T)>,
    incoming: EventTree,
) -> Seq<Option<(IdTree, T)>>
    decreases entries.len(),
{
    if entries.len() == 0 {
        slots
    } else {
        let before = put_all_slots(slots, entries.drop_last(), incoming);
        if incoming.contains_spec(entries.last().0) {
            put_slots(before, entries.last().0, entries.last().1)
        } else {
            before
        }
    }
}

/// Whether `removed` holds the entries of `m` whose shares have a point in
/// common with the share `id`, each once and no other.
pub open spec fn displaced_by<T>(removed: Seq<(IdTree, T)>, m: Map<IdTree, T>, id: IdTree) -> bool {
    &&& forall|j: int|
        0 <= j < removed.len() ==> m.contains_key((#[trigger] removed[j]).0) && m[removed[j].0]
            == removed[j].1 && !removed[j].0.disjoint(id)
    &&& forall|i: int, j: int|
        0 <= i < j < removed.len() ==> (#[trigger] removed[i]).0 != (#[trigger] removed[j]).0
    &&& forall|k: IdTree|
        m.contains_key(k) && !k.disjoint(id) ==> exists|j: int|
            0 <= j < removed.len() && (#[trigger] removed[j]).0 == k
}

/// Whether `entries` holds a copy of every entry of `m` under whose share the
/// clock `mine` records more than the clock `theirs` at some point, each once
/// and no other.
pub open spec fn missing_from<T: Clone>(
    entries: Seq<(IdTree, T)>,
    m: Map<IdTree, T>,
    mine: EventTree,
    theirs: EventTree,
) -> bool {
    &&& forall|j: int|
        0 <= j < entries.len() ==> m.contains_key((#[trigger] entries[j]).0) && cloned(
            m[entries[j].0],
            entries[j].1,
        ) && mine.ahead_in(theirs, entries[j].0)
    &&& forall|i: int, j: int|
        0 <= i < j < entries.len() ==> (#[trigger] entries[i]).0 != (#[trigger] entries[j]).0
    &&& forall|k: IdTree|
        (#[trigger] m.contains_key(k)) && mine.ahead_in(theirs, k) ==> exists|j: int|
            0 <= j < entries.len() && (#[trigger] entries[j]).0 == k
}

/// The map after the entries of a patch have been put into it, one after
/// the other: each entry under whose share `incoming` records an event.
pub open spec fn put_all<T>(
    m: Map<IdTree, T>,
    entries: Seq<(IdTree, T)>,
    incoming: EventTree,
) -> Map<IdTree, T>
    decreases entries.len(),
{
    if entries.len() == 0 {
        m
    } else {
        let before = put_all(m, entries.drop_last(), incoming);
        if incoming.contains_spec(entries.last().0) {
            put(before, entries.last().0, entries.last().1)
        } else {
            before
        }
    }
}

/// Whether `removed` holds what the entries of a patch displace as they are
/// put into the map `m` one after the other: for each entry in turn, the
/// entries whose shares have a point in common with its share.
pub open spec fn displaced_by_all<T>(
    removed: Seq<(IdTree, T)>,
    m: Map<IdTree, T>,
    entries: Seq<(IdTree, T)>,
    incoming: EventTree,
) -> bool
    decreases entries.len(),
{
    if entries.len() == 0 {
        removed.len() == 0
    } else if incoming.contains_spec(entries.last().0) {
        exists|n: int|
            0 <= n <= removed.len() && displaced_by_all(
                #[trigger] removed.take(n),
                m,
                entries.drop_last(),
                incoming,
            ) && displaced_by(
                removed.skip(n),
                put_all(m, entries.drop_last(), incoming),
                entries.last().0,
            )
    } else {
        displaced_by_all(removed, m, entries.drop_last(), incoming)
    }
}

/// The shares of the entries of a patch under which `incoming` records an
/// event, in the order of the entries.
pub open spec fn accepted<T>(entries: Seq<(IdTree, T)>, incoming: EventTree) -> Seq<IdTree>
    decreases entries.len(),
{
    if entries.len() == 0 {
        Seq::empty()
    } else if incoming.contains_spec(entries.last().0) {
        accepted(entries.drop_last(), incoming).push(entries.last().0)
    } else {
        accepted(entries.drop_last(), incoming)
    }
}

/// Those of the shares `ids` that are keys of the map `m`, in their order.
pub open spec fn present<T>(ids: Seq<IdTree>, m: Map<IdTree, T>) -> Seq<IdTree>
    decreases ids.len(),
{
    if ids.len() == 0 {
        Seq::empty()
    } else if m.contains_key(ids.last()) {
        present(ids.drop_last(), m).push(ids.last())
    } else {
        present(ids.drop_last(), m)
    }
}

/// The text form of a list of entries: each share, a colon and the text of
/// its value, with commas between the entries.
pub open spec fn entries_text<T>(entries: Seq<(IdTree, T)>, shown: Seq<String>) -> Seq<char>
    decreases entries.len(),
{
    if entries.len() == 0 {
        Seq::empty()
    } else {
        let before = entries_text(entries.drop_last(), shown);
        let sep = if entries.len() == 1 {
            Seq::<char>::empty()
        } else {
            seq![',', ' ']
        };
        before + sep + entries.last().0.text() + seq![':', ' '] + shown[entries.len() - 1]@
    }
}

/// Whether `shown` holds, for each of the entries, a text that `show` can
/// give for its value.
pub open spec fn shown_by<T, F: Fn(&T) -> String>(
    show: F,
    entries: Seq<(IdTree, T)>,
    shown: Seq<String>,
) -> bool {
    &&& shown.len() == entries.len()
    &&& forall|i: int|
        0 <= i < entries.len() ==> call_ensures(show, (&entries[i].1,), #[trigger] shown[i])
}

/// What one map knows beyond a given clock: its own clock, and the entries
/// that the holder of that clock may be missing.
#[derive(Debug)]
pub struct Patch<T> {
    timestamp: EventTree,
    inner: Vec<(IdTree, T)>,
}

impl<T> Patch<T> {
    /// What holds of every patch: the clock is within range, and every share
    /// is in normal form.
    #[verifier::type_invariant]
    pub closed spec fn wf(self) -> bool {
        Self::parts_wf(self.timestamp, self.inner@)
    }

    /// What the parts of a patch need to make up a patch.
    pub open spec fn parts_wf(timestamp: EventTree, entries: Seq<(IdTree, T)>) -> bool {
        &&& timestamp.wf()
        &&& forall|i: int| 0 <= i < entries.len() ==> (#[trigger] entries[i]).0.is_normalized()
    }

    /// The clock of the map that the patch comes from.
    pub closed spec fn timestamp_spec(&self) -> EventTree {
        self.timestamp
    }

    /// The entries that the patch carries.
    pub closed spec fn entries_spec(&self) -> Seq<(IdTree, T)> {
        self.inner@
    }

    /// The patch with the given clock and entries, where the clock is within
    /// range and every share is in normal form, and `None` where not.
    pub fn new(timestamp: EventTree, entries: Vec<(IdTree, T)>) -> (r: Option<Self>)
        ensures
            r is Some <==> Self::parts_wf(timestamp, entries@),
            r matches Some(p) ==> p.timestamp_spec() == timestamp && p.entries_spec() == entries@,
    {
        if timestamp.checked_max().is_none() {
            return None;
        }
        let mut i: usize = 0;
        while i < entries.len()
            invariant
                i <= entries.len(),
                forall|j: int| 0 <= j < i ==> (#[trigger] entries@[j]).0.is_normalized(),
            decreases entries.len() - i,
        {
            if !entries[i].0.check_normalized() {
                return None;
            }
            i += 1;
        }
        Some(Patch { timestamp, inner: entries })
    }

    /// The clock of the map that the patch comes from.
    pub fn timestamp(&self) -> (r: &EventTree)
        ensures
            *r == self.timestamp_spec(),
            r.wf(),
    {
        proof {
            use_type_invariant(self);
        }
        &self.timestamp
    }

    /// The entries that the patch carries.
    pub fn entries(&self) -> (r: &Vec<(IdTree, T)>)
        ensures
            r@ == self.entries_spec(),
            forall|i: int| 0 <= i < r@.len() ==> (#[trigger] r@[i]).0.is_normalized(),
    {
        proof {
            use_type_invariant(self);
        }
        &self.inner
    }

    /// The text form of a patch, given the texts of its values.
    pub open spec fn text(timestamp: EventTree, entries: Seq<(IdTree, T)>, shown: Seq<String>) -> Seq<
        char,
    > {
        seq!['T', 'S', ':'] + timestamp.text() + seq![' ', 'I', 'N', 'N', 'E', 'R', ':']
            + entries_text(entries, shown)
    }

    /// The text form of the patch, each value as `show` gives it.
    pub fn to_string_with<F: Fn(&T) -> String>(&self, show: F) -> (r: String)
        requires
            forall|v: &T| call_requires(show, (v,)),
        ensures
            exists|shown: Seq<String>|
                shown_by(show, self.entries_spec(), shown) && r@ == Self::text(
                    self.timestamp_spec(),
                    self.entries_spec(),
                    shown,
                ),
    {
        proof {
            reveal_strlit("TS:");
            reveal_strlit(" INNER:");
        }
        let mut s = String::new();
        s.append("TS:");
        self.timestamp.write_text(&mut s);
        s.append(" INNER:");
        let ghost head = s@;
        let ghost mut shown: Seq<String> = Seq::empty();
        let mut i: usize = 0;
        while i < self.inner.len()
            invariant
                i <= self.inner@.len(),
                forall|v: &T| call_requires(show, (v,)),
                shown_by(show, self.inner@.take(i as int), shown),
                s@ == head + entries_text(self.inner@.take(i as int), shown),
            decreases self.inner@.len() - i,
        {
            let ghost before = self.inner@.take(i as int);
            let ghost step = self.inner@.take(i + 1);
            let ghost was = shown;
            let e = &self.inner[i];
            let text = show(&e.1);
            proof {
                shown = shown.push(text);
                assert(step.drop_last() =~= before);
                assert(step.last() == self.inner@[i as int]);
                lemma_entries_text_prefix(before, was, shown);
            }
            write_entry(&mut s, i == 0, &e.0, &text);
            i += 1;
            proof {
                assert(s@ =~= head + entries_text(step, shown));
            }
        }
        proof {
            assert(self.inner@.take(i as int) =~= self.inner@);
            assert(s@ =~= Self::text(self.timestamp, self.inner@, shown));
            assert(shown_by(show, self.entries_spec(), shown) && s@ == Self::text(
                self.timestamp_spec(),
                self.entries_spec(),
                shown,
            ));
        }
        s
    }

    /// The clock and the entries of the patch.
    pub fn into_parts(self) -> (r: (EventTree, Vec<(IdTree, T)>))
        ensures
            r.0 == self.timestamp_spec(),
            r.1@ == self.entries_spec(),
            Self::parts_wf(r.0, r.1@),
    {
        proof {
            use_type_invariant(&self);
        }
        let Patch { timestamp, inner } = self;
        (timestamp, inner)
    }
}

/// A replicated map from shares of the unit interval to values.
///
/// No two keys of the map have a point in common: to put a value under a
/// share displaces the entries that the share overlaps.
#[derive(Debug)]
pub struct ItcMap<T> {
    timestamp: EventTree,
    data: Vec<Option<(IdTree, T)>>,
    index: ItcIndex,
}

impl<T> ItcMap<T> {
    /// What holds of every map: the clock is in normal form and within
    /// range; the index is in normal form and holds only slots that hold an
    /// entry; and every entry has a share in normal form that is not empty,
    /// which the index gives to the entry's slot.
    #[verifier::type_invariant]
    pub closed spec fn wf(self) -> bool {
        Self::parts_wf(self.timestamp, self.data@, self.index)
    }

    /// What the parts of a map need to make up a map.
    pub open spec fn parts_wf(
        timestamp: EventTree,
        data: Seq<Option<(IdTree, T)>>,
        index: ItcIndex,
    ) -> bool {
        &&& timestamp.wf()
        &&& timestamp.is_normalized()
        &&& index.is_normalized()
        &&& Self::slots_wf(data, index)
    }

    /// The index holds only slots that hold an entry, and every entry has a
    /// share in normal form that is not empty, which the index gives to the
    /// entry's slot.
    pub open spec fn slots_wf(data: Seq<Option<(IdTree, T)>>, index: ItcIndex) -> bool {
        &&& forall|s: usize| #[trigger]
            index.slots().contains(s) ==> s < data.len() && data[s as int] is Some
        &&& forall|s: int|
            0 <= s < data.len() && (#[trigger] data[s]) is Some ==> {
                &&& id_at(data, s).is_normalized()
                &&& id_at(data, s) != IdTree::Zero
                &&& index.covers(id_at(data, s), s as usize)
                &&& s <= usize::MAX
            }
    }

    /// Whether the slot `s` holds an entry under the share `id`.
    pub open spec fn holds(data: Seq<Option<(IdTree, T)>>, s: int, id: IdTree) -> bool {
        0 <= s < data.len() && data[s] is Some && id_at(data, s) == id
    }

    /// The entries of the storage slots as a map from shares to values.
    pub open spec fn slots_map(data: Seq<Option<(IdTree, T)>>) -> Map<IdTree, T> {
        Map::new(
            |id: IdTree| exists|s: int| Self::holds(data, s, id),
            |id: IdTree| value_at(data, choose|s: int| Self::holds(data, s, id)),
        )
    }

    /// The map from shares to values.
    pub closed spec fn view(&self) -> Map<IdTree, T> {
        Self::slots_map(self.data@)
    }

    /// The causal clock of the map.
    pub closed spec fn timestamp_spec(&self) -> EventTree {
        self.timestamp
    }

    /// The index of the map.
    pub closed spec fn index_spec(&self) -> ItcIndex {
        self.index
    }

    /// The storage slots of the map.
    pub closed spec fn slots_spec(&self) -> Seq<Option<(IdTree, T)>> {
        self.data@
    }

    /// The entries of the map, in the order of their storage slots.
    pub open spec fn entries(&self) -> Seq<(IdTree, T)> {
        live(self.slots_spec())
    }

    /// The empty map, which knows of no event.
    pub fn new() -> (r: Self)
        ensures
            r@ == Map::<IdTree, T>::empty(),
            r.timestamp_spec() == EventTree::Leaf(0),
            r.index_spec() == ItcIndex::Unknown,
            r.slots_spec() == Seq::<Option<(IdTree, T)>>::empty(),
    {
        let r = ItcMap { timestamp: EventTree::Leaf(0), data: Vec::new(), index: ItcIndex::Unknown };
        assert(r@ =~= Map::<IdTree, T>::empty());
        r
    }

    /// The causal clock of the map: what the map knows to have happened.
    pub fn timestamp(&self) -> (r: &EventTree)
        ensures
            *r == self.timestamp_spec(),
            r.wf(),
            r.is_normalized(),
    {
        proof {
            use_type_invariant(self);
        }
        &self.timestamp
    }

    /// The index of the map: which slot each part of the interval belongs to.
    pub fn index(&self) -> (r: &ItcIndex)
        ensures
            *r == self.index_spec(),
    {
        &self.index
    }

    /// The value under the share `id`, if the map has that very share as a
    /// key.
    pub fn get(&self, id: &IdTree) -> (r: Option<&T>)
        ensures
            r == if self@.contains_key(*id) {
                Some(&self@[*id])
            } else {
                None
            },
    {
        proof {
            use_type_invariant(self);
            lemma_slots_map(self.data@, self.index);
        }
        match self.index.get(id) {
            Some(idx) => {
                match &self.data[idx] {
                    Some(e) => {
                        if e.0 == *id {
                            assert(Self::holds(self.data@, idx as int, *id));
                            Some(&e.1)
                        } else {
                            proof {
                                if self@.contains_key(*id) {
                                    let t = choose|t: int| Self::holds(self.data@, t, *id);
                                    lemma_covers_get(self.index, *id, t as usize);
                                }
                            }
                            None
                        }
                    },
                    None => None,
                }
            },
            None => {
                proof {
                    if self@.contains_key(*id) {
                        let t = choose|t: int| Self::holds(self.data@, t, *id);
                        lemma_covers_get(self.index, *id, t as usize);
                    }
                }
                None
            },
        }
    }

    /// Puts `value` under the share `id` and records an event under it.
    ///
    /// The entries whose shares have a point in common with `id` leave the
    /// map and are returned; the clock advances.
    pub fn insert(&mut self, id: IdTree, value: T) -> (removed: Vec<(IdTree, T)>)
        requires
            id.is_normalized(),
            id != IdTree::Zero,
            old(self).timestamp_spec().max_spec() < u64::MAX,
            (old(self).timestamp_spec().depth_spec() + 2) * id.depth_spec() <= u64::MAX,
        ensures
            final(self).timestamp_spec() == old(self).timestamp_spec().event_spec(id),
            old(self).timestamp_spec().leq(final(self).timestamp_spec()),
            !final(self).timestamp_spec().leq(old(self).timestamp_spec()),
            final(self)@ == put(old(self)@, id, value),
            displaced_by(removed@, old(self)@, id),
            final(self).slots_spec() == put_slots(old(self).slots_spec(), id, value),
    {
        self.update_timestamp(&id);
        self.insert_without_event(id, value)
    }

    /// Records an event under the share `id` if the share resolves to a slot
    /// of the map, and says whether it did.
    pub fn event(&mut self, id: &IdTree) -> (r: bool)
        requires
            id.is_normalized(),
            old(self).timestamp_spec().max_spec() < u64::MAX,
            (old(self).timestamp_spec().depth_spec() + 2) * id.depth_spec() <= u64::MAX,
        ensures
            r == old(self).index_spec().get_spec(*id) is Some,
            old(self)@.contains_key(*id) ==> r,
            final(self).timestamp_spec() == if r {
                old(self).timestamp_spec().event_spec(*id)
            } else {
                old(self).timestamp_spec()
            },
            r ==> !final(self).timestamp_spec().leq(old(self).timestamp_spec()),
            old(self).timestamp_spec().leq(final(self).timestamp_spec()),
            final(self)@ == old(self)@,
            final(self).index_spec() == old(self).index_spec(),
            final(self).slots_spec() == old(self).slots_spec(),
    {
        proof {
            use_type_invariant(&*self);
            if self@.contains_key(*id) {
                let t = choose|t: int| Self::holds(self.data@, t, *id);
                lemma_covers_get(self.index, *id, t as usize);
            }
        }
        if self.index.get(id).is_some() {
            self.update_timestamp(id);
            true
        } else {
            false
        }
    }

    /// Records an event under the share `id` on the map's clock.
    fn update_timestamp(&mut self, id: &IdTree)
        requires
            id.is_normalized(),
            *id != IdTree::Zero,
            old(self).timestamp_spec().max_spec() < u64::MAX,
            (old(self).timestamp_spec().depth_spec() + 2) * id.depth_spec() <= u64::MAX,
        ensures
            final(self).timestamp_spec() == old(self).timestamp_spec().event_spec(*id),
            old(self).timestamp_spec().leq(final(self).timestamp_spec()),
            !final(self).timestamp_spec().leq(old(self).timestamp_spec()),
            final(self)@ == old(self)@,
            final(self).index_spec() == old(self).index_spec(),
            final(self).slots_spec() == old(self).slots_spec(),
    {
        let mut this = ItcMap::new();
        std::mem::swap(self, &mut this);
        proof {
            use_type_invariant(&this);
        }
        let ItcMap { timestamp, data, index } = this;
        let ghost before = timestamp;
        let timestamp = timestamp.event(id);
        proof {
            let p = choose|p: Seq<bool>|
                id.owns(p) && #[trigger] timestamp.value_at(p) > before.value_at(p);
            assert(!(timestamp.value_at(p) <= before.value_at(p)));
        }
        *self = ItcMap { timestamp, data, index };
    }

    /// Stores an entry in the first free slot, or in a new slot where none is
    /// free, and returns the slot.
    fn allocate(data: &mut Vec<Option<(IdTree, T)>>, id: IdTree, value: T) -> (idx: usize)
        ensures
            idx <= old(data)@.len(),
            idx < old(data)@.len() ==> old(data)@[idx as int] is None && final(data)@ == old(
                data,
            )@.update(idx as int, Some((id, value))),
            idx == old(data)@.len() ==> final(data)@ == old(data)@.push(Some((id, value))),
            forall|s: int| 0 <= s < idx ==> (#[trigger] old(data)@[s]) is Some,
    {
        let mut i: usize = 0;
        while i < data.len()
            invariant
                i <= data.len(),
                data@ == old(data)@,
                forall|s: int| 0 <= s < i ==> (#[trigger] data@[s]) is Some,
            decreases data.len() - i,
        {
            if data[i].is_none() {
                let _ = put_slot(data, i, Some((id, value)));
                return i;
            }
            i += 1;
        }
        data.push(Some((id, value)));
        i
    }

    /// Puts `value` under the share `id` without recording an event.
    ///
    /// The entries whose shares have a point in common with `id` leave the
    /// map and are returned, among them the entry of `id` itself where the
    /// map had one; the clock stays as it is.
    pub fn insert_without_event(&mut self, id: IdTree, value: T) -> (removed: Vec<(IdTree, T)>)
        requires
            id.is_normalized(),
            id != IdTree::Zero,
        ensures
            final(self).timestamp_spec() == old(self).timestamp_spec(),
            final(self)@ == put(old(self)@, id, value),
            displaced_by(removed@, old(self)@, id),
            final(self).slots_spec() == put_slots(old(self).slots_spec(), id, value),
    {
        let mut this = ItcMap::new();
        std::mem::swap(self, &mut this);
        proof {
            use_type_invariant(&this);
        }
        let ItcMap { timestamp, data, index } = this;
        let mut data = data;
        let ghost data_old = data@;
        let ghost index_old = index;
        proof {
            lemma_slots_map(data_old, index_old);
        }
        let found = index.get(&id);
        let upsert = match found {
            Some(s) => match &data[s] {
                Some(e) => e.0 == id,
                None => false,
            },
            None => false,
        };
        if upsert {
            let s = found.unwrap();
            let before = put_slot(&mut data, s, Some((id.clone(), value)));
            let mut removed: Vec<(IdTree, T)> = Vec::new();
            match before {
                Some(e) => {
                    removed.push((id, e.1));
                },
                None => {},
            }
            proof {
                lemma_upsert(data_old, index_old, s as int, id, value);
                lemma_upsert_slots(data_old, index_old, s as int, id, value);
                assert(removed@[0] == (id, value_at(data_old, s as int)));
            }
            *self = ItcMap { timestamp, data, index };
            removed
        } else {
            proof {
                if exists|t: int| Self::holds(data_old, t, id) {
                    let t = choose|t: int| Self::holds(data_old, t, id);
                    lemma_covers_get(index_old, id, t as usize);
                }
            }
            let ns = Self::allocate(&mut data, id.clone(), value);
            let ghost data0 = data@;
            let (index, displaced) = index.insert(&id, ns);
            let displaced = slots_of(&displaced);
            let mut index = index;
            proof {
                lemma_after_insert(data_old, index_old, id, value, ns, data0, displaced@);
            }
            let mut removed: Vec<(IdTree, T)> = Vec::new();
            let mut i: usize = 0;
            while i < displaced.len()
                invariant
                    i <= displaced@.len(),
                    displaced@.no_duplicates(),
                    data@.len() == data0.len(),
                    forall|j: int|
                        0 <= j < displaced@.len() ==> (#[trigger] displaced@[j]) < data0.len()
                            && data0[displaced@[j] as int] is Some,
                    forall|s: int|
                        0 <= s < data0.len() ==> (#[trigger] data@[s]) == if displaced@.take(
                            i as int,
                        ).contains(s as usize) {
                            None
                        } else {
                            data0[s]
                        },
                    Self::slots_mid(data@, index, displaced@),
                    index.is_normalized(),
                    removed@.len() == i,
                    forall|j: int|
                        0 <= j < i ==> (#[trigger] removed@[j]) == data0[displaced@[j] as int].unwrap(),
                decreases displaced@.len() - i,
            {
                let d = displaced[i];
                proof {
                    lemma_take_step(displaced@, i as int);
                    assert(!displaced@.take(i as int).contains(d)) by {
                        let done = displaced@.take(i as int);
                        if done.contains(d) {
                            let j = choose|j: int| 0 <= j < done.len() && done[j] == d;
                            assert(displaced@[j] == displaced@[i as int]);
                        }
                    }
                    assert(displaced@.contains(d));
                }
                let ghost data_before = data@;
                if let Some(e) = take_slot(&mut data, d) {
                    proof {
                        lemma_after_purge(data_before, index, displaced@, d, data@);
                    }
                    index = index.purge(&e.0, d);
                    removed.push((e.0, e.1));
                }
                i += 1;
            }
            proof {
                assert(displaced@.take(i as int) =~= displaced@);
                lemma_put(data_old, index_old, id, value, ns, data0, displaced@, data@, index);
                lemma_put_slots(data_old, index_old, id, value, ns, data0, displaced@, data@);
                lemma_removed(data_old, index_old, id, displaced@, removed@);
            }
            *self = ItcMap { timestamp, data, index };
            removed
        }
    }

    /// The map made of the given clock, storage slots and index, where they
    /// make up a map, and `None` where not.
    pub fn from_parts(timestamp: EventTree, data: Vec<Option<(IdTree, T)>>, index: ItcIndex) -> (r:
        Option<Self>)
        ensures
            r is Some <==> Self::parts_wf(timestamp, data@, index),
            r matches Some(m) ==> m.timestamp_spec() == timestamp && m.slots_spec() == data@
                && m.index_spec() == index && m@ == Self::slots_map(data@),
    {
        if timestamp.checked_max().is_none() || !timestamp.check_normalized() {
            return None;
        }
        if !index.check_normalized() || !slots_live(&index, &data) {
            return None;
        }
        let mut i: usize = 0;
        while i < data.len()
            invariant
                i <= data@.len(),
                forall|s: int|
                    0 <= s < i && (#[trigger] data@[s]) is Some ==> {
                        &&& id_at(data@, s).is_normalized()
                        &&& id_at(data@, s) != IdTree::Zero
                        &&& index.covers(id_at(data@, s), s as usize)
                        &&& s <= usize::MAX
                    },
            decreases data@.len() - i,
        {
            match &data[i] {
                Some(e) => {
                    if !e.0.check_normalized() || e.0.is_zero() || !index.check_covers(&e.0, i) {
                        return None;
                    }
                },
                None => {},
            }
            i += 1;
        }
        Some(ItcMap { timestamp, data, index })
    }

    /// The text form of a map, given the texts of its values.
    pub open spec fn text(
        timestamp: EventTree,
        index: ItcIndex,
        entries: Seq<(IdTree, T)>,
        shown: Seq<String>,
    ) -> Seq<char> {
        seq!['T', 'S', ':'] + timestamp.text() + seq![' ', 'I', 'N', 'D', 'E', 'X', ':']
            + index.text() + seq![' ', 'D', 'A', 'T', 'A', ':', '{', ' '] + entries_text(
            entries,
            shown,
        ) + seq![' ', '}']
    }

    /// The text form of the map, each value as `show` gives it.
    pub fn to_string_with<F: Fn(&T) -> String>(&self, show: F) -> (r: String)
        requires
            forall|v: &T| call_requires(show, (v,)),
        ensures
            exists|shown: Seq<String>|
                shown_by(show, self.entries(), shown) && r@ == Self::text(
                    self.timestamp_spec(),
                    self.index_spec(),
                    self.entries(),
                    shown,
                ),
    {
        proof {
            reveal_strlit("TS:");
            reveal_strlit(" INDEX:");
            reveal_strlit(" DATA:{ ");
            reveal_strlit(" }");
        }
        let mut s = String::new();
        s.append("TS:");
        self.timestamp.write_text(&mut s);
        s.append(" INDEX:");
        self.index.write_text(&mut s);
        s.append(" DATA:{ ");
        let ghost head = s@;
        let ghost mut shown: Seq<String> = Seq::empty();
        let mut first = true;
        let mut i: usize = 0;
        while i < self.data.len()
            invariant
                i <= self.data@.len(),
                forall|v: &T| call_requires(show, (v,)),
                shown_by(show, live(self.data@.take(i as int)), shown),
                first == (shown.len() == 0),
                s@ == head + entries_text(live(self.data@.take(i as int)), shown),
            decreases self.data@.len() - i,
        {
            proof {
                lemma_live_step(self.data@, i as int);
            }
            match &self.data[i] {
                Some(e) => {
                    let ghost before = live(self.data@.take(i as int));
                    let ghost step = live(self.data@.take(i + 1));
                    let ghost was = shown;
                    let text = show(&e.1);
                    proof {
                        shown = shown.push(text);
                        assert(step.drop_last() =~= before);
                        lemma_entries_text_prefix(before, was, shown);
                    }
                    write_entry(&mut s, first, &e.0, &text);
                    first = false;
                    proof {
                        assert(s@ =~= head + entries_text(step, shown));
                    }
                },
                None => {},
            }
            i += 1;
        }
        s.append(" }");
        proof {
            assert(self.data@.take(i as int) =~= self.data@);
            assert(s@ =~= Self::text(self.timestamp, self.index, self.entries(), shown));
        }
        s
    }

    /// Merges the clock `peer` into the clock of the map.
    fn merge_timestamp(&mut self, peer: EventTree)
        requires
            peer.wf(),
        ensures
            final(self).timestamp_spec() == old(self).timestamp_spec().join_spec(peer),
            final(self)@ == old(self)@,
            final(self).index_spec() == old(self).index_spec(),
            final(self).slots_spec() == old(self).slots_spec(),
    {
        let mut this = ItcMap::new();
        std::mem::swap(self, &mut this);
        proof {
            use_type_invariant(&this);
        }
        let ItcMap { timestamp, data, index } = this;
        let timestamp = timestamp.join(peer);
        *self = ItcMap { timestamp, data, index };
    }

    /// Takes over what a patch brings.
    ///
    /// Of the entries of the patch, those are put into the map, one after the
    /// other, under whose share the patch's clock records an event that the
    /// map's clock does not; the others are passed over. The clock of the
    /// patch is then merged into the clock of the map. Returns the shares
    /// that were put into the map and are still its keys, each with its
    /// value, and the entries that were displaced.
    pub fn apply(&mut self, patch: Patch<T>) -> (r: (Vec<(IdTree, &T)>, Vec<(IdTree, T)>))
        ensures
            final(self).timestamp_spec() == old(self).timestamp_spec().join_spec(
                patch.timestamp_spec(),
            ),
            old(self).timestamp_spec().leq(final(self).timestamp_spec()),
            patch.timestamp_spec().leq(final(self).timestamp_spec()),
            final(self)@ == put_all(
                old(self)@,
                patch.entries_spec(),
                patch.timestamp_spec().diff_spec(old(self).timestamp_spec()),
            ),
            displaced_by_all(
                r.1@,
                old(self)@,
                patch.entries_spec(),
                patch.timestamp_spec().diff_spec(old(self).timestamp_spec()),
            ),
            final(self).slots_spec() == put_all_slots(
                old(self).slots_spec(),
                patch.entries_spec(),
                patch.timestamp_spec().diff_spec(old(self).timestamp_spec()),
            ),
            r.0@.len() == present(
                accepted(
                    patch.entries_spec(),
                    patch.timestamp_spec().diff_spec(old(self).timestamp_spec()),
                ),
                final(self)@,
            ).len(),
            forall|j: int|
                0 <= j < r.0@.len() ==> (#[trigger] r.0@[j]).0 == present(
                    accepted(
                        patch.entries_spec(),
                        patch.timestamp_spec().diff_spec(old(self).timestamp_spec()),
                    ),
                    final(self)@,
                )[j] && final(self)@.contains_key(r.0@[j].0) && *r.0@[j].1 == final(self)@[r.0@[j].0],
    {
        proof {
            use_type_invariant(&*self);
        }
        let ghost m0 = self@;
        let ghost s0 = self.slots_spec();
        let ghost t0 = self.timestamp_spec();
        let (peer_time, entries) = patch.into_parts();
        let ghost all = entries@;
        let time_diff = peer_time.clone().diff(self.timestamp());
        proof {
            lemma_join_least_upper_bound(t0, peer_time, peer_time);
        }
        let mut stack = reversed(entries);
        let n = stack.len();
        let mut removed: Vec<(IdTree, T)> = Vec::new();
        let mut added_ids: Vec<IdTree> = Vec::new();
        let mut i: usize = 0;
        while i < n
            invariant
                i <= n,
                n == all.len(),
                stack@.len() == n - i,
                forall|j: int| 0 <= j < n - i ==> (#[trigger] stack@[j]) == all[n - 1 - j],
                forall|j: int| 0 <= j < all.len() ==> (#[trigger] all[j]).0.is_normalized(),
                self.timestamp_spec() == t0,
                self@ == put_all(m0, all.take(i as int), time_diff),
                self.slots_spec() == put_all_slots(s0, all.take(i as int), time_diff),
                displaced_by_all(removed@, m0, all.take(i as int), time_diff),
                added_ids@ == accepted(all.take(i as int), time_diff),
            decreases n - i,
        {
            proof {
                assert(all.take(i + 1).drop_last() =~= all.take(i as int));
                assert(all.take(i + 1).last() == all[i as int]);
                assert(stack@[n - i - 1] == all[i as int]);
            }
            let e = stack.pop().unwrap();
            if time_diff.contains(&e.0) {
                let ghost before = removed@;
                let ghost m = self@;
                let id = e.0.clone();
                let mut rem = self.insert_without_event(e.0, e.1);
                let ghost taken = rem@;
                removed.append(&mut rem);
                added_ids.push(id);
                proof {
                    let k = before.len() as int;
                    assert(removed@.take(k) =~= before);
                    assert(removed@.skip(k) =~= taken);
                }
            }
            i += 1;
        }
        proof {
            assert(all.take(n as int) =~= all);
        }
        self.merge_timestamp(peer_time);
        let this: &Self = self;
        let mut added: Vec<(IdTree, &T)> = Vec::new();
        let mut j: usize = 0;
        let total = added_ids.len();
        let mut ids = reversed(added_ids);
        let ghost wanted = accepted(all, time_diff);
        while j < total
            invariant
                j <= total,
                total == wanted.len(),
                ids@.len() == total - j,
                forall|k: int| 0 <= k < total - j ==> (#[trigger] ids@[k]) == wanted[total - 1 - k],
                added@.len() == present(wanted.take(j as int), this@).len(),
                forall|k: int|
                    0 <= k < added@.len() ==> (#[trigger] added@[k]).0 == present(
                        wanted.take(j as int),
                        this@,
                    )[k] && this@.contains_key(added@[k].0) && *added@[k].1 == this@[added@[k].0],
            decreases total - j,
        {
            proof {
                assert(wanted.take(j + 1).drop_last() =~= wanted.take(j as int));
                assert(wanted.take(j + 1).last() == wanted[j as int]);
                assert(ids@[total - j - 1] == wanted[j as int]);
            }
            let id = ids.pop().unwrap();
            match this.get(&id) {
                Some(v) => {
                    added.push((id, v));
                },
                None => {},
            }
            j += 1;
        }
        proof {
            assert(wanted.take(total as int) =~= wanted);
        }
        (added, removed)
    }

    /// What holds between the storage slots and the index while displaced
    /// entries are taken out: the index holds only slots that hold an entry;
    /// it gives every entry that is not displaced its share; and the share of
    /// a displaced entry holds every point of its slot.
    pub open spec fn slots_mid(
        data: Seq<Option<(IdTree, T)>>,
        index: ItcIndex,
        displaced: Seq<usize>,
    ) -> bool {
        &&& forall|s: usize| #[trigger]
            index.slots().contains(s) ==> s < data.len() && data[s as int] is Some
        &&& forall|s: int|
            0 <= s < data.len() && (#[trigger] data[s]) is Some ==> {
                &&& id_at(data, s).is_normalized()
                &&& id_at(data, s) != IdTree::Zero
                &&& s <= usize::MAX
                &&& if displaced.contains(s as usize) {
                    index.tracks(id_at(data, s), s as usize)
                } else {
                    index.covers(id_at(data, s), s as usize)
                }
            }
    }

    /// The number of entries of the map.
    pub fn len(&self) -> (r: usize)
        ensures
            r == self.entries().len(),
    {
        let mut count: usize = 0;
        let mut i: usize = 0;
        while i < self.data.len()
            invariant
                i <= self.data.len(),
                count <= i,
                count == live(self.data@.take(i as int)).len(),
            decreases self.data.len() - i,
        {
            proof {
                lemma_live_step(self.data@, i as int);
            }
            if self.data[i].is_some() {
                count += 1;
            }
            i += 1;
        }
        assert(self.data@.take(i as int) =~= self.data@);
        count
    }

    /// Whether the map has no entry.
    pub fn is_empty(&self) -> (r: bool)
        ensures
            r == (self.entries().len() == 0),
    {
        self.len() == 0
    }

    /// The entries of the map, in the order of their storage slots.
    pub fn iter(&self) -> (r: Vec<(&IdTree, &T)>)
        ensures
            r@.len() == self.entries().len(),
            forall|i: int|
                0 <= i < r@.len() ==> *(#[trigger] r@[i]).0 == self.entries()[i].0 && *r@[i].1
                    == self.entries()[i].1,
    {
        let mut out: Vec<(&IdTree, &T)> = Vec::new();
        let mut i: usize = 0;
        while i < self.data.len()
            invariant
                i <= self.data.len(),
                out@.len() == live(self.data@.take(i as int)).len(),
                forall|j: int|
                    0 <= j < out@.len() ==> *(#[trigger] out@[j]).0 == live(
                        self.data@.take(i as int),
                    )[j].0 && *out@[j].1 == live(self.data@.take(i as int))[j].1,
            decreases self.data.len() - i,
        {
            proof {
                lemma_live_step(self.data@, i as int);
            }
            match &self.data[i] {
                Some(e) => {
                    out.push((&e.0, &e.1));
                },
                None => {},
            }
            i += 1;
        }
        assert(self.data@.take(i as int) =~= self.data@);
        out
    }
}

impl<T: Clone> Clone for Patch<T> {
    /// A patch with the same clock and a copy of every entry.
    fn clone(&self) -> (r: Self)
        ensures
            r.timestamp_spec() == self.timestamp_spec(),
            r.entries_spec().len() == self.entries_spec().len(),
            forall|i: int|
                0 <= i < r.entries_spec().len() ==> (#[trigger] r.entries_spec()[i]).0
                    == self.entries_spec()[i].0 && cloned(
                    self.entries_spec()[i].1,
                    r.entries_spec()[i].1,
                ),
    {
        proof {
            use_type_invariant(self);
        }
        let mut inner: Vec<(IdTree, T)> = Vec::new();
        let mut i: usize = 0;
        while i < self.inner.len()
            invariant
                i <= self.inner@.len(),
                inner@.len() == i,
                forall|j: int|
                    0 <= j < i ==> (#[trigger] inner@[j]).0 == self.inner@[j].0 && cloned(
                        self.inner@[j].1,
                        inner@[j].1,
                    ),
            decreases self.inner@.len() - i,
        {
            let e = &self.inner[i];
            inner.push((e.0.clone(), e.1.clone()));
            i += 1;
        }
        proof {
            assert forall|j: int| 0 <= j < inner@.len() implies (#[trigger] inner@[j]).0.is_normalized() by {
                assert(self.inner@[j].0.is_normalized());
            }
        }
        Patch { timestamp: self.timestamp.clone(), inner }
    }
}

impl<T: Clone> Clone for ItcMap<T> {
    /// A map with the same clock and index and a copy of every entry.
    fn clone(&self) -> (r: Self)
        ensures
            r.timestamp_spec() == self.timestamp_spec(),
            r.index_spec() == self.index_spec(),
            forall|k: IdTree| r@.contains_key(k) <==> self@.contains_key(k),
            forall|k: IdTree| #[trigger] r@.contains_key(k) ==> cloned(self@[k], r@[k]),
    {
        proof {
            use_type_invariant(self);
        }
        let mut data: Vec<Option<(IdTree, T)>> = Vec::new();
        let mut i: usize = 0;
        while i < self.data.len()
            invariant
                i <= self.data@.len(),
                data@.len() == i,
                forall|s: int|
                    0 <= s < i ==> ((#[trigger] data@[s]) is Some <==> self.data@[s] is Some),
                forall|s: int|
                    0 <= s < i && (#[trigger] data@[s]) is Some ==> id_at(data@, s) == id_at(
                        self.data@,
                        s,
                    ) && cloned(value_at(self.data@, s), value_at(data@, s)),
            decreases self.data@.len() - i,
        {
            match &self.data[i] {
                Some(e) => {
                    data.push(Some((e.0.clone(), e.1.clone())));
                },
                None => {
                    data.push(None);
                },
            }
            i += 1;
        }
        let index = self.index.clone();
        proof {
            assert(Self::slots_wf(data@, index)) by {
                assert forall|s: int| 0 <= s < data@.len() && (#[trigger] data@[s]) is Some implies {
                    &&& id_at(data@, s).is_normalized()
                    &&& id_at(data@, s) != IdTree::Zero
                    &&& index.covers(id_at(data@, s), s as usize)
                    &&& s <= usize::MAX
                } by {
                    assert(self.data@[s] is Some);
                }
                assert forall|s: usize| #[trigger] index.slots().contains(s) implies s < data@.len()
                    && data@[s as int] is Some by {
                    assert(self.data@[s as int] is Some);
                }
            }
            lemma_slots_map(data@, index);
            lemma_slots_map(self.data@, self.index);
            let m = Self::slots_map(data@);
            assert forall|k: IdTree| m.contains_key(k) <==> self@.contains_key(k) by {
                if m.contains_key(k) {
                    let s = choose|s: int| Self::holds(data@, s, k);
                    assert(data@[s] is Some);
                    assert(Self::holds(self.data@, s, k));
                }
                if self@.contains_key(k) {
                    let s = choose|s: int| Self::holds(self.data@, s, k);
                    assert(data@[s] is Some);
                    assert(Self::holds(data@, s, k));
                }
            }
            assert forall|k: IdTree| #[trigger] m.contains_key(k) implies cloned(self@[k], m[k]) by {
                let s = choose|s: int| Self::holds(data@, s, k);
                assert(data@[s] is Some);
                assert(self.data@[s] is Some);
            }
        }
        ItcMap { timestamp: self.timestamp.clone(), data, index }
    }
}

impl<T: PartialEq> ItcMap<T> {
    /// Whether every entry of `self` is an entry of `other`, with a value
    /// that equals its own.
    pub open spec fn within(&self, other: &Self) -> bool {
        forall|k: IdTree| #[trigger]
            self@.contains_key(k) ==> other@.contains_key(k) && self@[k].eq_spec(&other@[k])
    }

    /// Whether every entry of `self` is an entry of `other`, with a value
    /// that equals its own.
    pub fn includes(&self, other: &Self) -> (b: bool)
        ensures
            T::obeys_eq_spec() ==> b == self.within(other),
    {
        proof {
            use_type_invariant(self);
            lemma_slots_map(self.data@, self.index);
        }
        let mut i: usize = 0;
        while i < self.data.len()
            invariant
                i <= self.data@.len(),
                self.wf(),
                T::obeys_eq_spec() ==> forall|s: int|
                    0 <= s < i && (#[trigger] self.data@[s]) is Some ==> other@.contains_key(
                        id_at(self.data@, s),
                    ) && value_at(self.data@, s).eq_spec(&other@[id_at(self.data@, s)]),
            decreases self.data@.len() - i,
        {
            match &self.data[i] {
                Some(e) => {
                    let same = match other.get(&e.0) {
                        Some(w) => e.1.eq(w),
                        None => false,
                    };
                    if !same {
                        proof {
                            lemma_slots_map(self.data@, self.index);
                            assert(self@.contains_key(e.0));
                        }
                        return false;
                    }
                },
                None => {},
            }
            i += 1;
        }
        proof {
            lemma_slots_map(self.data@, self.index);
            if T::obeys_eq_spec() {
                assert forall|k: IdTree| #[trigger] self@.contains_key(k) implies other@.contains_key(
                    k,
                ) && self@[k].eq_spec(&other@[k]) by {
                    let s = choose|s: int| Self::holds(self.data@, s, k);
                    assert(self.data@[s] is Some);
                }
            }
        }
        true
    }
}

impl<T: PartialEq> PartialEq for ItcMap<T> {
    /// Two maps are equal where their clocks are equal and they hold the same
    /// entries.
    fn eq(&self, other: &Self) -> (b: bool) {
        self.timestamp == other.timestamp && self.includes(other) && other.includes(self)
    }
}

impl<T: PartialEq> vstd::std_specs::cmp::PartialEqSpecImpl for ItcMap<T> {
    open spec fn obeys_eq_spec() -> bool {
        T::obeys_eq_spec()
    }

    open spec fn eq_spec(&self, other: &Self) -> bool {
        &&& self.timestamp_spec() == other.timestamp_spec()
        &&& self.within(other)
        &&& other.within(self)
    }
}

impl<T: Clone> ItcMap<T> {
    /// What the map knows beyond the clock `timestamp`: its own clock, and a
    /// copy of every entry under whose share its clock records an event that
    /// `timestamp` does not, each once.
    pub fn diff(&self, timestamp: &EventTree) -> (r: Patch<T>)
        requires
            timestamp.wf(),
        ensures
            r.timestamp_spec() == self.timestamp_spec(),
            missing_from(r.entries_spec(), self@, self.timestamp_spec(), *timestamp),
    {
        proof {
            use_type_invariant(self);
            lemma_slots_map(self.data@, self.index);
        }
        let time_diff = self.timestamp.clone().diff(timestamp);
        let idxs = self.index.query(&time_diff);
        let mut inner: Vec<(IdTree, T)> = Vec::new();
        let mut i: usize = 0;
        while i < idxs.len()
            invariant
                i <= idxs@.len(),
                self.wf(),
                idxs@.no_duplicates(),
                time_diff == self.timestamp.diff_spec(*timestamp),
                timestamp.wf(),
                forall|s: usize| idxs@.contains(s) <==> self.index.query_spec(time_diff).contains(s),
                inner@.len() == i,
                forall|j: int|
                    0 <= j < i ==> idxs@[j] < self.data@.len() && self.data@[idxs@[j] as int] is Some
                        && (#[trigger] inner@[j]).0 == id_at(self.data@, idxs@[j] as int) && cloned(
                        value_at(self.data@, idxs@[j] as int),
                        inner@[j].1,
                    ),
            decreases idxs@.len() - i,
        {
            let idx = idxs[i];
            proof {
                assert(idxs@.contains(idx));
                lemma_queried(self.data@, self.index, self.timestamp, *timestamp, idx);
            }
            match &self.data[idx] {
                Some(e) => {
                    inner.push((e.0.clone(), e.1.clone()));
                },
                None => {},
            }
            i += 1;
        }
        let ghost copies = inner@;
        proof {
            lemma_patch(self.data@, self.index, self.timestamp, *timestamp, idxs@, copies);
        }
        Patch { timestamp: self.timestamp.clone(), inner }
    }
}

/// Appends one entry to the text of a list of entries.
fn write_entry(s: &mut String, first: bool, id: &IdTree, text: &String)
    ensures
        final(s)@ == old(s)@ + (if first {
            Seq::<char>::empty()
        } else {
            seq![',', ' ']
        }) + id.text() + seq![':', ' '] + text@,
{
    proof {
        reveal_strlit(", ");
        reveal_strlit(": ");
    }
    if !first {
        s.append(", ");
    }
    id.write_text(s);
    s.append(": ");
    s.append(text.as_str());
    assert(s@ =~= old(s)@ + (if first {
        Seq::<char>::empty()
    } else {
        seq![',', ' ']
    }) + id.text() + seq![':', ' '] + text@);
}

/// Whether every slot of the index holds an entry.
fn slots_live<T>(index: &ItcIndex, data: &Vec<Option<(IdTree, T)>>) -> (b: bool)
    ensures
        b == forall|s: usize| #[trigger]
            index.slots().contains(s) ==> s < data@.len() && data@[s as int] is Some,
    decreases *index,
{
    match index {
        ItcIndex::Unknown => true,
        ItcIndex::Leaf(t) => {
            let b = *t < data.len() && data[*t].is_some();
            proof {
                assert(index.slots().contains(*t));
            }
            b
        },
        ItcIndex::SubTree(l, r) => {
            let a = slots_live(l, data);
            let b = slots_live(r, data);
            proof {
                if !a {
                    let s = choose|s: usize| #[trigger]
                        l.slots().contains(s) && !(s < data@.len() && data@[s as int] is Some);
                    assert(index.slots().contains(s));
                }
                if !b {
                    let s = choose|s: usize| #[trigger]
                        r.slots().contains(s) && !(s < data@.len() && data@[s as int] is Some);
                    assert(index.slots().contains(s));
                }
            }
            a && b
        },
    }
}

/// The list with its items in the opposite order.
fn reversed<E>(list: Vec<E>) -> (r: Vec<E>)
    ensures
        r@.len() == list@.len(),
        forall|j: int| 0 <= j < r@.len() ==> (#[trigger] r@[j]) == list@[list@.len() - 1 - j],
{
    let mut list = list;
    let ghost all = list@;
    let mut out: Vec<E> = Vec::new();
    while list.len() > 0
        invariant
            list@.len() + out@.len() == all.len(),
            forall|j: int| 0 <= j < list@.len() ==> (#[trigger] list@[j]) == all[j],
            forall|j: int| 0 <= j < out@.len() ==> (#[trigger] out@[j]) == all[all.len() - 1 - j],
        decreases list@.len(),
    {
        let e = list.pop().unwrap();
        out.push(e);
    }
    out
}

/// Empties a storage slot and returns what it held.
fn take_slot<T>(data: &mut Vec<Option<(IdTree, T)>>, s: usize) -> (r: Option<(IdTree, T)>)
    requires
        s < old(data)@.len(),
    ensures
        r == old(data)@[s as int],
        final(data)@ == old(data)@.update(s as int, None),
{
    put_slot(data, s, None)
}

/// Stores `e` in a storage slot and returns what the slot held.
fn put_slot<T>(data: &mut Vec<Option<(IdTree, T)>>, s: usize, e: Option<(IdTree, T)>) -> (r:
    Option<(IdTree, T)>)
    requires
        s < old(data)@.len(),
    ensures
        r == old(data)@[s as int],
        final(data)@ == old(data)@.update(s as int, e),
{
    data.push(e);
    let r = data.swap_remove(s);
    assert(data@ =~= old(data)@.update(s as int, e));
    r
}

/// The entries of a map, in the order of their storage slots, are the entries
/// of its view: each is found in the view under its share, every key of the
/// view is the share of one of them, and no two of them have the same share.
pub proof fn lemma_entries<T>(m: ItcMap<T>)
    requires
        m.wf(),
    ensures
        forall|i: int|
            0 <= i < m.entries().len() ==> m@.contains_key((#[trigger] m.entries()[i]).0)
                && m@[m.entries()[i].0] == m.entries()[i].1,
        forall|k: IdTree| #[trigger]
            m@.contains_key(k) ==> exists|i: int|
                0 <= i < m.entries().len() && (#[trigger] m.entries()[i]).0 == k,
        forall|i: int, j: int|
            0 <= i < j < m.entries().len() ==> (#[trigger] m.entries()[i]).0 != (
            #[trigger] m.entries()[j]).0,
{
    let data = m.data@;
    let n = data.len() as int;
    lemma_slots_map(data, m.index);
    assert(data.take(n) =~= data);
    let es = m.entries();
    assert forall|i: int| 0 <= i < es.len() implies m@.contains_key((#[trigger] es[i]).0)
        && m@[es[i].0] == es[i].1 by {
        let s = lemma_live_slot(data, n, i);
        assert(data[s] is Some);
    }
    assert forall|k: IdTree| #[trigger] m@.contains_key(k) implies exists|i: int|
        0 <= i < es.len() && (#[trigger] es[i]).0 == k by {
        let s = choose|s: int| ItcMap::<T>::holds(data, s, k);
        let i = lemma_slot_live(data, n, s);
        assert(es[i].0 == k);
    }
    assert forall|i: int, j: int| 0 <= i < j < es.len() implies (#[trigger] es[i]).0 != (
    #[trigger] es[j]).0 by {
        lemma_live_distinct(data, m.index, n, i, j);
    }
}

/// No two keys of a map have a point in common, and every key is a share in
/// normal form that is not empty.
pub proof fn lemma_keys<T>(m: ItcMap<T>, a: IdTree, b: IdTree)
    requires
        m.wf(),
        m@.contains_key(a),
        m@.contains_key(b),
    ensures
        a.is_normalized(),
        a != IdTree::Zero,
        a != b ==> a.disjoint(b),
{
    let data = m.data@;
    let s = choose|s: int| ItcMap::<T>::holds(data, s, a);
    let t = choose|t: int| ItcMap::<T>::holds(data, t, b);
    assert(data[s] is Some);
    assert(data[t] is Some);
    if s != t {
        lemma_entries_disjoint(data, m.index, s, t);
    }
}

/// The clock of a map is in normal form and within range.
pub proof fn lemma_clock<T>(m: ItcMap<T>)
    requires
        m.wf(),
    ensures
        m.timestamp_spec().wf(),
        m.timestamp_spec().is_normalized(),
{
}

/// One exchange brings over what is missing: once the map `b` has taken over
/// the patch that the map `a` makes for the clock of `b`, it holds a copy of
/// every entry of `a` under whose share the clock of `a` recorded more than
/// the clock of `b` at some point.
pub proof fn lemma_sync<T: Clone>(a: ItcMap<T>, b: ItcMap<T>, entries: Seq<(IdTree, T)>)
    requires
        a.wf(),
        b.wf(),
        missing_from(entries, a@, a.timestamp_spec(), b.timestamp_spec()),
    ensures
        forall|k: IdTree|
            (#[trigger] a@.contains_key(k)) && a.timestamp_spec().ahead_in(b.timestamp_spec(), k)
                ==> put_all(
                b@,
                entries,
                a.timestamp_spec().diff_spec(b.timestamp_spec()),
            ).contains_key(k) && cloned(
                a@[k],
                put_all(b@, entries, a.timestamp_spec().diff_spec(b.timestamp_spec()))[k],
            ),
{
    let mine = a.timestamp_spec();
    let theirs = b.timestamp_spec();
    let incoming = mine.diff_spec(theirs);
    assert forall|i: int| 0 <= i < entries.len() implies (#[trigger] entries[i]).0.is_normalized()
        && incoming.contains_spec(entries[i].0) by {
        lemma_keys(a, entries[i].0, entries[i].0);
        lemma_missing_is_ahead(mine, theirs, entries[i].0);
    }
    assert forall|i: int, j: int| 0 <= i < j < entries.len() implies (#[trigger] entries[i]).0.disjoint(
        (#[trigger] entries[j]).0,
    ) by {
        lemma_keys(a, entries[i].0, entries[j].0);
    }
    lemma_patch_taken_over(b@, entries, incoming);
    assert forall|k: IdTree| (#[trigger] a@.contains_key(k)) && mine.ahead_in(
        theirs,
        k,
    ) implies put_all(b@, entries, incoming).contains_key(k) && cloned(
        a@[k],
        put_all(b@, entries, incoming)[k],
    ) by {
        let j = choose|j: int| 0 <= j < entries.len() && (#[trigger] entries[j]).0 == k;
        let e = entries[j];
    }
}

/// The view, the storage slots and the index of a map belong together: the
/// view is made of the entries in the slots; the index is in normal form and
/// holds only slots that hold an entry; every key resolves through the index
/// to the slot that holds its entry; and a point belongs to a slot exactly
/// where the share of the entry in that slot owns it. So the slots fix the
/// view and, the normal form of an index being unique, the index.
pub proof fn lemma_index<T>(m: ItcMap<T>)
    requires
        m.wf(),
    ensures
        m@ == ItcMap::<T>::slots_map(m.slots_spec()),
        m.index_spec().is_normalized(),
        forall|s: usize| #[trigger]
            m.index_spec().slots().contains(s) ==> s < m.slots_spec().len()
                && m.slots_spec()[s as int] is Some,
        forall|s: int|
            0 <= s < m.slots_spec().len() && (#[trigger] m.slots_spec()[s]) is Some ==> {
                &&& m@.contains_key(id_at(m.slots_spec(), s))
                &&& m@[id_at(m.slots_spec(), s)] == value_at(m.slots_spec(), s)
                &&& m.index_spec().covers(id_at(m.slots_spec(), s), s as usize)
                &&& m.index_spec().get_spec(id_at(m.slots_spec(), s)) == Some(s as usize)
            },
        forall|k: IdTree| #[trigger]
            m@.contains_key(k) ==> exists|s: int|
                ItcMap::<T>::holds(m.slots_spec(), s, k) && m.index_spec().get_spec(k) == Some(
                    s as usize,
                ),
        forall|p: Seq<bool>|
            (#[trigger] m.index_spec().slot_at(p)) matches Some(s) ==> s < m.slots_spec().len()
                && m.slots_spec()[s as int] is Some && id_at(m.slots_spec(), s as int).owns(p),
        forall|p: Seq<bool>, s: int|
            0 <= s < m.slots_spec().len() && m.slots_spec()[s] is Some && #[trigger] id_at(
                m.slots_spec(),
                s,
            ).owns(p) ==> m.index_spec().slot_at(p) == Some(s as usize),
{
    let data = m.data@;
    lemma_slots_map(data, m.index);
    assert(m.slots_spec() == data && m.index_spec() == m.index);
    assert forall|p: Seq<bool>| (#[trigger] m.index_spec().slot_at(p)) is Some implies ({
        let s = m.index_spec().slot_at(p).unwrap();
        s < m.slots_spec().len() && m.slots_spec()[s as int] is Some && id_at(
            m.slots_spec(),
            s as int,
        ).owns(p)
    }) by {
        let s = m.index.slot_at(p).unwrap();
        lemma_slots_points(m.index, s);
        assert(m.index.slots().contains(s));
        lemma_covers_points(m.index, id_at(data, s as int), s);
    }
    assert forall|p: Seq<bool>, s: int|
        0 <= s < m.slots_spec().len() && m.slots_spec()[s] is Some && #[trigger] id_at(
            m.slots_spec(),
            s,
        ).owns(p) implies m.index_spec().slot_at(p) == Some(s as usize) by {
        assert(data[s] is Some);
        lemma_covers_points(m.index, id_at(data, s), s as usize);
    }
    assert forall|s: int| 0 <= s < data.len() && (#[trigger] data[s]) is Some implies m.index.get_spec(
        id_at(data, s),
    ) == Some(s as usize) by {
        lemma_covers_get(m.index, id_at(data, s), s as usize);
    }
    assert forall|k: IdTree| #[trigger] m@.contains_key(k) implies exists|s: int|
        ItcMap::<T>::holds(data, s, k) && m.index.get_spec(k) == Some(s as usize) by {
        let s = choose|s: int| ItcMap::<T>::holds(data, s, k);
        assert(data[s] is Some);
    }
}

} // verus!
