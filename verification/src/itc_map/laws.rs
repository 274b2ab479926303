//! What holds between the storage slots of a map and its index, and how the
//! view of a map changes as entries are put into it.
use vstd::prelude::*;
use crate::event_tree::laws::{lemma_contains, lemma_diff};
use crate::event_tree::EventTree;
use crate::id_tree::laws::lemma_node_points;
use crate::id_tree::IdTree;
use crate::itc_index::laws::{
    lemma_covers_get, lemma_covers_points, lemma_covers_tracks, lemma_displaced_occurs,
    lemma_displaced_points, lemma_insert_covers, lemma_insert_keeps, lemma_insert_slots,
    lemma_insert_tracks, lemma_purge_keeps, lemma_purge_removes, lemma_purge_slots,
    lemma_purge_tracks, lemma_slots_points,
};
use crate::itc_index::ItcIndex;
use crate::itc_map::{
    displaced_by, entries_text, first_free_from, id_at, live, missing_from, put, put_all,
    put_slots, value_at, ItcMap, Patch,
};

verus! {

/// The text of a list of entries reads only the texts of its own values.
pub proof fn lemma_entries_text_prefix<T>(
    entries: Seq<(IdTree, T)>,
    shown: Seq<String>,
    more: Seq<String>,
)
    requires
        entries.len() <= shown.len() <= more.len(),
        forall|i: int| 0 <= i < entries.len() ==> shown[i] == more[i],
    ensures
        entries_text(entries, shown) == entries_text(entries, more),
    decreases entries.len(),
{
    if entries.len() > 0 {
        lemma_entries_text_prefix(entries.drop_last(), shown, more);
    }
}

/// A slot that the index finds for what one clock records beyond another
/// holds an entry, under whose share the first clock is ahead of the second;
/// and the slot of every such entry is found.
pub proof fn lemma_queried<T>(
    data: Seq<Option<(IdTree, T)>>,
    index: ItcIndex,
    mine: EventTree,
    theirs: EventTree,
    s: usize,
)
    requires
        ItcMap::<T>::slots_wf(data, index),
        mine.wf(),
        theirs.wf(),
    ensures
        index.query_spec(mine.diff_spec(theirs)).contains(s) ==> s < data.len()
            && data[s as int] is Some,
        s < data.len() && data[s as int] is Some ==> (index.query_spec(
            mine.diff_spec(theirs),
        ).contains(s) <==> mine.ahead_in(theirs, id_at(data, s as int))),
{
    let d = mine.diff_spec(theirs);
    lemma_diff(mine, theirs);
    lemma_slots_points(index, s);
    if index.query_spec(d).contains(s) {
        let p = choose|p: Seq<bool>| index.slot_at(p) == Some(s) && #[trigger] d.value_at(p) > 0;
        assert(index.slot_at(p) == Some(s));
        assert(index.slots().contains(s));
    }
    if s < data.len() && data[s as int] is Some {
        let k = id_at(data, s as int);
        lemma_covers_points(index, k, s);
        if index.query_spec(d).contains(s) {
            let p = choose|p: Seq<bool>|
                index.slot_at(p) == Some(s) && #[trigger] d.value_at(p) > 0;
            assert(k.owns(p) <==> index.slot_at(p) == Some(s));
            assert(k.owns(p) && mine.value_at(p) > theirs.value_at(p));
        }
        if mine.ahead_in(theirs, k) {
            let p = choose|p: Seq<bool>|
                k.owns(p) && #[trigger] mine.value_at(p) > theirs.value_at(p);
            assert(k.owns(p) <==> index.slot_at(p) == Some(s));
            assert(index.slot_at(p) == Some(s) && d.value_at(p) > 0);
        }
    }
}

/// The copies of the entries in the slots that the index finds make up the
/// patch.
pub proof fn lemma_patch<T: Clone>(
    data: Seq<Option<(IdTree, T)>>,
    index: ItcIndex,
    mine: EventTree,
    theirs: EventTree,
    idxs: Seq<usize>,
    inner: Seq<(IdTree, T)>,
)
    requires
        ItcMap::<T>::slots_wf(data, index),
        mine.wf(),
        theirs.wf(),
        idxs.no_duplicates(),
        forall|s: usize| idxs.contains(s) <==> index.query_spec(mine.diff_spec(theirs)).contains(s),
        inner.len() == idxs.len(),
        forall|j: int|
            0 <= j < idxs.len() ==> idxs[j] < data.len() && data[idxs[j] as int] is Some && (
            #[trigger] inner[j]).0 == id_at(data, idxs[j] as int) && cloned(
                value_at(data, idxs[j] as int),
                inner[j].1,
            ),
    ensures
        Patch::<T>::parts_wf(mine, inner),
        missing_from(inner, ItcMap::<T>::slots_map(data), mine, theirs),
{
    let m = ItcMap::<T>::slots_map(data);
    lemma_slots_map(data, index);
    assert forall|j: int| 0 <= j < inner.len() implies (#[trigger] inner[j]).0.is_normalized()
        && m.contains_key(inner[j].0) && cloned(m[inner[j].0], inner[j].1) && mine.ahead_in(
        theirs,
        inner[j].0,
    ) by {
        let e = inner[j];
        let s = idxs[j] as int;
        assert(idxs.contains(idxs[j]));
        assert(data[s] is Some);
        lemma_queried(data, index, mine, theirs, idxs[j]);
    }
    assert forall|i: int, j: int| 0 <= i < j < inner.len() implies (#[trigger] inner[i]).0 != (
    #[trigger] inner[j]).0 by {
        let a = inner[i];
        let b = inner[j];
        let s = idxs[i] as int;
        let t = idxs[j] as int;
        assert(data[s] is Some);
        assert(data[t] is Some);
        lemma_entries_disjoint(data, index, s, t);
    }
    assert forall|k: IdTree| (#[trigger] m.contains_key(k)) && mine.ahead_in(
        theirs,
        k,
    ) implies exists|j: int| 0 <= j < inner.len() && (#[trigger] inner[j]).0 == k by {
        let t = choose|t: int| ItcMap::<T>::holds(data, t, k);
        assert(data[t] is Some);
        lemma_queried(data, index, mine, theirs, t as usize);
        assert(idxs.contains(t as usize));
        let j = choose|j: int| 0 <= j < idxs.len() && idxs[j] == t as usize;
        let e = inner[j];
        assert(inner[j].0 == k);
    }
}

/// The first `i + 1` items of a list are the first `i` and the item `i`.
pub proof fn lemma_take_step(list: Seq<usize>, i: int)
    requires
        0 <= i < list.len(),
    ensures
        forall|x: usize|
            list.take(i + 1).contains(x) <==> list.take(i).contains(x) || x == list[i],
{
    let a = list.take(i);
    let b = list.take(i + 1);
    assert forall|x: usize| b.contains(x) <==> a.contains(x) || x == list[i] by {
        if b.contains(x) {
            let j = choose|j: int| 0 <= j < b.len() && b[j] == x;
            if j < i {
                assert(a[j] == x);
            }
        }
        if a.contains(x) {
            let j = choose|j: int| 0 <= j < a.len() && a[j] == x;
            assert(b[j] == x);
        }
        if x == list[i] {
            assert(b[i] == x);
        }
    }
}

/// Two entries of a map have shares with no point in common.
pub proof fn lemma_entries_disjoint<T>(data: Seq<Option<(IdTree, T)>>, index: ItcIndex, s: int, t: int)
    requires
        ItcMap::<T>::slots_wf(data, index),
        0 <= s < data.len(),
        0 <= t < data.len(),
        data[s] is Some,
        data[t] is Some,
        s != t,
    ensures
        id_at(data, s).disjoint(id_at(data, t)),
        id_at(data, s) != id_at(data, t),
{
    lemma_covers_points(index, id_at(data, s), s as usize);
    lemma_covers_points(index, id_at(data, t), t as usize);
    lemma_covers_get(index, id_at(data, s), s as usize);
    lemma_covers_get(index, id_at(data, t), t as usize);
    assert forall|p: Seq<bool>| !(#[trigger] id_at(data, s).owns(p) && id_at(data, t).owns(p)) by {
        assert(id_at(data, s).owns(p) <==> index.slot_at(p) == Some(s as usize));
        assert(id_at(data, t).owns(p) <==> index.slot_at(p) == Some(t as usize));
    }
}

/// A share in normal form that is not empty has a point in common with
/// itself.
pub proof fn lemma_overlaps_itself(id: IdTree)
    requires
        id.is_normalized(),
        id != IdTree::Zero,
    ensures
        !id.disjoint(id),
{
    let p = if id is SubTree {
        lemma_node_points(id).0
    } else {
        Seq::<bool>::empty()
    };
    assert(id.owns(p));
}

/// A new value under a share that is a key of the map takes the place of the
/// old value, and no other entry changes.
pub proof fn lemma_upsert<T>(
    data: Seq<Option<(IdTree, T)>>,
    index: ItcIndex,
    s: int,
    id: IdTree,
    value: T,
)
    requires
        ItcMap::<T>::slots_wf(data, index),
        ItcMap::<T>::holds(data, s, id),
    ensures
        ItcMap::<T>::slots_wf(data.update(s, Some((id, value))), index),
        ItcMap::<T>::slots_map(data.update(s, Some((id, value)))) == put(
            ItcMap::<T>::slots_map(data),
            id,
            value,
        ),
        displaced_by(seq![(id, value_at(data, s))], ItcMap::<T>::slots_map(data), id),
{
    let after = data.update(s, Some((id, value)));
    let m = ItcMap::<T>::slots_map(data);
    let n = ItcMap::<T>::slots_map(after);
    assert(ItcMap::<T>::slots_wf(after, index)) by {
        assert forall|t: int| 0 <= t < after.len() && (#[trigger] after[t]) is Some implies {
            &&& id_at(after, t).is_normalized()
            &&& id_at(after, t) != IdTree::Zero
            &&& index.covers(id_at(after, t), t as usize)
            &&& t <= usize::MAX
        } by {
            assert(data[t] is Some);
            assert(id_at(after, t) == id_at(data, t));
        }
    }
    lemma_slots_map(data, index);
    lemma_slots_map(after, index);
    lemma_overlaps_itself(id);
    assert(data[s] is Some);
    assert(after[s] is Some);
    assert forall|k: IdTree| #[trigger] m.contains_key(k) && !k.disjoint(id) implies k == id by {
        let t = choose|t: int| ItcMap::<T>::holds(data, t, k);
        if t != s {
            lemma_entries_disjoint(data, index, t, s);
        }
    }
    assert forall|k: IdTree| n.contains_key(k) <==> put(m, id, value).contains_key(k) by {
        if n.contains_key(k) {
            let t = choose|t: int| ItcMap::<T>::holds(after, t, k);
            if t != s {
                assert(ItcMap::<T>::holds(data, t, k));
            }
        }
        if put(m, id, value).contains_key(k) && k != id {
            let t = choose|t: int| ItcMap::<T>::holds(data, t, k);
            assert(t != s);
            assert(ItcMap::<T>::holds(after, t, k));
        }
        if k == id {
            assert(ItcMap::<T>::holds(after, s, k));
        }
    }
    assert forall|k: IdTree| n.contains_key(k) implies #[trigger] n[k] == put(m, id, value)[k] by {
        let t = choose|t: int| ItcMap::<T>::holds(after, t, k);
        assert(after[t] is Some);
        if t != s {
            assert(ItcMap::<T>::holds(data, t, k));
            assert(data[t] is Some);
            assert(value_at(after, t) == value_at(data, t));
        } else {
            assert(value_at(after, s) == value);
        }
    }
    assert(n =~= put(m, id, value));
    let removed = seq![(id, value_at(data, s))];
    assert(removed[0].0 == id);
    assert forall|k: IdTree| m.contains_key(k) && !k.disjoint(id) implies exists|j: int|
        0 <= j < removed.len() && (#[trigger] removed[j]).0 == k by {
        assert(removed[0].0 == k);
    }
}

/// After a share has been given to a new slot, and before the displaced
/// entries are taken out: the index holds only slots that hold an entry, gives
/// the new entry and every entry that is not displaced its share, and the
/// share of a displaced entry holds every point of its slot.
pub proof fn lemma_after_insert<T>(
    data_old: Seq<Option<(IdTree, T)>>,
    index_old: ItcIndex,
    id: IdTree,
    value: T,
    ns: usize,
    data0: Seq<Option<(IdTree, T)>>,
    displaced: Seq<usize>,
)
    requires
        ItcMap::<T>::slots_wf(data_old, index_old),
        id.is_normalized(),
        id != IdTree::Zero,
        ns <= data_old.len(),
        ns < data_old.len() ==> data_old[ns as int] is None && data0 == data_old.update(
            ns as int,
            Some((id, value)),
        ),
        ns == data_old.len() ==> data0 == data_old.push(Some((id, value))),
        forall|s: usize| displaced.contains(s) <==> index_old.displaced_spec(id).contains(s),
    ensures
        ItcMap::<T>::slots_mid(data0, index_old.insert_spec(id, ns), displaced),
        forall|j: int|
            0 <= j < displaced.len() ==> (#[trigger] displaced[j]) < data0.len()
                && data0[displaced[j] as int] is Some && displaced[j] != ns && data0[displaced[j] as int]
                == data_old[displaced[j] as int],
        !displaced.contains(ns),
{
    let after = index_old.insert_spec(id, ns);
    assert forall|j: int| 0 <= j < displaced.len() implies (#[trigger] displaced[j]) < data0.len()
        && data0[displaced[j] as int] is Some && displaced[j] != ns && data0[displaced[j] as int]
        == data_old[displaced[j] as int] by {
        assert(displaced.contains(displaced[j]));
        lemma_displaced_occurs(index_old, id, displaced[j]);
    }
    if displaced.contains(ns) {
        lemma_displaced_occurs(index_old, id, ns);
    }
    assert forall|s: usize| #[trigger] after.slots().contains(s) implies s < data0.len()
        && data0[s as int] is Some by {
        lemma_insert_slots(index_old, id, ns, s);
    }
    assert forall|s: int| 0 <= s < data0.len() && (#[trigger] data0[s]) is Some implies {
        &&& id_at(data0, s).is_normalized()
        &&& id_at(data0, s) != IdTree::Zero
        &&& s <= usize::MAX
        &&& if displaced.contains(s as usize) {
            after.tracks(id_at(data0, s), s as usize)
        } else {
            after.covers(id_at(data0, s), s as usize)
        }
    } by {
        if s == ns {
            lemma_insert_covers(index_old, id, ns);
        } else {
            assert(data_old[s] is Some);
            assert(id_at(data0, s) == id_at(data_old, s));
            if displaced.contains(s as usize) {
                lemma_covers_tracks(index_old, id_at(data_old, s), s as usize);
                lemma_insert_tracks(index_old, id, ns, id_at(data_old, s), s as usize);
            } else {
                lemma_insert_keeps(index_old, id, ns, id_at(data_old, s), s as usize);
            }
        }
    }
}

/// Taking a displaced entry out of its slot and purging the slot from the
/// index keeps what holds between the storage slots and the index.
pub proof fn lemma_after_purge<T>(
    data: Seq<Option<(IdTree, T)>>,
    index: ItcIndex,
    displaced: Seq<usize>,
    d: usize,
    after: Seq<Option<(IdTree, T)>>,
)
    requires
        ItcMap::<T>::slots_mid(data, index, displaced),
        displaced.contains(d),
        d < data.len(),
        data[d as int] is Some,
        after == data.update(d as int, None),
    ensures
        ItcMap::<T>::slots_mid(after, index.purge_spec(id_at(data, d as int), d), displaced),
{
    let did = id_at(data, d as int);
    let purged = index.purge_spec(did, d);
    lemma_purge_removes(index, did, d);
    assert forall|s: usize| #[trigger] purged.slots().contains(s) implies s < after.len()
        && after[s as int] is Some by {
        lemma_purge_slots(index, did, d, s);
    }
    assert forall|s: int| 0 <= s < after.len() && (#[trigger] after[s]) is Some implies {
        &&& id_at(after, s).is_normalized()
        &&& id_at(after, s) != IdTree::Zero
        &&& s <= usize::MAX
        &&& if displaced.contains(s as usize) {
            purged.tracks(id_at(after, s), s as usize)
        } else {
            purged.covers(id_at(after, s), s as usize)
        }
    } by {
        assert(data[s] is Some);
        assert(id_at(after, s) == id_at(data, s));
        if displaced.contains(s as usize) {
            lemma_purge_tracks(index, did, d, id_at(data, s), s as usize);
        } else {
            lemma_purge_keeps(index, did, d, id_at(data, s), s as usize);
        }
    }
}

/// An entry of the map is displaced by a share exactly where its own share
/// has a point in common with that share.
pub proof fn lemma_displaced_overlap<T>(
    data: Seq<Option<(IdTree, T)>>,
    index: ItcIndex,
    id: IdTree,
    s: int,
)
    requires
        ItcMap::<T>::slots_wf(data, index),
        id.is_normalized(),
        0 <= s < data.len(),
        data[s] is Some,
    ensures
        index.displaced_spec(id).contains(s as usize) <==> !id_at(data, s).disjoint(id),
{
    let k = id_at(data, s);
    lemma_displaced_points(index, id, s as usize);
    lemma_covers_points(index, k, s as usize);
    if index.displaced_spec(id).contains(s as usize) {
        let p = choose|p: Seq<bool>| id.owns(p) && #[trigger] index.slot_at(p) == Some(s as usize);
        assert(k.owns(p) <==> index.slot_at(p) == Some(s as usize));
        assert(k.owns(p) && id.owns(p));
    }
    if !k.disjoint(id) {
        let p = choose|p: Seq<bool>| #[trigger] k.owns(p) && id.owns(p);
        assert(k.owns(p) <==> index.slot_at(p) == Some(s as usize));
        assert(id.owns(p) && index.slot_at(p) == Some(s as usize));
    }
}

/// After the displaced entries have been taken out, the storage slots and the
/// index make up a map again: the map before, without the entries whose
/// shares have a point in common with the new share, and with the new entry.
pub proof fn lemma_put<T>(
    data_old: Seq<Option<(IdTree, T)>>,
    index_old: ItcIndex,
    id: IdTree,
    value: T,
    ns: usize,
    data0: Seq<Option<(IdTree, T)>>,
    displaced: Seq<usize>,
    data: Seq<Option<(IdTree, T)>>,
    index: ItcIndex,
)
    requires
        ItcMap::<T>::slots_wf(data_old, index_old),
        id.is_normalized(),
        id != IdTree::Zero,
        !exists|t: int| ItcMap::<T>::holds(data_old, t, id),
        ns <= data_old.len(),
        ns < data_old.len() ==> data_old[ns as int] is None && data0 == data_old.update(
            ns as int,
            Some((id, value)),
        ),
        ns == data_old.len() ==> data0 == data_old.push(Some((id, value))),
        forall|s: usize| displaced.contains(s) <==> index_old.displaced_spec(id).contains(s),
        data.len() == data0.len(),
        forall|s: int|
            0 <= s < data0.len() ==> (#[trigger] data[s]) == if displaced.contains(s as usize) {
                None
            } else {
                data0[s]
            },
        ItcMap::<T>::slots_mid(data, index, displaced),
    ensures
        ItcMap::<T>::slots_wf(data, index),
        ItcMap::<T>::slots_map(data) == put(ItcMap::<T>::slots_map(data_old), id, value),
{
    let m = ItcMap::<T>::slots_map(data_old);
    let n = ItcMap::<T>::slots_map(data);
    assert(ItcMap::<T>::slots_wf(data, index)) by {
        assert forall|s: int| 0 <= s < data.len() && (#[trigger] data[s]) is Some implies {
            &&& id_at(data, s).is_normalized()
            &&& id_at(data, s) != IdTree::Zero
            &&& index.covers(id_at(data, s), s as usize)
            &&& s <= usize::MAX
        } by {
            assert(!displaced.contains(s as usize));
        }
    }
    lemma_slots_map(data_old, index_old);
    lemma_slots_map(data, index);
    if displaced.contains(ns) {
        lemma_displaced_occurs(index_old, id, ns);
    }
    assert(data[ns as int] == Some((id, value)));
    assert(ItcMap::<T>::holds(data, ns as int, id));
    lemma_overlaps_itself(id);
    assert forall|k: IdTree| n.contains_key(k) <==> put(m, id, value).contains_key(k) by {
        if n.contains_key(k) && k != id {
            let t = choose|t: int| ItcMap::<T>::holds(data, t, k);
            assert(data[t] is Some);
            assert(t != ns);
            assert(!displaced.contains(t as usize));
            assert(ItcMap::<T>::holds(data_old, t, k));
            lemma_displaced_overlap(data_old, index_old, id, t);
        }
        if put(m, id, value).contains_key(k) && k != id {
            let t = choose|t: int| ItcMap::<T>::holds(data_old, t, k);
            lemma_displaced_overlap(data_old, index_old, id, t);
            assert(!displaced.contains(t as usize));
            assert(data[t] == data0[t]);
            assert(ItcMap::<T>::holds(data, t, k));
        }
    }
    assert forall|k: IdTree| n.contains_key(k) implies #[trigger] n[k] == put(m, id, value)[k] by {
        let t = choose|t: int| ItcMap::<T>::holds(data, t, k);
        assert(data[t] is Some);
        if k != id {
            assert(t != ns);
            assert(!displaced.contains(t as usize));
            assert(ItcMap::<T>::holds(data_old, t, k));
            assert(data_old[t] is Some);
            assert(value_at(data, t) == value_at(data_old, t));
        } else {
            assert(data[ns as int] is Some);
            assert(t == ns);
        }
    }
    assert(n =~= put(m, id, value));
}

/// The entries that were taken out are those whose shares have a point in
/// common with the new share, each once.
pub proof fn lemma_removed<T>(
    data_old: Seq<Option<(IdTree, T)>>,
    index_old: ItcIndex,
    id: IdTree,
    displaced: Seq<usize>,
    removed: Seq<(IdTree, T)>,
)
    requires
        ItcMap::<T>::slots_wf(data_old, index_old),
        id.is_normalized(),
        displaced.no_duplicates(),
        forall|s: usize| displaced.contains(s) <==> index_old.displaced_spec(id).contains(s),
        removed.len() == displaced.len(),
        forall|j: int|
            0 <= j < displaced.len() ==> (#[trigger] displaced[j]) < data_old.len()
                && data_old[displaced[j] as int] is Some,
        forall|j: int|
            0 <= j < removed.len() ==> (#[trigger] removed[j]) == data_old[displaced[j] as int].unwrap(),
    ensures
        displaced_by(removed, ItcMap::<T>::slots_map(data_old), id),
{
    let m = ItcMap::<T>::slots_map(data_old);
    lemma_slots_map(data_old, index_old);
    assert forall|j: int| 0 <= j < removed.len() implies m.contains_key((#[trigger] removed[j]).0)
        && m[removed[j].0] == removed[j].1 && !removed[j].0.disjoint(id) by {
        let s = displaced[j] as int;
        assert(displaced.contains(displaced[j]));
        assert(data_old[s] is Some);
        lemma_displaced_overlap(data_old, index_old, id, s);
    }
    assert forall|i: int, j: int| 0 <= i < j < removed.len() implies (#[trigger] removed[i]).0 != (
    #[trigger] removed[j]).0 by {
        let s = displaced[i] as int;
        let t = displaced[j] as int;
        assert(data_old[s] is Some);
        assert(data_old[t] is Some);
        lemma_entries_disjoint(data_old, index_old, s, t);
    }
    assert forall|k: IdTree| m.contains_key(k) && !k.disjoint(id) implies exists|j: int|
        0 <= j < removed.len() && (#[trigger] removed[j]).0 == k by {
        let t = choose|t: int| ItcMap::<T>::holds(data_old, t, k);
        lemma_displaced_overlap(data_old, index_old, id, t);
        assert(displaced.contains(t as usize));
        let j = choose|j: int| 0 <= j < displaced.len() && displaced[j] == t as usize;
        assert(removed[j].0 == k);
    }
}

/// The entries among the first `i + 1` slots are those among the first `i`,
/// and the entry of slot `i` if it holds one.
pub proof fn lemma_live_step<T>(data: Seq<Option<(IdTree, T)>>, i: int)
    requires
        0 <= i < data.len(),
    ensures
        live(data.take(i + 1)) == match data[i] {
            Some(e) => live(data.take(i)).push(e),
            None => live(data.take(i)),
        },
        live(data.take(0)) == Seq::<(IdTree, T)>::empty(),
{
    assert(data.take(i + 1).drop_last() =~= data.take(i));
    assert(data.take(i + 1).last() == data[i]);
}

/// An entry among the first `n` storage slots stands in one of them.
pub proof fn lemma_live_slot<T>(data: Seq<Option<(IdTree, T)>>, n: int, i: int) -> (s: int)
    requires
        0 <= n <= data.len(),
        0 <= i < live(data.take(n)).len(),
    ensures
        0 <= s < n,
        data[s] == Some(live(data.take(n))[i]),
    decreases n,
{
    if n == 0 {
        0
    } else {
        lemma_live_step(data, n - 1);
        if i < live(data.take(n - 1)).len() {
            lemma_live_slot(data, n - 1, i)
        } else {
            n - 1
        }
    }
}

/// What one of the first `n` storage slots holds is an entry among them.
pub proof fn lemma_slot_live<T>(data: Seq<Option<(IdTree, T)>>, n: int, s: int) -> (i: int)
    requires
        0 <= s < n <= data.len(),
        data[s] is Some,
    ensures
        0 <= i < live(data.take(n)).len(),
        live(data.take(n))[i] == data[s].unwrap(),
    decreases n,
{
    lemma_live_step(data, n - 1);
    if s < n - 1 {
        lemma_slot_live(data, n - 1, s)
    } else {
        live(data.take(n)).len() - 1
    }
}

/// No two entries among the first `n` storage slots have the same share.
pub proof fn lemma_live_distinct<T>(
    data: Seq<Option<(IdTree, T)>>,
    index: ItcIndex,
    n: int,
    i: int,
    j: int,
)
    requires
        ItcMap::<T>::slots_wf(data, index),
        0 <= n <= data.len(),
        0 <= i < j < live(data.take(n)).len(),
    ensures
        live(data.take(n))[i].0 != live(data.take(n))[j].0,
    decreases n,
{
    if n > 0 {
        lemma_live_step(data, n - 1);
        let before = live(data.take(n - 1));
        if j < before.len() {
            lemma_live_distinct(data, index, n - 1, i, j);
        } else {
            let s = lemma_live_slot(data, n - 1, i);
            assert(data[s] is Some);
            assert(data[n - 1] is Some);
            lemma_entries_disjoint(data, index, s, n - 1);
        }
    }
}

/// In the storage slots of a map, every entry is found under its share, and
/// no share is the key of two entries.
pub proof fn lemma_slots_map<T>(data: Seq<Option<(IdTree, T)>>, index: ItcIndex)
    requires
        ItcMap::<T>::slots_wf(data, index),
    ensures
        forall|s: int|
            0 <= s < data.len() && (#[trigger] data[s]) is Some ==> ItcMap::<T>::slots_map(
                data,
            ).contains_key(id_at(data, s)) && ItcMap::<T>::slots_map(data)[id_at(data, s)]
                == value_at(data, s),
        forall|s: int, t: int|
            ItcMap::<T>::holds(data, s, id_at(data, t)) && 0 <= t < data.len() && (
            #[trigger] data[t]) is Some && (#[trigger] data[s]) is Some ==> s == t,
{
    assert forall|s: int, t: int|
        ItcMap::<T>::holds(data, s, id_at(data, t)) && 0 <= t < data.len() && (
        #[trigger] data[t]) is Some && (#[trigger] data[s]) is Some implies s == t by {
        lemma_covers_get(index, id_at(data, s), s as usize);
        lemma_covers_get(index, id_at(data, t), t as usize);
    }
    assert forall|s: int| 0 <= s < data.len() && (#[trigger] data[s]) is Some implies ItcMap::<
        T,
    >::slots_map(data).contains_key(id_at(data, s)) && ItcMap::<T>::slots_map(data)[id_at(data, s)]
        == value_at(data, s) by {
        let id = id_at(data, s);
        assert(ItcMap::<T>::holds(data, s, id));
        let c = choose|c: int| ItcMap::<T>::holds(data, c, id);
        assert(data[c] is Some);
        assert(c == s);
    }
}

/// What one clock records beyond another has an event in a share exactly
/// where the first clock records more than the second at some point of the
/// share.
pub proof fn lemma_missing_is_ahead(mine: EventTree, theirs: EventTree, id: IdTree)
    requires
        mine.wf(),
        theirs.wf(),
        id.is_normalized(),
    ensures
        mine.diff_spec(theirs).contains_spec(id) == mine.ahead_in(theirs, id),
{
    let d = mine.diff_spec(theirs);
    lemma_diff(mine, theirs);
    lemma_contains(d, id);
    if d.positive_in(id) {
        let p = choose|p: Seq<bool>| id.owns(p) && #[trigger] d.value_at(p) > 0;
        assert(id.owns(p) && mine.value_at(p) > theirs.value_at(p));
    }
    if mine.ahead_in(theirs, id) {
        let p = choose|p: Seq<bool>| id.owns(p) && #[trigger] mine.value_at(p) > theirs.value_at(p);
        assert(id.owns(p) && d.value_at(p) > 0);
    }
}

/// Entries with shares of which no two have a point in common, all put into a
/// map one after the other, are all in the map afterwards.
pub proof fn lemma_patch_taken_over<T>(
    m: Map<IdTree, T>,
    entries: Seq<(IdTree, T)>,
    incoming: EventTree,
)
    requires
        forall|i: int|
            0 <= i < entries.len() ==> (#[trigger] entries[i]).0.is_normalized()
                && incoming.contains_spec(entries[i].0),
        forall|i: int, j: int|
            0 <= i < j < entries.len() ==> (#[trigger] entries[i]).0.disjoint(
                (#[trigger] entries[j]).0,
            ),
    ensures
        forall|i: int|
            0 <= i < entries.len() ==> put_all(m, entries, incoming).contains_key(
                (#[trigger] entries[i]).0,
            ) && put_all(m, entries, incoming)[entries[i].0] == entries[i].1,
    decreases entries.len(),
{
    if entries.len() > 0 {
        let before = entries.drop_last();
        let last = entries.last();
        assert forall|i: int| 0 <= i < before.len() implies (#[trigger] before[i]).0.is_normalized()
            && incoming.contains_spec(before[i].0) by {
            assert(before[i] == entries[i]);
        }
        assert forall|i: int, j: int| 0 <= i < j < before.len() implies (#[trigger] before[i]).0.disjoint(
            (#[trigger] before[j]).0,
        ) by {
            assert(before[i] == entries[i] && before[j] == entries[j]);
        }
        lemma_patch_taken_over(m, before, incoming);
        let prev = put_all(m, before, incoming);
        let now = put_all(m, entries, incoming);
        assert(last == entries[entries.len() - 1]);
        assert(now == put(prev, last.0, last.1));
        assert forall|i: int| 0 <= i < entries.len() implies now.contains_key(
            (#[trigger] entries[i]).0,
        ) && now[entries[i].0] == entries[i].1 by {
            if i < before.len() {
                assert(before[i] == entries[i]);
                let k = entries[i].0;
                assert(k.disjoint(last.0));
                assert(last.0 != IdTree::Zero);
                lemma_overlaps_itself(last.0);
                assert(k != last.0);
            }
        }
    }
}

/// The first free slot is the slot before which every slot holds an entry,
/// and which holds none itself or lies at the end.
pub proof fn lemma_first_free<T>(slots: Seq<Option<(IdTree, T)>>, from: int, ns: int)
    requires
        0 <= from <= ns <= slots.len(),
        forall|s: int| from <= s < ns ==> (#[trigger] slots[s]) is Some,
        ns < slots.len() ==> slots[ns] is None,
    ensures
        first_free_from(slots, from) == ns,
    decreases ns - from,
{
    if from < ns {
        assert(slots[from] is Some);
        lemma_first_free(slots, from + 1, ns);
    }
}

/// A new value under a share that is a key of the map takes the slot of the
/// old value.
pub proof fn lemma_upsert_slots<T>(
    data: Seq<Option<(IdTree, T)>>,
    index: ItcIndex,
    s: int,
    id: IdTree,
    value: T,
)
    requires
        ItcMap::<T>::slots_wf(data, index),
        ItcMap::<T>::holds(data, s, id),
    ensures
        data.update(s, Some((id, value))) == put_slots(data, id, value),
{
    lemma_slots_map(data, index);
    let c = choose|c: int| ItcMap::<T>::holds(data, c, id);
    assert(data[c] is Some);
    assert(data[s] is Some);
    assert(c == s);
}

/// After the displaced entries have been taken out, the new entry stands in
/// the first slot that was free, and every slot of an entry whose share has
/// a point in common with the new share is empty.
pub proof fn lemma_put_slots<T>(
    data_old: Seq<Option<(IdTree, T)>>,
    index_old: ItcIndex,
    id: IdTree,
    value: T,
    ns: usize,
    data0: Seq<Option<(IdTree, T)>>,
    displaced: Seq<usize>,
    data: Seq<Option<(IdTree, T)>>,
)
    requires
        ItcMap::<T>::slots_wf(data_old, index_old),
        id.is_normalized(),
        !exists|t: int| ItcMap::<T>::holds(data_old, t, id),
        ns <= data_old.len(),
        forall|s: int| 0 <= s < ns ==> (#[trigger] data_old[s]) is Some,
        ns < data_old.len() ==> data_old[ns as int] is None && data0 == data_old.update(
            ns as int,
            Some((id, value)),
        ),
        ns == data_old.len() ==> data0 == data_old.push(Some((id, value))),
        forall|s: usize| displaced.contains(s) <==> index_old.displaced_spec(id).contains(s),
        data.len() == data0.len(),
        forall|s: int|
            0 <= s < data0.len() ==> (#[trigger] data[s]) == if displaced.contains(s as usize) {
                None
            } else {
                data0[s]
            },
    ensures
        data == put_slots(data_old, id, value),
{
    lemma_first_free(data_old, 0, ns as int);
    let want = put_slots(data_old, id, value);
    assert(want.len() == data.len());
    assert forall|s: int| 0 <= s < data.len() implies data[s] == want[s] by {
        if s == ns {
            if displaced.contains(ns) {
                lemma_displaced_occurs(index_old, id, ns);
            }
        } else if data0[s] is Some {
            assert(data_old[s] is Some);
            assert(id_at(data0, s) == id_at(data_old, s));
            lemma_displaced_overlap(data_old, index_old, id, s);
        } else {
            if displaced.contains(s as usize) {
                lemma_displaced_occurs(index_old, id, s as usize);
            }
        }
    }
    assert(data =~= want);
}

} // verus!
