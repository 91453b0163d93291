//! Properties that relate several operations, stated over the models that
//! the operations' contracts use, and proved.

use crate::acquirable::{
    after_release, after_weak_release, alive, released, with_strong, with_weak, HandleView, Record,
};
use crate::metadata::{lemma_reachability, reach_from, ExtractionMetadata, TypeKey};
use crate::world::{entity_added, query_items, selected, World};
use vstd::prelude::*;

verus! {

/// A record after `n` more strong handles, one at a time.
pub open spec fn after_clones<V>(r: Record<V>, n: nat) -> Record<V>
    decreases n,
{
    if n == 0 {
        r
    } else {
        let p = after_clones(r, (n - 1) as nat);
        with_strong(p, (p.strong + 1) as usize)
    }
}

/// A record after `k` strong handles are given up, one at a time.
pub open spec fn after_releases<V>(r: Record<V>, k: nat) -> Record<V>
    decreases k,
{
    if k == 0 {
        r
    } else {
        after_release(after_releases(r, (k - 1) as nat))
    }
}

/// Refcount arithmetic: a record with one strong handle has `n + 1` after
/// `n` clones, and `n + 1 - k` once `k` of them are given up; the value
/// stays alive meanwhile.
pub proof fn lemma_refcount_arithmetic<V>(r: Record<V>, n: nat, k: nat)
    requires
        r.strong == 1,
        r.payload is Some,
        n + 1 <= usize::MAX,
        k <= n,
    ensures
        after_clones(r, n).strong == n + 1,
        after_releases(after_clones(r, n), k).strong == n + 1 - k,
        after_releases(after_clones(r, n), k).payload == r.payload,
    decreases n + k,
{
    if k > 0 {
        lemma_refcount_arithmetic(r, n, (k - 1) as nat);
    } else if n > 0 {
        lemma_refcount_arithmetic(r, (n - 1) as nat, 0);
    }
}

/// Weak safety: a weak handle never changes the strong count; once the
/// last strong handle of an unpinned record is given up, no handle on that
/// record is alive (so an upgrade fails), and when the last weak handle
/// goes too, both counts are zero.
pub proof fn lemma_weak_safety<V>(recs: Seq<Record<V>>, h: HandleView, w: HandleView)
    requires
        alive(recs, h),
        recs[h.slot as int].strong == 1,
        !recs[h.slot as int].pinned,
        w.slot == h.slot,
    ensures
        with_weak(recs[h.slot as int], (recs[h.slot as int].weak + 1) as usize).strong == recs[h.slot as int].strong,
        !alive(released(recs, h), w),
        released(recs, h)[h.slot as int].payload is None,
        recs[h.slot as int].weak == 1 ==> after_weak_release(released(recs, h)[h.slot as int]).strong == 0
            && after_weak_release(released(recs, h)[h.slot as int]).weak == 0,
{
}

/// Round trip: right after an entity is added, extracting its own concrete
/// type is owed, and the handle views the record that holds the value added.
pub proof fn lemma_round_trip<V>(
    before: &World<V>,
    after: &World<V>,
    id: u32,
    kind: TypeKey,
    metadata: Seq<ExtractionMetadata>,
    value: V,
)
    requires
        entity_added(after, before, id, kind, metadata, value, after.stored(id), 1),
    ensures
        selected(after, kind, id),
        after.records()[after.stored(id).slot as int].strong < usize::MAX,
        after.records()[after.stored(id).slot as int].payload == Some(value),
{
    assert(after.entities().contains_key(id));
}

/// Reachability: for a concrete type seen for the first time, extraction of
/// a component from its entity is owed exactly for the types its
/// registration declares.
pub proof fn lemma_world_reachability<V>(
    before: &World<V>,
    after: &World<V>,
    id: u32,
    kind: TypeKey,
    metadata: Seq<ExtractionMetadata>,
    value: V,
    t: TypeKey,
)
    requires
        entity_added(after, before, id, kind, metadata, value, after.stored(id), 1),
        !before.heap_state().has_table(kind),
    ensures
        selected(after, t, id) <==> reach_from(metadata, 0).contains(t),
{
    lemma_reachability(metadata, t);
    assert(after.entities()[id] == kind);
}

/// Query snapshot: an entity is yielded at most once by a query; with the
/// query's own contract, every entity present and declaring the component
/// is yielded exactly once.
pub proof fn lemma_query_yields_once<V>(
    w: &World<V>,
    component: TypeKey,
    items: Seq<(crate::entity::EntityId, HandleView)>,
    j1: int,
    j2: int,
)
    requires
        query_items(w, component, items),
        0 <= j1 < items.len(),
        0 <= j2 < items.len(),
        items[j1].0 == items[j2].0,
    ensures
        j1 == j2,
{
}

} // verus!
