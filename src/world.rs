//! The world: archetypes keyed by concrete type, an index from entity to
//! archetype, and an index from component type to the archetypes that
//! provide it.

use crate::acquirable::{
    after_release, bumped, can_bump, dropped, keeps_pins, lemma_registration_twice, with_pin,
    lemma_same_tables_keeps_registration, released,
    Acquirable, HandleView, Heap, Record, WeakAcquirable,
};
use crate::archetype::Archetype;
use crate::entity::EntityId;
use crate::query::QueryIter;
use crate::metadata::{offsets_fit, ExtractionMetadata, TypeKey};
use crate::index::{
    entity_entries, entity_index_contains, entity_index_get, entity_index_insert, entity_index_keys,
    entity_index_len, entity_index_new, entity_index_remove, type_entries, type_index_clear,
    type_index_get, type_index_insert, type_index_new, type_index_remove,
};
use dashmap::DashMap;
use std::collections::HashMap;
use vstd::prelude::*;

verus! {

broadcast use vstd::std_specs::hash::group_hash_axioms;

/// Why a world operation failed.
#[derive(Debug)]
pub enum WorldError {
    /// No entity has this identifier.
    EntityNotFound(EntityId),
    /// The entity's concrete type does not declare the requested component.
    ComponentNotFound { entity_id: EntityId, component: TypeKey },
    /// The entity index named an archetype that is missing: a broken invariant.
    ArchetypeNotFound(EntityId),
    /// Some removals of a batch failed.
    PartialRemoval { succeeded: Vec<EntityId>, failed: Vec<EntityId> },
}

/// Entities of any concrete type, stored in one archetype per type.
pub struct World<V> {
    heap: Heap<V>,
    archetypes: HashMap<TypeKey, Archetype>,
    entity_index: DashMap<u32, TypeKey>,
    type_index: DashMap<TypeKey, Vec<TypeKey>>,
    next_entity_id: u32,
}


/// `new` is `old` with `value` stored as entity `id` of concrete type `kind`
/// (registered by `metadata`) in a fresh record that has `strong` strong
/// handles; `h` is the record's slot and generation.
pub open spec fn entity_added<V>(
    new: &World<V>,
    old: &World<V>,
    id: u32,
    kind: TypeKey,
    metadata: Seq<ExtractionMetadata>,
    value: V,
    h: HandleView,
    strong: usize,
) -> bool {
    let table = old.heap_state().table_after(kind, metadata);
    &&& table.contains_key(kind)
    &&& !old.entities().contains_key(id)
    &&& new.entities() == old.entities().insert(id, kind)
    &&& new.kinds() == old.kinds().insert(kind)
    &&& new.stored(id) == (HandleView {
        slot: h.slot,
        generation: h.generation,
        component: kind,
        offset: table[kind],
    })
    &&& h.slot < new.records().len()
    &&& new.records()[h.slot as int] == (Record {
        payload: Some(value),
        kind,
        strong,
        weak: 0,
        generation: h.generation,
        pinned: true,
    })
    &&& h.slot < old.records().len() ==> old.records()[h.slot as int].strong == 0
        && old.records()[h.slot as int].weak == 0
    &&& new.records().len() >= old.records().len()
    &&& forall|i: int|
        0 <= i < old.records().len() && i != h.slot ==> #[trigger] new.records()[i] == old.records()[i]
    &&& forall|e: u32| #[trigger] old.entities().contains_key(e) ==> new.stored(e) == old.stored(e)
    &&& new.heap_state().registered_from(&old.heap_state(), kind, metadata)
}


/// The outcome of removing `ids[..n]` one after another from `entities`: the
/// entities left, the identifiers removed, and those that were not there.
pub open spec fn removal_outcome(entities: Map<u32, TypeKey>, ids: Seq<EntityId>, n: int) -> (
    Map<u32, TypeKey>,
    Seq<EntityId>,
    Seq<EntityId>,
)
    decreases n,
{
    if n <= 0 {
        (entities, Seq::empty(), Seq::empty())
    } else {
        let prev = removal_outcome(entities, ids, n - 1);
        let e = ids[n - 1];
        if prev.0.contains_key(e.id) {
            (prev.0.remove(e.id), prev.1.push(e), prev.2)
        } else {
            (prev.0, prev.1, prev.2.push(e))
        }
    }
}

/// A batch of distinct identifiers splits into exactly the present ones,
/// which are removed, and exactly the absent ones; the number of entities
/// drops by the number removed.
pub proof fn lemma_batch_removal(entities: Map<u32, TypeKey>, ids: Seq<EntityId>, n: int)
    requires
        0 <= n <= ids.len(),
        ids.no_duplicates(),
        entities.dom().finite(),
    ensures
        ({
            let out = removal_outcome(entities, ids, n);
            &&& forall|e: EntityId| #[trigger]
                out.1.contains(e) <==> (ids.take(n).contains(e) && entities.contains_key(e.id))
            &&& forall|e: EntityId| #[trigger]
                out.2.contains(e) <==> (ids.take(n).contains(e) && !entities.contains_key(e.id))
            &&& out.1.no_duplicates()
            &&& out.2.no_duplicates()
            &&& out.0.dom().finite()
            &&& out.0.len() + out.1.len() == entities.len()
            &&& forall|k: u32| #[trigger]
                out.0.contains_key(k) <==> (entities.contains_key(k) && !ids.take(n).contains(
                    EntityId { id: k },
                ))
            &&& forall|k: u32| #[trigger] out.0.contains_key(k) ==> out.0[k] == entities[k]
        }),
    decreases n,
{
    if n > 0 {
        lemma_batch_removal(entities, ids, n - 1);
        let prev = removal_outcome(entities, ids, n - 1);
        let e = ids[n - 1];
        let out = removal_outcome(entities, ids, n);
        assert(ids.take(n) =~= ids.take(n - 1).push(e));
        assert(!ids.take(n - 1).contains(e)) by {
            if ids.take(n - 1).contains(e) {
                let j = choose|j: int| 0 <= j < n - 1 && #[trigger] ids.take(n - 1)[j] == e;
                assert(ids[j] == ids[n - 1]);
            }
        }
        assert(e == EntityId { id: e.id });
        assert forall|x: EntityId| #[trigger] ids.take(n).contains(x) <==> (ids.take(n - 1).contains(x) || x == e) by {
            if ids.take(n).contains(x) && x != e {
                let j = choose|j: int| 0 <= j < n && #[trigger] ids.take(n)[j] == x;
                assert(ids.take(n - 1)[j] == x);
            }
            if ids.take(n - 1).contains(x) {
                let j = choose|j: int| 0 <= j < n - 1 && #[trigger] ids.take(n - 1)[j] == x;
                assert(ids.take(n)[j] == x);
            }
            if x == e {
                assert(ids.take(n)[n - 1] == e);
            }
        }
        assert(!prev.1.contains(e));
        assert(!prev.2.contains(e));
        lemma_push_distinct(prev.1, e);
        lemma_push_distinct(prev.2, e);
        if prev.0.contains_key(e.id) {
            assert forall|x: EntityId| #[trigger] out.1.contains(x) <==> (prev.1.contains(x) || x == e) by {
                if out.1.contains(x) && x != e {
                    let j = choose|j: int| 0 <= j < out.1.len() && #[trigger] out.1[j] == x;
                    assert(prev.1[j] == x);
                }
                if prev.1.contains(x) {
                    let j = choose|j: int| 0 <= j < prev.1.len() && #[trigger] prev.1[j] == x;
                    assert(out.1[j] == x);
                }
                if x == e {
                    assert(out.1[prev.1.len() as int] == e);
                }
            }
            assert(out.0.dom() =~= prev.0.dom().remove(e.id));
            assert(out.0.len() == prev.0.len() - 1);
            assert forall|k: u32| #[trigger] out.0.contains_key(k) <==> (entities.contains_key(k) && !ids.take(n).contains(
                    EntityId { id: k })) by {
                if k == e.id {
                    assert(EntityId { id: k } == e);
                }
            }
        } else {
            assert forall|x: EntityId| #[trigger] out.2.contains(x) <==> (prev.2.contains(x) || x == e) by {
                if out.2.contains(x) && x != e {
                    let j = choose|j: int| 0 <= j < out.2.len() && #[trigger] out.2[j] == x;
                    assert(prev.2[j] == x);
                }
                if prev.2.contains(x) {
                    let j = choose|j: int| 0 <= j < prev.2.len() && #[trigger] prev.2[j] == x;
                    assert(out.2[j] == x);
                }
                if x == e {
                    assert(out.2[prev.2.len() as int] == e);
                }
            }
        }
    } else {
        assert(ids.take(0) =~= Seq::<EntityId>::empty());
    }
}

proof fn lemma_push_distinct(s: Seq<EntityId>, x: EntityId)
    requires
        s.no_duplicates(),
        !s.contains(x),
    ensures
        s.push(x).no_duplicates(),
{
    let t = s.push(x);
    assert forall|i: int, j: int| 0 <= i < t.len() && 0 <= j < t.len() && i != j implies t[i] != t[j] by {
        if i < s.len() && j < s.len() {
            assert(t[i] == s[i] && t[j] == s[j]);
        } else if i < s.len() {
            assert(t[i] == s[i]);
        } else if j < s.len() {
            assert(t[j] == s[j]);
        }
    }
}

/// A second removal of the same entity finds nothing: once a removal
/// succeeded, the entity is no longer in the world.
pub proof fn lemma_removed_stays_removed<V>(before: &World<V>, after: &World<V>, id: u32)
    requires
        after.entities() == before.entities().remove(id),
    ensures
        !after.entities().contains_key(id),
{
}


/// `new`'s records are `old`'s, except that the record of each entity that
/// left has had its pin cleared and the world's handle on it given up.
pub open spec fn removal_records<V>(new: &World<V>, old: &World<V>) -> bool {
    &&& new.records().len() == old.records().len()
    &&& forall|e: u32|
        #![trigger old.entities().contains_key(e), new.entities().contains_key(e)]
        old.entities().contains_key(e) && !new.entities().contains_key(e) ==> new.records()[old.stored(
            e,
        ).slot as int] == after_release(with_pin(old.records()[old.stored(e).slot as int], false))
    &&& forall|i: int|
        0 <= i < old.records().len() && (forall|e: u32|
            #![trigger old.entities().contains_key(e), new.entities().contains_key(e)]
            old.entities().contains_key(e) && !new.entities().contains_key(e) ==> old.stored(e).slot != i)
            ==> #[trigger] new.records()[i] == old.records()[i]
}

/// One more removal keeps `removal_records`.
proof fn lemma_removal_step<V>(old: &World<V>, prev: &World<V>, next: &World<V>, k: u32)
    requires
        old.wf(),
        prev.wf(),
        removal_records(prev, old),
        forall|e: u32| #[trigger]
            prev.entities().contains_key(e) ==> old.entities().contains_key(e) && prev.stored(e) == old.stored(e),
        prev.entities().contains_key(k),
        next.entities() == prev.entities().remove(k),
        next.records() == dropped(prev.records(), prev.stored(k)),
    ensures
        removal_records(next, old),
{
    let sk = old.stored(k).slot as int;
    assert(old.entities().contains_key(k));
    assert forall|e: u32|
        #![trigger old.entities().contains_key(e), prev.entities().contains_key(e)]
        old.entities().contains_key(e) && !prev.entities().contains_key(e) implies old.stored(e).slot != sk by {
        assert(old.stored(e).slot != old.stored(k).slot);
    }
    assert(prev.records()[sk] == old.records()[sk]);
    prev.heap.lemma_pinned_live(sk);
    assert forall|e: u32|
        #![trigger old.entities().contains_key(e), next.entities().contains_key(e)]
        old.entities().contains_key(e) && !next.entities().contains_key(e) implies next.records()[old.stored(
            e,
        ).slot as int] == after_release(with_pin(old.records()[old.stored(e).slot as int], false)) by {
        if e != k {
            assert(!prev.entities().contains_key(e));
            assert(old.stored(e).slot != old.stored(k).slot);
        }
    }
    assert forall|i: int|
        0 <= i < old.records().len() && (forall|e: u32|
            #![trigger old.entities().contains_key(e), next.entities().contains_key(e)]
            old.entities().contains_key(e) && !next.entities().contains_key(e) ==> old.stored(e).slot != i)
            implies #[trigger] next.records()[i] == old.records()[i] by {
        assert(!next.entities().contains_key(k));
        assert(i != sk);
        assert forall|e: u32|
            #![trigger old.entities().contains_key(e), prev.entities().contains_key(e)]
            old.entities().contains_key(e) && !prev.entities().contains_key(e) implies old.stored(e).slot != i by {
            assert(!next.entities().contains_key(e));
        }
    }
}

/// The records after the handle of each item is given up, the last item
/// first.
pub open spec fn released_all<V>(recs: Seq<Record<V>>, items: Seq<(EntityId, HandleView)>) -> Seq<Record<V>>
    decreases items.len(),
{
    if items.len() == 0 {
        recs
    } else {
        released_all(released(recs, items.last().1), items.drop_last())
    }
}

/// The records after the handle of each item took one more strong handle,
/// item by item (a handle outside the records changes nothing).
pub open spec fn bumped_all<V>(recs: Seq<Record<V>>, items: Seq<(EntityId, HandleView)>) -> Seq<Record<V>>
    decreases items.len(),
{
    if items.len() == 0 {
        recs
    } else {
        let prev = bumped_all(recs, items.drop_last());
        if items.last().1.slot < prev.len() {
            bumped(prev, items.last().1)
        } else {
            prev
        }
    }
}

/// Taking strong handles changes strong counts only.
pub proof fn lemma_bumped_all_keeps_values<V>(recs: Seq<Record<V>>, items: Seq<(EntityId, HandleView)>)
    ensures
        bumped_all(recs, items).len() == recs.len(),
        forall|i: int|
            0 <= i < recs.len() ==> {
                let r = #[trigger] bumped_all(recs, items)[i];
                &&& r.payload == recs[i].payload
                &&& r.kind == recs[i].kind
                &&& r.weak == recs[i].weak
                &&& r.generation == recs[i].generation
                &&& r.pinned == recs[i].pinned
            },
    decreases items.len(),
{
    if items.len() > 0 {
        lemma_bumped_all_keeps_values(recs, items.drop_last());
        let prev = bumped_all(recs, items.drop_last());
        let h = items.last().1;
        assert forall|i: int| 0 <= i < recs.len() implies {
            let r = #[trigger] bumped_all(recs, items)[i];
            &&& r.payload == recs[i].payload
            &&& r.kind == recs[i].kind
            &&& r.weak == recs[i].weak
            &&& r.generation == recs[i].generation
            &&& r.pinned == recs[i].pinned
        } by {
            assert(prev[i].payload == recs[i].payload);
        }
    }
}

/// Entity `e` of `w` is one whose concrete type declares `component`.
pub open spec fn selected<V>(w: &World<V>, component: TypeKey, e: u32) -> bool {
    w.entities().contains_key(e) && w.table(w.entities()[e]).contains_key(component)
}

/// `a` is the handle on entity `e` of `w` that views `component`.
pub open spec fn component_handle<V>(w: &World<V>, component: TypeKey, e: u32, a: HandleView) -> bool {
    a == (HandleView {
        slot: w.stored(e).slot,
        generation: w.stored(e).generation,
        component,
        offset: w.table(w.entities()[e])[component],
    })
}

/// `items` pairs selected entities of `w` with their `component` handles,
/// each entity at most once.
pub open spec fn query_items<V>(w: &World<V>, component: TypeKey, items: Seq<(EntityId, HandleView)>) -> bool {
    &&& forall|j: int|
        0 <= j < items.len() ==> selected(w, component, (#[trigger] items[j]).0.id) && component_handle(
            w,
            component,
            items[j].0.id,
            items[j].1,
        )
    &&& forall|j1: int, j2: int|
        0 <= j1 < items.len() && 0 <= j2 < items.len() && j1 != j2 ==> (#[trigger] items[j1]).0 != (
        #[trigger] items[j2]).0
}

impl<V> World<V> {
    /// Each entity's concrete type.
    pub closed spec fn entities(&self) -> Map<u32, TypeKey> {
        entity_entries(self.entity_index)
    }

    /// The concrete types that have an archetype.
    pub closed spec fn kinds(&self) -> Set<TypeKey> {
        self.archetypes@.dom()
    }

    /// The handle the world keeps for entity `id`.
    pub closed spec fn stored(&self, id: u32) -> HandleView {
        self.archetypes@[entity_entries(self.entity_index)[id]]@[id]
    }

    /// The records of all values.
    pub closed spec fn records(&self) -> Seq<Record<V>> {
        self.heap@
    }

    /// The heap of records.
    pub closed spec fn heap_state(&self) -> Heap<V> {
        self.heap
    }

    /// The identifier the next entity gets.
    pub closed spec fn next_id(&self) -> u32 {
        self.next_entity_id
    }

    /// Each entity is stored in the archetype of its concrete type, under a
    /// pinned record of that type, no two entities sharing a record; each
    /// archetype has its type's table; the type index lists, for each
    /// component, exactly the archetypes whose table declares it.
    pub closed spec fn wf(&self) -> bool {
        &&& self.heap.wf()
        &&& entity_entries(self.entity_index).dom().finite()
        &&& forall|id: u32| #[trigger]
            entity_entries(self.entity_index).contains_key(id) ==> id < self.next_entity_id
                && self.archetypes@.contains_key(entity_entries(self.entity_index)[id])
                && self.archetypes@[entity_entries(self.entity_index)[id]]@.contains_key(id)
        &&& forall|k: TypeKey| #[trigger]
            self.archetypes@.contains_key(k) ==> self.archetypes@[k].base_type() == k
                && self.heap.has_table(k)
        &&& forall|k: TypeKey, id: u32|
            self.archetypes@.contains_key(k) && #[trigger] self.archetypes@[k]@.contains_key(id)
                ==> entity_entries(self.entity_index).contains_key(id) && entity_entries(self.entity_index)[id] == k
        &&& forall|e: u32| #[trigger]
            entity_entries(self.entity_index).contains_key(e) ==> {
                let h = self.stored(e);
                &&& h.slot < self.heap@.len()
                &&& self.heap@[h.slot as int].generation == h.generation
                &&& self.heap@[h.slot as int].pinned
                &&& self.heap@[h.slot as int].kind == entity_entries(self.entity_index)[e]
            }
        &&& forall|e1: u32, e2: u32|
            #![trigger self.stored(e1), self.stored(e2)]
            entity_entries(self.entity_index).contains_key(e1) && entity_entries(self.entity_index).contains_key(e2) && e1 != e2
                ==> self.stored(e1).slot != self.stored(e2).slot
        &&& forall|c: TypeKey| #[trigger]
            type_entries(self.type_index).contains_key(c) ==> type_entries(self.type_index)[c]@.no_duplicates()
        &&& forall|c: TypeKey, k: TypeKey|
            #![trigger self.heap.table(k).contains_key(c)]
            #![trigger type_entries(self.type_index)[c]@.contains(k)]
            (self.archetypes@.contains_key(k) && self.heap.table(k).contains_key(c)) <==> (
            type_entries(self.type_index).contains_key(c) && type_entries(self.type_index)[c]@.contains(k))
    }

    /// What the invariant tells callers: the entities and archetypes are
    /// finitely many, every entity identifier is below the next one, and each
    /// entity's stored handle designates a live, pinned record of its type.
    pub proof fn lemma_wf(&self)
        requires
            self.wf(),
        ensures
            self.entities().dom().finite(),
            self.kinds().finite(),
            self.heap_state().wf(),
            self.heap_state()@ == self.records(),
            forall|e: u32| #[trigger] self.entities().contains_key(e) ==> e < self.next_id(),
            forall|e: u32| #[trigger] self.entities().contains_key(e) ==> {
                let h = self.stored(e);
                &&& h.slot < self.records().len()
                &&& self.records()[h.slot as int].generation == h.generation
                &&& self.records()[h.slot as int].pinned
                &&& self.records()[h.slot as int].strong > 0
                &&& self.records()[h.slot as int].kind == self.entities()[e]
                &&& self.kinds().contains(self.entities()[e])
            },
            forall|e1: u32, e2: u32|
                #![trigger self.stored(e1), self.stored(e2)]
                self.entities().contains_key(e1) && self.entities().contains_key(e2) && e1 != e2
                    ==> self.stored(e1).slot != self.stored(e2).slot,
    {
        assert forall|e: u32| #[trigger] self.entities().contains_key(e) implies self.records()[self.stored(
            e,
        ).slot as int].strong > 0 by {
            self.heap.lemma_pinned_live(self.stored(e).slot as int);
        }
    }

    /// An empty world.
    pub fn new() -> (r: Self)
        ensures
            r.wf(),
            r.entities() == Map::<u32, TypeKey>::empty(),
            r.kinds() == Set::<TypeKey>::empty(),
            r.records().len() == 0,
            r.next_id() == 0,
            forall|k: TypeKey| !#[trigger] r.heap_state().has_table(k),
    {
        World {
            heap: Heap::new(),
            archetypes: HashMap::new(),
            entity_index: entity_index_new(),
            type_index: type_index_new(),
            next_entity_id: 0,
        }
    }

    /// Read access to the records, for reading values through handles.
    pub fn heap(&self) -> (r: &Heap<V>)
        requires
            self.wf(),
        ensures
            *r == self.heap_state(),
            r.wf(),
            r@ == self.records(),
    {
        &self.heap
    }

    /// Lists `kind` in the type index under every component its table holds.
    fn register_archetype_types(&mut self, kind: TypeKey)
        requires
            old(self).heap.wf(),
            old(self).heap.has_table(kind),
            !old(self).archetypes@.contains_key(kind),
            forall|c: TypeKey| #[trigger]
                type_entries(old(self).type_index).contains_key(c) ==> type_entries(old(self).type_index)[c]@.no_duplicates(),
            forall|c: TypeKey, k: TypeKey|
                #![trigger old(self).heap.table(k).contains_key(c)]
                #![trigger type_entries(old(self).type_index)[c]@.contains(k)]
                (old(self).archetypes@.contains_key(k) && old(self).heap.table(k).contains_key(c))
                    <==> (type_entries(old(self).type_index).contains_key(c) && type_entries(old(self).type_index)[c]@.contains(k)),
        ensures
            final(self).heap == old(self).heap,
            final(self).archetypes == old(self).archetypes,
            final(self).entity_index == old(self).entity_index,
            final(self).next_entity_id == old(self).next_entity_id,
            forall|c: TypeKey| #[trigger]
                type_entries(final(self).type_index).contains_key(c) ==> type_entries(final(self).type_index)[c]@.no_duplicates(),
            forall|c: TypeKey, k: TypeKey|
                #![trigger final(self).heap.table(k).contains_key(c)]
                #![trigger type_entries(final(self).type_index)[c]@.contains(k)]
                ((old(self).archetypes@.contains_key(k) || k == kind) && final(self).heap.table(k).contains_key(c))
                    <==> (type_entries(final(self).type_index).contains_key(c) && type_entries(final(self).type_index)[c]@.contains(k)),
    {
        let types: Vec<TypeKey> = match self.heap.extractor(kind) {
            Some(e) => {
                let t = e.type_ids();
                let mut copy: Vec<TypeKey> = Vec::new();
                let mut j: usize = 0;
                while j < t.len()
                    invariant
                        0 <= j <= t@.len(),
                        copy@ == t@.take(j as int),
                    decreases t@.len() - j,
                {
                    copy.push(t[j]);
                    j = j + 1;
                    assert(copy@ =~= t@.take(j as int));
                }
                assert(copy@ =~= t@);
                copy
            },
            None => Vec::new(),
        };
        let ghost table = self.heap.table(kind);
        assert(forall|c: TypeKey| #[trigger] table.contains_key(c) <==> types@.contains(c));
        let mut i: usize = 0;
        while i < types.len()
            invariant
                0 <= i <= types@.len(),
                types@.no_duplicates(),
                forall|c: TypeKey| #[trigger] table.contains_key(c) <==> types@.contains(c),
                table == self.heap.table(kind),
                self.heap == old(self).heap,
                self.archetypes == old(self).archetypes,
                self.entity_index == old(self).entity_index,
                self.next_entity_id == old(self).next_entity_id,
                !old(self).archetypes@.contains_key(kind),
                forall|c: TypeKey| #[trigger]
                    type_entries(self.type_index).contains_key(c) ==> type_entries(self.type_index)[c]@.no_duplicates(),
                forall|c: TypeKey, k: TypeKey|
                    #![trigger self.heap.table(k).contains_key(c)]
                    #![trigger type_entries(self.type_index)[c]@.contains(k)]
                    ((old(self).archetypes@.contains_key(k) || (k == kind && types@.take(i as int).contains(c)))
                        && self.heap.table(k).contains_key(c))
                        <==> (type_entries(self.type_index).contains_key(c) && type_entries(self.type_index)[c]@.contains(k)),
            decreases types@.len() - i,
        {
            let c = types[i];
            let ghost before = type_entries(self.type_index);
            let mut list: Vec<TypeKey> = match type_index_remove(&mut self.type_index, c) {
                Some(l) => l,
                None => Vec::new(),
            };
            let ghost old_list = list@;
            assert(!old_list.contains(kind)) by {
                if old_list.contains(kind) {
                    assert(before.contains_key(c) && before[c]@.contains(kind));
                    assert(self.heap.table(kind).contains_key(c));
                    assert(types@.take(i as int).contains(c));
                    let j = choose|j: int| 0 <= j < i && #[trigger] types@.take(i as int)[j] == c;
                    assert(types@[j] == types@[i as int]);
                }
            }
            list.push(kind);
            proof {
                assert(list@[old_list.len() as int] == kind);
                assert forall|k: TypeKey| #[trigger] list@.contains(k) <==> (old_list.contains(k) || k == kind) by {
                    if old_list.contains(k) {
                        let j = choose|j: int| 0 <= j < old_list.len() && #[trigger] old_list[j] == k;
                        assert(list@[j] == k);
                    }
                    if list@.contains(k) && k != kind {
                        let j = choose|j: int| 0 <= j < list@.len() && #[trigger] list@[j] == k;
                        assert(old_list[j] == k);
                    }
                }
            }
            type_index_insert(&mut self.type_index, c, list);
            proof {
                assert(types@.take(i + 1) =~= types@.take(i as int).push(c));
                assert forall|d: TypeKey, k: TypeKey|
                    #![trigger self.heap.table(k).contains_key(d)]
                    #![trigger type_entries(self.type_index)[d]@.contains(k)]
                    ((old(self).archetypes@.contains_key(k) || (k == kind && types@.take(i + 1).contains(d)))
                        && self.heap.table(k).contains_key(d))
                        <==> (type_entries(self.type_index).contains_key(d) && type_entries(self.type_index)[d]@.contains(k)) by {
                    if d != c {
                        if types@.take(i + 1).contains(d) {
                            let j = choose|j: int| 0 <= j < i + 1 && #[trigger] types@.take(i + 1)[j] == d;
                            assert(types@.take(i as int)[j] == d);
                        }
                    } else {
                        assert(types@.take(i + 1)[i as int] == c);
                        if types@.take(i as int).contains(c) {
                            let j = choose|j: int| 0 <= j < i && #[trigger] types@.take(i as int)[j] == c;
                            assert(types@[j] == types@[i as int]);
                        }
                    }
                }
            }
            i = i + 1;
        }
        assert(types@.take(types@.len() as int) =~= types@);
    }
    /// Stores `value` as entity `id` in the archetype of `kind`, which is
    /// created on first use.
    fn insert_entity(&mut self, id: u32, kind: TypeKey, metadata: &[ExtractionMetadata], value: V) -> (r: Option<Acquirable>)
        requires
            old(self).wf(),
            offsets_fit(metadata@, 0, 0),
            id < old(self).next_entity_id,
            !entity_entries(old(self).entity_index).contains_key(id),
        ensures
            final(self).wf(),
            final(self).next_entity_id == old(self).next_entity_id,
            r is Some ==> final(self).heap.registered_from(&old(self).heap, kind, metadata@),
            r is None ==> final(self).heap == old(self).heap,
            ({
                let table = old(self).heap.table_after(kind, metadata@);
                match r {
                    Some(h) => {
                        &&& table.contains_key(kind)
                        &&& final(self).entities() == old(self).entities().insert(id, kind)
                        &&& final(self).kinds() == old(self).kinds().insert(kind)
                        &&& h@.component == kind
                        &&& h@.offset == 0
                        &&& final(self).stored(id) == (HandleView {
                            slot: h@.slot,
                            generation: h@.generation,
                            component: kind,
                            offset: table[kind],
                        })
                        &&& h@.slot < final(self).records().len()
                        &&& final(self).records()[h@.slot as int] == (Record {
                            payload: Some(value),
                            kind,
                            strong: 2,
                            weak: 0,
                            generation: h@.generation,
                            pinned: true,
                        })
                        &&& h@.slot < old(self).records().len() ==> old(self).records()[h@.slot as int].strong
                            == 0 && old(self).records()[h@.slot as int].weak == 0
                        &&& final(self).records().len() >= old(self).records().len()
                        &&& forall|i: int|
                            0 <= i < old(self).records().len() && i != h@.slot ==> final(self).records()[i]
                                == old(self).records()[i]
                        &&& forall|e: u32| #[trigger]
                            old(self).entities().contains_key(e) ==> final(self).stored(e) == old(self).stored(e)
                    },
                    None => {
                        &&& !table.contains_key(kind)
                        &&& final(self).entities() == old(self).entities()
                        &&& final(self).kinds() == old(self).kinds()
                        &&& final(self).records() == old(self).records()
                        &&& forall|e: u32| #[trigger]
                            old(self).entities().contains_key(e) ==> final(self).stored(e) == old(self).stored(e)
                    },
                }
            }),
    {
        if !self.heap.declares(kind, metadata) {
            return None;
        }
        self.heap.register(kind, metadata);
        let ghost registered = self.heap;
        proof {
            assert forall|c: TypeKey, k: TypeKey|
                #![trigger self.heap.table(k).contains_key(c)]
                #![trigger type_entries(self.type_index)[c]@.contains(k)]
                (self.archetypes@.contains_key(k) && self.heap.table(k).contains_key(c)) <==> (
                type_entries(self.type_index).contains_key(c) && type_entries(self.type_index)[c]@.contains(k)) by {
                if self.archetypes@.contains_key(k) {
                    assert(old(self).heap.has_table(k));
                    if k == kind {
                        assert(self.heap.table(kind) == old(self).heap.table_after(kind, metadata@));
                    } else {
                        assert(self.heap.has_table(k) <==> old(self).heap.has_table(k));
                    }
                }
            }
        }
        assert(registered.table_after(kind, metadata@) == old(self).heap.table_after(kind, metadata@));
        if !self.archetypes.contains_key(&kind) {
            self.register_archetype_types(kind);
            self.archetypes.insert(kind, Archetype::new(kind));
        }
        let ghost ready = *self;
        let mut arch = match self.archetypes.remove(&kind) {
            Some(a) => a,
            None => {
                return None;
            },
        };
        assert(!arch@.contains_key(id));
        let ghost heap_before = self.heap;
        assert(heap_before@ == old(self).heap@);
        let r = arch.insert(&mut self.heap, id, kind, metadata, value);
        let ghost inserted = arch;
        self.archetypes.insert(kind, arch);
        match r {
            Some(h) => {
                entity_index_insert(&mut self.entity_index, id, kind);
                proof {
                    assert(self.archetypes@[kind]@ == inserted@);
                    assert(inserted@[id] == self.stored(id));
                    lemma_registration_twice(&old(self).heap, &registered, &self.heap, kind, metadata@);
                    assert(self.entities() =~= old(self).entities().insert(id, kind));
                    assert(self.kinds() =~= old(self).kinds().insert(kind));
                    assert forall|e: u32| #[trigger] old(self).entities().contains_key(e) implies self.stored(e) == old(self).stored(e) by {
                        assert(e != id);
                    }
                    assert forall|c: TypeKey, k: TypeKey|
                        #![trigger self.heap.table(k).contains_key(c)]
                        #![trigger type_entries(self.type_index)[c]@.contains(k)]
                        (self.archetypes@.contains_key(k) && self.heap.table(k).contains_key(c)) <==> (
                        type_entries(self.type_index).contains_key(c) && type_entries(self.type_index)[c]@.contains(k)) by {
                        assert(self.heap.has_table(k) <==> ready.heap.has_table(k));
                    }
                    let table = old(self).heap.table_after(kind, metadata@);
                    assert(table.contains_key(kind));
                    assert(self.stored(id) == (HandleView {
                            slot: h@.slot,
                            generation: h@.generation,
                            component: kind,
                            offset: table[kind],
                        }));
                    assert(h@.slot < old(self).records().len() ==> old(self).records()[h@.slot as int].strong
                            == 0 && old(self).records()[h@.slot as int].weak == 0);
                    assert forall|i: int|
                            0 <= i < old(self).records().len() && i != h@.slot implies self.records()[i]
                                == old(self).records()[i] by {
                        assert(self.heap@[i] == heap_before@[i]);
                    }
                    assert forall|e: u32| #[trigger] entity_entries(old(self).entity_index).contains_key(e) implies old(self).stored(e).slot
                        != h@.slot by {
                        let hs = old(self).stored(e);
                        old(self).heap.lemma_pinned_live(hs.slot as int);
                    }
                    assert forall|e: u32| #[trigger] entity_entries(self.entity_index).contains_key(e) implies {
                        let hv = self.stored(e);
                        &&& hv.slot < self.heap@.len()
                        &&& self.heap@[hv.slot as int].generation == hv.generation
                        &&& self.heap@[hv.slot as int].pinned
                        &&& self.heap@[hv.slot as int].kind == entity_entries(self.entity_index)[e]
                    } by {
                        if e != id {
                            assert(entity_entries(old(self).entity_index).contains_key(e));
                            let hs = old(self).stored(e);
                            assert(self.stored(e) == hs);
                            assert(self.heap@[hs.slot as int] == old(self).heap@[hs.slot as int]);
                        }
                    }
                    assert forall|e1: u32, e2: u32|
                        #![trigger self.stored(e1), self.stored(e2)]
                        entity_entries(self.entity_index).contains_key(e1) && entity_entries(self.entity_index).contains_key(e2) && e1 != e2
                            implies self.stored(e1).slot != self.stored(e2).slot by {
                        if e1 != id && e2 != id {
                            assert(old(self).stored(e1) == self.stored(e1));
                            assert(old(self).stored(e2) == self.stored(e2));
                        } else if e1 == id {
                            assert(entity_entries(old(self).entity_index).contains_key(e2));
                        } else {
                            assert(entity_entries(old(self).entity_index).contains_key(e1));
                        }
                    }
                }
                Some(h)
            },
            None => {
                proof {
                    assert(false);
                }
                None
            },
        }
    }
    /// Adds `value` as a new entity of concrete type `kind`, registered by
    /// `metadata` when the type is first seen, and returns its identifier
    /// with a handle that views the value itself. No entity is added when
    /// identifiers are exhausted or the type's table does not declare the
    /// type itself.
    pub fn add_entity_with_acquirable(&mut self, kind: TypeKey, metadata: &[ExtractionMetadata], value: V) -> (r:
        Option<(EntityId, Acquirable)>)
        requires
            old(self).wf(),
            offsets_fit(metadata@, 0, 0),
        ensures
            final(self).wf(),
            match r {
                Some((e, h)) => {
                    &&& e.id == old(self).next_id()
                    &&& final(self).next_id() == old(self).next_id() + 1
                    &&& h@.component == kind
                    &&& h@.offset == 0
                    &&& entity_added(final(self), old(self), e.id, kind, metadata@, value, h@, 2)
                },
                None => {
                    &&& old(self).next_id() == u32::MAX || !old(self).heap_state().table_after(
                        kind,
                        metadata@,
                    ).contains_key(kind)
                    &&& final(self).entities() == old(self).entities()
                    &&& final(self).kinds() == old(self).kinds()
                    &&& final(self).records() == old(self).records()
                    &&& final(self).next_id() == old(self).next_id()
                    &&& final(self).heap_state() == old(self).heap_state()
                },
            },
    {
        if self.next_entity_id == u32::MAX {
            return None;
        }
        let id = self.next_entity_id;
        self.next_entity_id = id + 1;
        match self.insert_entity(id, kind, metadata, value) {
            Some(h) => Some((EntityId::new(id), h)),
            None => {
                self.next_entity_id = id;
                None
            },
        }
    }

    /// Adds `value` as a new entity of concrete type `kind` and returns its
    /// identifier; the world holds the only handle.
    pub fn add_entity(&mut self, kind: TypeKey, metadata: &[ExtractionMetadata], value: V) -> (r: Option<EntityId>)
        requires
            old(self).wf(),
            offsets_fit(metadata@, 0, 0),
        ensures
            final(self).wf(),
            match r {
                Some(e) => {
                    &&& e.id == old(self).next_id()
                    &&& final(self).next_id() == old(self).next_id() + 1
                    &&& entity_added(final(self), old(self), e.id, kind, metadata@, value, final(self).stored(e.id), 1)
                },
                None => {
                    &&& old(self).next_id() == u32::MAX || !old(self).heap_state().table_after(
                        kind,
                        metadata@,
                    ).contains_key(kind)
                    &&& final(self).entities() == old(self).entities()
                    &&& final(self).kinds() == old(self).kinds()
                    &&& final(self).records() == old(self).records()
                    &&& final(self).next_id() == old(self).next_id()
                    &&& final(self).heap_state() == old(self).heap_state()
                },
            },
    {
        match self.add_entity_with_acquirable(kind, metadata, value) {
            Some((e, h)) => {
                let ghost mid = *self;
                h.release(&mut self.heap);
                proof {
                    assert(self.heap.same_tables(&mid.heap));
                    lemma_same_tables_keeps_registration(&old(self).heap, &mid.heap, &self.heap, kind, metadata@);
                    assert forall|c: TypeKey, k: TypeKey|
                        #![trigger self.heap.table(k).contains_key(c)]
                        #![trigger type_entries(self.type_index)[c]@.contains(k)]
                        (self.archetypes@.contains_key(k) && self.heap.table(k).contains_key(c)) <==> (
                        type_entries(self.type_index).contains_key(c) && type_entries(self.type_index)[c]@.contains(k)) by {
                        assert(self.heap.has_table(k) <==> mid.heap.has_table(k));
                    }
                    assert forall|i: int|
                        0 <= i < old(self).records().len() && i != h@.slot implies #[trigger] self.records()[i] == old(self).records()[i] by {
                        assert(mid.records()[i] == old(self).records()[i]);
                    }
                }
                Some(e)
            },
            None => None,
        }
    }
    /// The offset table of the concrete type `kind`.
    pub open spec fn table(&self, kind: TypeKey) -> Map<TypeKey, usize> {
        self.heap_state().table(kind)
    }

    /// `self` differs from `prev` in its records alone.
    pub open spec fn same_entities(&self, prev: &World<V>) -> bool {
        &&& self.entities() == prev.entities()
        &&& self.kinds() == prev.kinds()
        &&& self.next_id() == prev.next_id()
        &&& forall|e: u32| #[trigger] prev.entities().contains_key(e) ==> self.stored(e) == prev.stored(e)
        &&& self.heap_state().same_tables(&prev.heap_state())
    }

    proof fn lemma_heap_step(&self, prev: &World<V>)
        requires
            prev.wf(),
            self.heap.wf(),
            self.heap.same_tables(&prev.heap),
            keeps_pins(prev.heap@, self.heap@),
            self.archetypes == prev.archetypes,
            self.entity_index == prev.entity_index,
            self.type_index == prev.type_index,
            self.next_entity_id == prev.next_entity_id,
        ensures
            self.wf(),
            self.same_entities(prev),
    {
        assert forall|k: TypeKey| #[trigger] self.archetypes@.contains_key(k) implies self.heap.has_table(k) by {
            assert(prev.heap.has_table(k));
        }
        assert forall|e: u32| #[trigger] entity_entries(self.entity_index).contains_key(e) implies {
            let h = self.stored(e);
            &&& h.slot < self.heap@.len()
            &&& self.heap@[h.slot as int].generation == h.generation
            &&& self.heap@[h.slot as int].pinned
            &&& self.heap@[h.slot as int].kind == entity_entries(self.entity_index)[e]
        } by {
            assert(entity_entries(prev.entity_index).contains_key(e));
            assert(prev.heap@[prev.stored(e).slot as int].pinned);
        }
        assert forall|c: TypeKey, k: TypeKey|
            #![trigger self.heap.table(k).contains_key(c)]
            #![trigger type_entries(self.type_index)[c]@.contains(k)]
            (self.archetypes@.contains_key(k) && self.heap.table(k).contains_key(c)) <==> (
            type_entries(self.type_index).contains_key(c) && type_entries(self.type_index)[c]@.contains(k)) by {
            assert(self.heap.has_table(k) <==> prev.heap.has_table(k));
        }
    }

    /// A strong handle on entity `id` viewing `component`. Fails with
    /// `EntityNotFound` for an unknown entity, and with `ComponentNotFound`
    /// where the entity's concrete type does not declare the component.
    pub fn extract_component(&mut self, id: EntityId, component: TypeKey) -> (r: Result<Acquirable, WorldError>)
        requires
            old(self).wf(),
        ensures
            final(self).wf(),
            final(self).same_entities(old(self)),
            ({
                let recs = old(self).records();
                let h = old(self).stored(id.id);
                let kind = old(self).entities()[id.id];
                let known = old(self).entities().contains_key(id.id);
                let ok = known && old(self).table(kind).contains_key(component) && recs[h.slot as int].strong
                    < usize::MAX;
                match r {
                    Ok(a) => ok && a@ == (HandleView {
                        slot: h.slot,
                        generation: h.generation,
                        component,
                        offset: old(self).table(kind)[component],
                    }) && final(self).records() == bumped(recs, h),
                    Err(WorldError::EntityNotFound(e)) => !known && e == id && final(self).records() == recs,
                    Err(WorldError::ComponentNotFound { entity_id, component: c }) => known && !ok && entity_id == id && c
                        == component && final(self).records() == recs,
                    Err(_) => false,
                }
            }),
    {
        let kind = match entity_index_get(&self.entity_index, id.id) {
            Some(k) => k,
            None => {
                return Err(WorldError::EntityNotFound(id));
            },
        };
        let ghost prev = *self;
        proof {
            assert(entity_entries(self.entity_index).contains_key(id.id));
            self.heap.lemma_pinned_live(self.stored(id.id).slot as int);
        }
        let r = match self.archetypes.get(&kind) {
            Some(arch) => arch.extract_entity(&mut self.heap, id.id, component),
            None => {
                return Err(WorldError::ArchetypeNotFound(id));
            },
        };
        proof {
            self.lemma_heap_step(&prev);
        }
        match r {
            Some(a) => Ok(a),
            None => Err(WorldError::ComponentNotFound { entity_id: id, component }),
        }
    }

    /// Removes entity `id`; the world gives up its handle, so the value
    /// lives on only while other strong handles remain.
    pub fn remove_entity(&mut self, id: EntityId) -> (r: Result<(), WorldError>)
        requires
            old(self).wf(),
        ensures
            final(self).wf(),
            final(self).kinds() == old(self).kinds(),
            final(self).next_id() == old(self).next_id(),
            final(self).heap_state().same_tables(&old(self).heap_state()),
            forall|e: u32| #[trigger] final(self).entities().contains_key(e) ==> final(self).stored(e) == old(self).stored(e),
            match r {
                Ok(()) => {
                    &&& old(self).entities().contains_key(id.id)
                    &&& final(self).entities() == old(self).entities().remove(id.id)
                    &&& final(self).records() == dropped(old(self).records(), old(self).stored(id.id))
                },
                Err(WorldError::EntityNotFound(e)) => {
                    &&& !old(self).entities().contains_key(id.id)
                    &&& e == id
                    &&& final(self).entities() == old(self).entities()
                    &&& final(self).records() == old(self).records()
                },
                Err(_) => false,
            },
    {
        let kind = match entity_index_remove(&mut self.entity_index, id.id) {
            Some(k) => k,
            None => {
                return Err(WorldError::EntityNotFound(id));
            },
        };
        let mut arch = match self.archetypes.remove(&kind) {
            Some(a) => a,
            None => {
                proof {
                    assert(entity_entries(old(self).entity_index).contains_key(id.id));
                }
                return Err(WorldError::ArchetypeNotFound(id));
            },
        };
        let removed = arch.remove(&mut self.heap, id.id);
        let ghost arch_after = arch;
        self.archetypes.insert(kind, arch);
        match removed {
            Some(h) => {
                let ghost mid = *self;
                h.release(&mut self.heap);
                proof {
                    let hs = old(self).stored(id.id);
                    assert(h@ == hs);
                    old(self).heap.lemma_pinned_live(hs.slot as int);
                    assert(self.heap@ =~= dropped(old(self).heap@, hs));
                    assert forall|e: u32| #[trigger] entity_entries(self.entity_index).contains_key(e) implies {
                        let hv = self.stored(e);
                        &&& hv.slot < self.heap@.len()
                        &&& self.heap@[hv.slot as int].generation == hv.generation
                        &&& self.heap@[hv.slot as int].pinned
                        &&& self.heap@[hv.slot as int].kind == entity_entries(self.entity_index)[e]
                    } by {
                        assert(entity_entries(old(self).entity_index).contains_key(e));
                        assert(e != id.id);
                        assert(self.stored(e) == old(self).stored(e));
                        assert(old(self).stored(e).slot != hs.slot);
                    }
                    assert forall|e1: u32, e2: u32|
                        #![trigger self.stored(e1), self.stored(e2)]
                        entity_entries(self.entity_index).contains_key(e1) && entity_entries(self.entity_index).contains_key(e2) && e1 != e2
                            implies self.stored(e1).slot != self.stored(e2).slot by {
                        assert(old(self).stored(e1) == self.stored(e1));
                        assert(old(self).stored(e2) == self.stored(e2));
                    }
                    assert(self.entities() =~= old(self).entities().remove(id.id));
                    assert(self.kinds() =~= old(self).kinds());
                    assert forall|e: u32| #[trigger] self.entities().contains_key(e) implies self.stored(e) == old(self).stored(e) by {
                        assert(e != id.id);
                    }
                    assert forall|k: TypeKey| #[trigger] self.archetypes@.contains_key(k) implies self.heap.has_table(k) by {
                        assert(mid.heap.has_table(k));
                    }
                    assert forall|k: TypeKey, e: u32|
                        self.archetypes@.contains_key(k) && #[trigger] self.archetypes@[k]@.contains_key(e)
                            implies entity_entries(self.entity_index).contains_key(e) && entity_entries(self.entity_index)[e] == k by {
                        if k == kind {
                            assert(arch_after@.contains_key(e));
                            assert(e != id.id);
                        }
                    }
                    assert forall|c: TypeKey, k: TypeKey|
                        #![trigger self.heap.table(k).contains_key(c)]
                        #![trigger type_entries(self.type_index)[c]@.contains(k)]
                        (self.archetypes@.contains_key(k) && self.heap.table(k).contains_key(c)) <==> (
                        type_entries(self.type_index).contains_key(c) && type_entries(self.type_index)[c]@.contains(k)) by {
                        assert(self.heap.has_table(k) <==> mid.heap.has_table(k));
                    }
                }
                Ok(())
            },
            None => {
                proof {
                    assert(old(self).archetypes@[kind]@.contains_key(id.id));
                }
                Err(WorldError::ArchetypeNotFound(id))
            },
        }
    }

    /// Whether entity `id` is in the world.
    pub fn contains_entity(&self, id: EntityId) -> (r: bool)
        ensures
            r == self.entities().contains_key(id.id),
    {
        entity_index_contains(&self.entity_index, id.id)
    }

    /// The number of entities in the world.
    pub fn entity_count(&self) -> (r: usize)
        ensures
            r == self.entities().len(),
    {
        entity_index_len(&self.entity_index)
    }

    /// The number of archetypes, one per concrete type seen.
    pub fn archetype_count(&self) -> (r: usize)
        ensures
            r == self.kinds().len(),
    {
        self.archetypes.len()
    }

    /// Gives up a strong handle.
    pub fn release(&mut self, h: Acquirable)
        requires
            old(self).wf(),
        ensures
            final(self).wf(),
            final(self).same_entities(old(self)),
            final(self).records() == released(old(self).records(), h@),
    {
        let ghost prev = *self;
        h.release(&mut self.heap);
        proof {
            self.lemma_heap_step(&prev);
        }
    }

    /// Another strong handle with the same view.
    pub fn clone_handle(&mut self, h: &Acquirable) -> (r: Option<Acquirable>)
        requires
            old(self).wf(),
        ensures
            final(self).wf(),
            final(self).same_entities(old(self)),
            match r {
                Some(a) => can_bump(old(self).records(), h@) && a@ == h@ && final(self).records() == bumped(
                    old(self).records(),
                    h@,
                ),
                None => !can_bump(old(self).records(), h@) && final(self).records() == old(self).records(),
            },
    {
        let ghost prev = *self;
        let r = h.clone(&mut self.heap);
        proof {
            self.lemma_heap_step(&prev);
        }
        r
    }

    /// A weak handle with the same view; strong counts are unchanged.
    pub fn downgrade(&mut self, h: &Acquirable) -> (r: Option<WeakAcquirable>)
        requires
            old(self).wf(),
        ensures
            final(self).wf(),
            final(self).same_entities(old(self)),
            ({
                let recs = old(self).records();
                let ok = crate::acquirable::alive(recs, h@) && recs[h@.slot as int].weak < usize::MAX;
                match r {
                    Some(w) => ok && w@ == h@ && final(self).records() == recs.update(
                        h@.slot as int,
                        crate::acquirable::with_weak(recs[h@.slot as int], (recs[h@.slot as int].weak + 1) as usize),
                    ),
                    None => !ok && final(self).records() == recs,
                }
            }),
    {
        let ghost prev = *self;
        let r = h.downgrade(&mut self.heap);
        proof {
            self.lemma_heap_step(&prev);
        }
        r
    }

    /// A strong handle from a weak one, while the value is alive.
    pub fn upgrade(&mut self, w: &WeakAcquirable) -> (r: Option<Acquirable>)
        requires
            old(self).wf(),
        ensures
            final(self).wf(),
            final(self).same_entities(old(self)),
            match r {
                Some(a) => can_bump(old(self).records(), w@) && a@ == w@ && final(self).records() == bumped(
                    old(self).records(),
                    w@,
                ),
                None => !can_bump(old(self).records(), w@) && final(self).records() == old(self).records(),
            },
    {
        let ghost prev = *self;
        let r = w.upgrade(&mut self.heap);
        proof {
            self.lemma_heap_step(&prev);
        }
        r
    }

    /// Gives up a weak handle.
    pub fn release_weak(&mut self, w: WeakAcquirable)
        requires
            old(self).wf(),
        ensures
            final(self).wf(),
            final(self).same_entities(old(self)),
            ({
                let recs = old(self).records();
                let rec = recs[w@.slot as int];
                if crate::acquirable::designates(recs, w@) && rec.weak > 0 {
                    final(self).records() == recs.update(w@.slot as int, crate::acquirable::after_weak_release(rec))
                } else {
                    final(self).records() == recs
                }
            }),
    {
        let ghost prev = *self;
        w.release(&mut self.heap);
        proof {
            self.lemma_heap_step(&prev);
        }
    }
    /// Removes each entity of `ids` in turn. Succeeds when every removal
    /// did; otherwise reports which identifiers were removed and which were
    /// not found.
    pub fn try_remove_entities(&mut self, ids: &[EntityId]) -> (r: Result<(), WorldError>)
        requires
            old(self).wf(),
        ensures
            final(self).wf(),
            final(self).kinds() == old(self).kinds(),
            final(self).next_id() == old(self).next_id(),
            final(self).heap_state().same_tables(&old(self).heap_state()),
            removal_records(final(self), old(self)),
            forall|e: u32| #[trigger] final(self).entities().contains_key(e) ==> final(self).stored(e) == old(self).stored(e),
            ({
                let out = removal_outcome(old(self).entities(), ids@, ids@.len() as int);
                &&& final(self).entities() == out.0
                &&& match r {
                    Ok(()) => out.2.len() == 0,
                    Err(WorldError::PartialRemoval { succeeded, failed }) => out.2.len() > 0 && succeeded@ == out.1
                        && failed@ == out.2,
                    Err(_) => false,
                }
            }),
    {
        let mut succeeded: Vec<EntityId> = Vec::new();
        let mut failed: Vec<EntityId> = Vec::new();
        let mut i: usize = 0;
        while i < ids.len()
            invariant
                0 <= i <= ids@.len(),
                self.wf(),
                self.kinds() == old(self).kinds(),
                self.next_id() == old(self).next_id(),
                self.heap_state().same_tables(&old(self).heap_state()),
                old(self).wf(),
                removal_records(self, old(self)),
                forall|e: u32| #[trigger] self.entities().contains_key(e) ==> old(self).entities().contains_key(e),
                forall|e: u32| #[trigger] self.entities().contains_key(e) ==> self.stored(e) == old(self).stored(e),
                (self.entities(), succeeded@, failed@) == removal_outcome(old(self).entities(), ids@, i as int),
            decreases ids@.len() - i,
        {
            let id = ids[i];
            let ghost before = *self;
            match self.remove_entity(id) {
                Ok(()) => {
                    proof {
                        lemma_removal_step(old(self), &before, self, id.id);
                    }
                    succeeded.push(id);
                },
                Err(_) => {
                    failed.push(id);
                },
            }
            proof {
                assert(forall|e: u32| #[trigger] self.entities().contains_key(e) ==> before.entities().contains_key(e));
            }
            i = i + 1;
        }
        if failed.len() == 0 {
            Ok(())
        } else {
            Err(WorldError::PartialRemoval { succeeded, failed })
        }
    }

    /// Removes each entity of `ids` that is present, skipping the others.
    pub fn remove_entities(&mut self, ids: &[EntityId])
        requires
            old(self).wf(),
        ensures
            final(self).wf(),
            final(self).kinds() == old(self).kinds(),
            final(self).next_id() == old(self).next_id(),
            final(self).heap_state().same_tables(&old(self).heap_state()),
            removal_records(final(self), old(self)),
            forall|e: u32| #[trigger] final(self).entities().contains_key(e) ==> final(self).stored(e) == old(self).stored(e),
            final(self).entities() == removal_outcome(old(self).entities(), ids@, ids@.len() as int).0,
    {
        let mut i: usize = 0;
        while i < ids.len()
            invariant
                0 <= i <= ids@.len(),
                self.wf(),
                self.kinds() == old(self).kinds(),
                self.next_id() == old(self).next_id(),
                self.heap_state().same_tables(&old(self).heap_state()),
                old(self).wf(),
                removal_records(self, old(self)),
                forall|e: u32| #[trigger] self.entities().contains_key(e) ==> old(self).entities().contains_key(e),
                forall|e: u32| #[trigger] self.entities().contains_key(e) ==> self.stored(e) == old(self).stored(e),
                self.entities() == removal_outcome(old(self).entities(), ids@, i as int).0,
            decreases ids@.len() - i,
        {
            let ghost before = *self;
            let res = self.remove_entity(ids[i]);
            proof {
                if res is Ok {
                    lemma_removal_step(old(self), &before, self, ids[i as int].id);
                }
            }
            proof {
                assert(forall|e: u32| #[trigger] self.entities().contains_key(e) ==> before.entities().contains_key(e));
            }
            i = i + 1;
        }
    }
    /// A snapshot of every entity whose concrete type declares `component`,
    /// each paired with a new strong handle that views the component. The
    /// archetypes to visit come from the type index.
    pub fn query(&mut self, component: TypeKey) -> (r: QueryIter)
        requires
            old(self).wf(),
        ensures
            final(self).wf(),
            final(self).same_entities(old(self)),
            final(self).records() == bumped_all(old(self).records(), r@),
            final(self).records().len() == old(self).records().len(),
            forall|i: int|
                0 <= i < old(self).records().len() ==> {
                    let rec = #[trigger] final(self).records()[i];
                    &&& rec.payload == old(self).records()[i].payload
                    &&& rec.kind == old(self).records()[i].kind
                    &&& rec.weak == old(self).records()[i].weak
                    &&& rec.generation == old(self).records()[i].generation
                    &&& rec.pinned == old(self).records()[i].pinned
                },
            query_items(old(self), component, r@),
            forall|e: u32|
                selected(old(self), component, e) && #[trigger] old(self).records()[old(self).stored(
                    e,
                ).slot as int].strong < usize::MAX ==> exists|j: int| 0 <= j < r@.len() && (#[trigger] r@[j]).0.id == e,
    {
        let kinds: Vec<TypeKey> = match type_index_get(&self.type_index, component) {
            Some(l) => l,
            None => Vec::new(),
        };
        proof {
            assert forall|k: TypeKey| #[trigger] kinds@.contains(k) implies self.archetypes@.contains_key(k)
                && self.heap.table(k).contains_key(component) by {
                if kinds@.contains(k) {
                    assert(type_entries(self.type_index)[component]@.contains(k));
                }
            }
        }
        let mut items: Vec<(EntityId, Acquirable)> = Vec::new();
        let ghost mut visited: Set<u32> = Set::empty();
        let mut t: usize = 0;
        while t < kinds.len()
            invariant
                0 <= t <= kinds@.len(),
                kinds@.no_duplicates(),
                forall|k: TypeKey| #[trigger] kinds@.contains(k) <==> (old(self).archetypes@.contains_key(k)
                    && old(self).heap.table(k).contains_key(component)),
                self.wf(),
                self.same_entities(old(self)),
                self.archetypes == old(self).archetypes,
                self.entity_index == old(self).entity_index,
                keeps_pins(old(self).records(), self.records()),
                self.records() == bumped_all(old(self).records(), items@.map_values(|p: (EntityId, Acquirable)| (p.0, p.1@))),
                self.records().len() == old(self).records().len(),
                forall|e: u32| #[trigger] visited.contains(e) <==> (old(self).entities().contains_key(e)
                    && kinds@.take(t as int).contains(old(self).entities()[e])),
                query_items(old(self), component, items@.map_values(|p: (EntityId, Acquirable)| (p.0, p.1@))),
                forall|j: int| 0 <= j < items@.len() ==> visited.contains((#[trigger] items@[j]).0.id),
                forall|e: u32|
                    visited.contains(e) && selected(old(self), component, e) && #[trigger] old(self).records()[old(
                        self,
                    ).stored(e).slot as int].strong < usize::MAX ==> exists|j: int|
                        0 <= j < items@.len() && (#[trigger] items@[j]).0.id == e,
                forall|e: u32|
                    old(self).entities().contains_key(e) && !visited.contains(e) ==> #[trigger] self.records()[old(
                        self,
                    ).stored(e).slot as int] == old(self).records()[old(self).stored(e).slot as int],
            decreases kinds@.len() - t,
        {
            let kind = kinds[t];
            let keys: Vec<u32> = match self.archetypes.get(&kind) {
                Some(a) => a.keys(),
                None => Vec::new(),
            };
            proof {
                assert(kinds@.contains(kind));
                assert forall|e: u32| #[trigger] keys@.contains(e) <==> (old(self).entities().contains_key(e)
                    && old(self).entities()[e] == kind) by {
                    if old(self).entities().contains_key(e) && old(self).entities()[e] == kind {
                        assert(self.archetypes@[kind]@.contains_key(e));
                    }
                    if keys@.contains(e) {
                        assert(self.archetypes@[kind]@.contains_key(e));
                    }
                }
            }
            let ghost outer = visited;
            let mut u: usize = 0;
            while u < keys.len()
                invariant
                    0 <= u <= keys@.len(),
                    keys@.no_duplicates(),
                    forall|e: u32| #[trigger] keys@.contains(e) <==> (old(self).entities().contains_key(e)
                        && old(self).entities()[e] == kind),
                    kinds@.contains(kind),
                    old(self).archetypes@.contains_key(kind) && old(self).heap.table(kind).contains_key(component),
                    forall|e: u32| #[trigger] outer.contains(e) ==> old(self).entities().contains_key(e)
                        && old(self).entities()[e] != kind,
                    self.wf(),
                    self.same_entities(old(self)),
                    self.archetypes == old(self).archetypes,
                    self.entity_index == old(self).entity_index,
                    keeps_pins(old(self).records(), self.records()),
                    self.records() == bumped_all(old(self).records(), items@.map_values(|p: (EntityId, Acquirable)| (p.0, p.1@))),
                self.records() == bumped_all(old(self).records(), items@.map_values(|p: (EntityId, Acquirable)| (p.0, p.1@))),
                    self.records().len() == old(self).records().len(),
                    forall|e: u32| #[trigger] visited.contains(e) <==> (outer.contains(e) || keys@.take(u as int).contains(e)),
                    query_items(old(self), component, items@.map_values(|p: (EntityId, Acquirable)| (p.0, p.1@))),
                    forall|j: int| 0 <= j < items@.len() ==> visited.contains((#[trigger] items@[j]).0.id),
                    forall|e: u32|
                        visited.contains(e) && selected(old(self), component, e) && #[trigger] old(self).records()[old(
                            self,
                        ).stored(e).slot as int].strong < usize::MAX ==> exists|j: int|
                            0 <= j < items@.len() && (#[trigger] items@[j]).0.id == e,
                    forall|e: u32|
                        old(self).entities().contains_key(e) && !visited.contains(e) ==> #[trigger] self.records()[old(
                            self,
                        ).stored(e).slot as int] == old(self).records()[old(self).stored(e).slot as int],
                decreases keys@.len() - u,
            {
                let key = keys[u];
                proof {
                    assert(keys@.contains(key));
                    assert(!visited.contains(key)) by {
                        if keys@.take(u as int).contains(key) {
                            let j = choose|j: int| 0 <= j < u && #[trigger] keys@.take(u as int)[j] == key;
                            assert(keys@[j] == keys@[u as int]);
                        }
                    }
                    self.heap.lemma_pinned_live(self.stored(key).slot as int);
                }
                let ghost prev = *self;
                let ghost prev_items = items@.map_values(|p: (EntityId, Acquirable)| (p.0, p.1@));
                let r = match self.archetypes.get(&kind) {
                    Some(a) => a.extract_entity(&mut self.heap, key, component),
                    None => None,
                };
                proof {
                    self.lemma_heap_step(&prev);
                    assert(keys@.take(u + 1) =~= keys@.take(u as int).push(key));
                    assert forall|e: u32| old(self).entities().contains_key(e) && e != key implies #[trigger] self.records()[old(
                        self,
                    ).stored(e).slot as int] == prev.records()[old(self).stored(e).slot as int] by {
                        assert(old(self).stored(e) == prev.stored(e));
                        assert(prev.stored(e).slot != prev.stored(key).slot);
                    }
                }
                let ghost got = r is Some;
                let ghost pre_items = items@;
                proof {
                    if old(self).records()[old(self).stored(key).slot as int].strong < usize::MAX && selected(
                        old(self),
                        component,
                        key,
                    ) {
                        assert(prev.archetypes@[kind]@[key] == prev.stored(key));
                        assert(prev.records()[prev.stored(key).slot as int] == old(self).records()[old(self).stored(
                            key,
                        ).slot as int]);
                        assert(got);
                    }
                }
                match r {
                    Some(a) => {
                        items.push((EntityId::new(key), a));
                        proof {
                            let cur = items@.map_values(|p: (EntityId, Acquirable)| (p.0, p.1@));
                            assert(cur =~= prev_items.push((EntityId { id: key }, a@)));
                            assert(cur.drop_last() =~= prev_items);
                            assert(prev.archetypes@[kind]@[key] == prev.stored(key));
                            assert(prev.stored(key).slot < prev.records().len());
                            assert(self.records() == bumped(prev.records(), a@));
                            assert(forall|j: int| 0 <= j < prev_items.len() ==> cur[j] == prev_items[j]);
                            assert forall|j: int| 0 <= j < prev_items.len() implies (#[trigger] prev_items[j]).0.id != key by {
                                assert(visited.contains(prev_items[j].0.id));
                                assert(items@[j].0.id == prev_items[j].0.id);
                            }
                            assert(cur[prev_items.len() as int].0.id == key);
                        }
                    },
                    None => {},
                }
                proof {
                    assert forall|j: int| 0 <= j < pre_items.len() implies items@[j] == pre_items[j] by {}
                    assert forall|e: u32|
                        (visited.contains(e) || e == key) && selected(old(self), component, e) && #[trigger] old(self).records()[old(
                            self,
                        ).stored(e).slot as int].strong < usize::MAX implies exists|j: int|
                            0 <= j < items@.len() && (#[trigger] items@[j]).0.id == e by {
                        if e == key {
                            assert(items@[items@.len() - 1].0.id == key);
                        } else {
                            let j = choose|j: int| 0 <= j < pre_items.len() && (#[trigger] pre_items[j]).0.id == e;
                            assert(items@[j].0.id == e);
                        }
                    }
                    visited = visited.insert(key);
                    assert forall|e: u32| #[trigger] visited.contains(e) <==> (outer.contains(e) || keys@.take(u + 1).contains(e)) by {
                        if keys@.take(u + 1).contains(e) && e != key {
                            let j = choose|j: int| 0 <= j < u + 1 && #[trigger] keys@.take(u + 1)[j] == e;
                            assert(keys@.take(u as int)[j] == e);
                        }
                        if keys@.take(u as int).contains(e) {
                            let j = choose|j: int| 0 <= j < u && #[trigger] keys@.take(u as int)[j] == e;
                            assert(keys@.take(u + 1)[j] == e);
                        }
                        if e == key {
                            assert(keys@.take(u + 1)[u as int] == key);
                        }
                    }
                }
                u = u + 1;
            }
            proof {
                assert(keys@.take(keys@.len() as int) =~= keys@);
                assert(kinds@.take(t + 1) =~= kinds@.take(t as int).push(kind));
                assert forall|e: u32| #[trigger] visited.contains(e) <==> (old(self).entities().contains_key(e)
                    && kinds@.take(t + 1).contains(old(self).entities()[e])) by {
                    if old(self).entities().contains_key(e) {
                        let k = old(self).entities()[e];
                        if kinds@.take(t + 1).contains(k) && k != kind {
                            let j = choose|j: int| 0 <= j < t + 1 && #[trigger] kinds@.take(t + 1)[j] == k;
                            assert(kinds@.take(t as int)[j] == k);
                        }
                        if kinds@.take(t as int).contains(k) {
                            let j = choose|j: int| 0 <= j < t && #[trigger] kinds@.take(t as int)[j] == k;
                            assert(kinds@.take(t + 1)[j] == k);
                        }
                        if k == kind {
                            assert(kinds@.take(t + 1)[t as int] == kind);
                        }
                    }
                }
            }
            t = t + 1;
        }
        proof {
            assert(kinds@.take(kinds@.len() as int) =~= kinds@);
            assert forall|e: u32| selected(old(self), component, e) implies visited.contains(e) by {
                let k = old(self).entities()[e];
                assert(old(self).archetypes@.contains_key(k));
                assert(kinds@.contains(k));
            }
        }
        let ghost final_items = items@;
        let r = QueryIter::from_items(items);
        proof {
            lemma_bumped_all_keeps_values(old(self).records(), r@);
            assert forall|e: u32|
                selected(old(self), component, e) && #[trigger] old(self).records()[old(self).stored(
                    e,
                ).slot as int].strong < usize::MAX implies exists|j: int| 0 <= j < r@.len() && (#[trigger] r@[j]).0.id == e by {
                let j = choose|j: int| 0 <= j < final_items.len() && (#[trigger] final_items[j]).0.id == e;
                assert(r@[j].0 == final_items[j].0);
            }
        }
        r
    }

    /// Gives up the handles of a query's pairs not handed out.
    pub fn finish_query(&mut self, q: QueryIter)
        requires
            old(self).wf(),
        ensures
            final(self).wf(),
            final(self).same_entities(old(self)),
            final(self).records() == released_all(old(self).records(), q@),
    {
        let mut q = q;
        let ghost q0 = q@;
        while q.len() > 0
            invariant
                self.wf(),
                self.same_entities(old(self)),
                released_all(self.records(), q@) == released_all(old(self).records(), q0),
            decreases q@.len(),
        {
            let ghost before_q = q@;
            let ghost prev = *self;
            match q.next() {
                Some((_, a)) => {
                    a.release(&mut self.heap);
                    proof {
                        self.lemma_heap_step(&prev);
                        assert(a@ == before_q.last().1);
                    }
                },
                None => {},
            }
        }
    }

    /// Removes every entity and archetype, and empties the type index. The
    /// identifier counter is kept, so identifiers are never reused.
    pub fn clear(&mut self)
        requires
            old(self).wf(),
        ensures
            final(self).wf(),
            final(self).entities() == Map::<u32, TypeKey>::empty(),
            final(self).kinds() == Set::<TypeKey>::empty(),
            final(self).next_id() == old(self).next_id(),
            removal_records(final(self), old(self)),
    {
        let ids = entity_index_keys(&self.entity_index);
        let mut j: usize = 0;
        while j < ids.len()
            invariant
                0 <= j <= ids@.len(),
                ids@.no_duplicates(),
                forall|e: u32| #[trigger] old(self).entities().contains_key(e) <==> ids@.contains(e),
                self.wf(),
                self.kinds() == old(self).kinds(),
                self.next_id() == old(self).next_id(),
                old(self).wf(),
                removal_records(self, old(self)),
                forall|e: u32| #[trigger] self.entities().contains_key(e) <==> (old(self).entities().contains_key(e)
                    && !ids@.take(j as int).contains(e)),
                forall|e: u32| #[trigger] self.entities().contains_key(e) ==> self.stored(e) == old(self).stored(e),
            decreases ids@.len() - j,
        {
            let k = ids[j];
            proof {
                assert(!ids@.take(j as int).contains(k)) by {
                    if ids@.take(j as int).contains(k) {
                        let t = choose|t: int| 0 <= t < j && #[trigger] ids@.take(j as int)[t] == k;
                        assert(ids@[t] == ids@[j as int]);
                    }
                }
                assert(ids@.contains(k));
                assert(self.entities().contains_key(k));
            }
            let ghost prev = *self;
            let res = self.remove_entity(EntityId::new(k));
            proof {
                assert(ids@.take(j + 1) =~= ids@.take(j as int).push(k));
                assert forall|e: u32| #[trigger] self.entities().contains_key(e) <==> (old(self).entities().contains_key(e)
                    && !ids@.take(j + 1).contains(e)) by {
                    if ids@.take(j + 1).contains(e) && e != k {
                        let t = choose|t: int| 0 <= t < j + 1 && #[trigger] ids@.take(j + 1)[t] == e;
                        assert(ids@.take(j as int)[t] == e);
                    }
                    if ids@.take(j as int).contains(e) {
                        let t = choose|t: int| 0 <= t < j && #[trigger] ids@.take(j as int)[t] == e;
                        assert(ids@.take(j + 1)[t] == e);
                    }
                    if e == k {
                        assert(ids@.take(j + 1)[j as int] == k);
                    }
                }
                lemma_removal_step(old(self), &prev, self, k);
            }
            j = j + 1;
        }
        proof {
            assert(ids@.take(ids@.len() as int) =~= ids@);
            assert forall|e: u32| !entity_entries(self.entity_index).contains_key(e) by {
                if self.entities().contains_key(e) {
                    assert(old(self).entities().contains_key(e));
                    assert(ids@.contains(e));
                }
            }
            assert(entity_entries(self.entity_index) =~= Map::<u32, TypeKey>::empty());
        }
        let ghost emptied = *self;
        self.archetypes.clear();
        type_index_clear(&mut self.type_index);
        proof {
            assert(self.entities() =~= Map::<u32, TypeKey>::empty());
            assert(self.kinds() =~= Set::<TypeKey>::empty());
            assert(self.records() == emptied.records());
            assert(removal_records(&emptied, old(self)));
            assert(self.entities() == emptied.entities());
        }
    }

    /// Adds every value of `values` as a new entity of concrete type `kind`,
    /// with one contiguous range of identifiers reserved for the batch; the
    /// i-th value gets the i-th identifier. Nothing is added when the range
    /// does not fit or the type's table does not declare the type itself.
    pub fn add_entities(&mut self, kind: TypeKey, metadata: &[ExtractionMetadata], values: Vec<V>) -> (r: Option<
        Vec<EntityId>,
    >)
        requires
            old(self).wf(),
            offsets_fit(metadata@, 0, 0),
        ensures
            final(self).wf(),
            forall|e: u32| #[trigger] old(self).entities().contains_key(e) ==> final(self).stored(e) == old(self).stored(e),
            values@.len() == 0 ==> r is Some,
            match r {
                Some(ids) => {
                    &&& ids@.len() == values@.len()
                    &&& forall|i: int| 0 <= i < ids@.len() ==> !old(self).entities().contains_key((#[trigger] ids@[i]).id)
                    &&& values@.len() == 0 ==> {
                        &&& final(self).entities() == old(self).entities()
                        &&& final(self).records() == old(self).records()
                        &&& final(self).heap_state() == old(self).heap_state()
                    }
                    &&& final(self).records().len() >= old(self).records().len()
                    &&& forall|i: int|
                        0 <= i < old(self).records().len() && (old(self).records()[i].strong > 0 || old(
                            self,
                        ).records()[i].weak > 0) ==> #[trigger] final(self).records()[i] == old(self).records()[i]
                    &&& forall|i: int| 0 <= i < ids@.len() ==> (#[trigger] ids@[i]).id == old(self).next_id() + i
                    &&& final(self).next_id() == old(self).next_id() + values@.len()
                    &&& values@.len() > 0 ==> final(self).kinds() == old(self).kinds().insert(kind)
                    &&& values@.len() == 0 ==> final(self).kinds() == old(self).kinds()
                    &&& forall|e: u32| #[trigger] final(self).entities().contains_key(e) <==> (old(self).entities().contains_key(e)
                        || (old(self).next_id() <= e < old(self).next_id() + values@.len()))
                    &&& forall|e: u32| #[trigger] old(self).entities().contains_key(e) ==> final(self).entities()[e] == old(self).entities()[e]
                    &&& forall|i: int| 0 <= i < ids@.len() ==> {
                        let e = (#[trigger] ids@[i]).id;
                        let rec = final(self).records()[final(self).stored(e).slot as int];
                        &&& final(self).entities()[e] == kind
                        &&& rec.payload == Some(values@[i])
                        &&& rec.kind == kind
                        &&& rec.strong == 1
                        &&& rec.weak == 0
                        &&& rec.pinned
                    }
                },
                None => {
                    &&& old(self).next_id() + values@.len() > u32::MAX || !old(self).heap_state().table_after(
                        kind,
                        metadata@,
                    ).contains_key(kind)
                    &&& final(self).entities() == old(self).entities()
                    &&& final(self).kinds() == old(self).kinds()
                    &&& final(self).records() == old(self).records()
                    &&& final(self).next_id() == old(self).next_id()
                    &&& final(self).heap_state() == old(self).heap_state()
                },
            },
    {
        let n = values.len();
        let start = self.next_entity_id;
        if n > (u32::MAX - start) as usize {
            return None;
        }
        if n == 0 {
            proof {
                assert(self.kinds() == old(self).kinds());
            }
            return Some(Vec::new());
        }
        if !self.heap.declares(kind, metadata) {
            return None;
        }
        let ghost prev = *self;
        self.heap.register(kind, metadata);
        proof {
            self.lemma_registration_keeps_wf(&prev, kind, metadata@);
        }
        self.next_entity_id = start + n as u32;
        proof {
            assert forall|e: u32| #[trigger] old(self).entities().contains_key(e) implies e < start by {
                assert(entity_entries(prev.entity_index).contains_key(e));
            }
        }
        let mut vals = values;
        let ghost vs = vals@;
        while vals.len() > 0
            invariant
                vs == values@,
                vals@ == vs.take(vals@.len() as int),
                vals@.len() <= n,
                offsets_fit(metadata@, 0, 0),
                forall|e: u32| #[trigger] old(self).entities().contains_key(e) ==> e < start,
                self.records().len() >= old(self).records().len(),
                forall|i: int|
                    0 <= i < old(self).records().len() && (old(self).records()[i].strong > 0 || old(
                        self,
                    ).records()[i].weak > 0) ==> #[trigger] self.records()[i] == old(self).records()[i],
                n == vs.len(),
                n > 0,
                start == old(self).next_id(),
                start + n <= u32::MAX,
                self.next_entity_id == start + n,
                self.wf(),
                self.heap.has_table(kind),
                self.heap.table(kind).contains_key(kind),
                self.heap.table(kind) == old(self).heap.table_after(kind, metadata@),
                vals@.len() < n ==> self.kinds() == old(self).kinds().insert(kind),
                vals@.len() == n ==> self.kinds() == old(self).kinds(),
                forall|e: u32| #[trigger] self.entities().contains_key(e) <==> (old(self).entities().contains_key(e)
                    || (start + vals@.len() <= e < start + n)),
                forall|e: u32| #[trigger] old(self).entities().contains_key(e) ==> self.entities()[e] == old(self).entities()[e]
                    && self.stored(e) == old(self).stored(e),
                forall|j: int| vals@.len() <= j < n ==> {
                    let e = (start + j) as u32;
                    let rec = #[trigger] self.records()[self.stored((start + j) as u32).slot as int];
                    &&& self.entities()[e] == kind
                    &&& rec.payload == Some(vs[j])
                    &&& rec.kind == kind
                    &&& rec.strong == 1
                    &&& rec.weak == 0
                    &&& rec.pinned
                },
            decreases vals@.len(),
        {
            let ghost old_vals = vals@;
            let v = match vals.pop() {
                Some(v) => v,
                None => {
                    return None;
                },
            };
            let idx = vals.len();
            proof {
                assert(old_vals.len() == idx + 1);
                assert(vals@ =~= old_vals.drop_last());
                assert(vals@ =~= vs.take(idx as int));
                assert(v == old_vals[idx as int]);
                assert(v == vs[idx as int]);
            }
            let id = start + idx as u32;
            let ghost before = *self;
            proof {
                if self.entities().contains_key(id) {
                    assert(old(self).entities().contains_key(id));
                }
            }
            match self.insert_entity(id, kind, metadata, v) {
                Some(h) => {
                    let ghost mid = *self;
                    h.release(&mut self.heap);
                    proof {
                        assert(mid.heap.table(kind) == before.heap.table(kind));
                        self.lemma_heap_step(&mid);
                        assert forall|i: int|
                            0 <= i < old(self).records().len() && (old(self).records()[i].strong > 0 || old(
                                self,
                            ).records()[i].weak > 0) implies #[trigger] self.records()[i] == old(self).records()[i] by {
                            assert(before.records()[i] == old(self).records()[i]);
                            if i == h@.slot {
                                assert(before.records()[i].strong == 0 && before.records()[i].weak == 0);
                            }
                            assert(mid.records()[i] == before.records()[i]);
                        }
                        assert forall|e: u32| #[trigger] before.entities().contains_key(e) implies before.stored(e).slot != h@.slot by {
                            before.heap.lemma_pinned_live(before.stored(e).slot as int);
                        }
                        assert forall|e: u32| #[trigger] old(self).entities().contains_key(e) implies self.entities()[e] == old(self).entities()[e]
                            && self.stored(e) == old(self).stored(e) by {
                            assert(before.entities().contains_key(e));
                            assert(e != id);
                            assert(mid.stored(e) == before.stored(e));
                        }
                        assert forall|j: int| vals@.len() <= j < n implies {
                            let e = (start + j) as u32;
                            let rec = #[trigger] self.records()[self.stored((start + j) as u32).slot as int];
                            &&& self.entities()[e] == kind
                            &&& rec.payload == Some(vs[j])
                            &&& rec.kind == kind
                            &&& rec.strong == 1
                            &&& rec.weak == 0
                            &&& rec.pinned
                        } by {
                            let e = (start + j) as u32;
                            if j == idx {
                                assert(e == id);
                                assert(self.stored(id) == mid.stored(id));
                            } else {
                                assert(before.entities().contains_key(e));
                                assert(before.stored(e).slot != h@.slot);
                                assert(mid.stored(e) == before.stored(e));
                                assert(self.stored(e) == mid.stored(e));
                                let sl = before.stored(e).slot as int;
                                assert(before.records()[before.stored((start + j) as u32).slot as int].pinned);
                                assert(mid.records()[sl] == before.records()[sl]);
                            }
                        }
                    }
                },
                None => {
                    proof {
                        assert(before.heap.table_after(kind, metadata@) == before.heap.table(kind));
                    }
                    return None;
                },
            }
        }
        proof {
            assert(vals@.len() == 0);
        }
        let mut ids: Vec<EntityId> = Vec::new();
        let mut i: usize = 0;
        while i < n
            invariant
                0 <= i <= n,
                n == values@.len(),
                start + n <= u32::MAX,
                ids@.len() == i,
                forall|j: int| 0 <= j < i ==> (#[trigger] ids@[j]).id == start + j,
            decreases n - i,
        {
            ids.push(EntityId::new(start + i as u32));
            i = i + 1;
        }
        proof {
            assert forall|i: int| 0 <= i < ids@.len() implies {
                let e = (#[trigger] ids@[i]).id;
                let rec = self.records()[self.stored(e).slot as int];
                &&& self.entities()[e] == kind
                &&& rec.payload == Some(values@[i])
                &&& rec.kind == kind
                &&& rec.strong == 1
                &&& rec.weak == 0
                &&& rec.pinned
            } by {
                assert(ids@[i].id == (start + i) as u32);
                let rec = self.records()[self.stored((start + i) as u32).slot as int];
                assert(rec.payload == Some(vs[i]));
            }
        }
        Some(ids)
    }

    proof fn lemma_registration_keeps_wf(&self, prev: &World<V>, kind: TypeKey, metadata: Seq<ExtractionMetadata>)
        requires
            prev.wf(),
            self.heap.wf(),
            self.heap.registered_from(&prev.heap, kind, metadata),
            self.heap@ == prev.heap@,
            self.archetypes == prev.archetypes,
            self.entity_index == prev.entity_index,
            self.type_index == prev.type_index,
            self.next_entity_id == prev.next_entity_id,
        ensures
            self.wf(),
            self.entities() == prev.entities(),
            self.kinds() == prev.kinds(),
            self.records() == prev.records(),
            forall|e: u32| #[trigger] prev.entities().contains_key(e) ==> self.stored(e) == prev.stored(e),
    {
        assert forall|k: TypeKey| #[trigger] self.archetypes@.contains_key(k) implies self.heap.has_table(k)
            && self.heap.table(k) == prev.heap.table(k) by {
            assert(prev.heap.has_table(k));
            if k != kind {
                assert(self.heap.has_table(k) <==> prev.heap.has_table(k));
            }
        }
        assert forall|c: TypeKey, k: TypeKey|
            #![trigger self.heap.table(k).contains_key(c)]
            #![trigger type_entries(self.type_index)[c]@.contains(k)]
            (self.archetypes@.contains_key(k) && self.heap.table(k).contains_key(c)) <==> (
            type_entries(self.type_index).contains_key(c) && type_entries(self.type_index)[c]@.contains(k)) by {
            if self.archetypes@.contains_key(k) {
                assert(self.heap.table(k) == prev.heap.table(k));
            }
        }
    }
}

} // verus!
