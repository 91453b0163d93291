//! Reference-counted records and the handles that view them.
//!
//! Every stored value lives in one record of a `Heap`, addressed by slot and
//! generation. A record counts its strong and weak handles: the value is
//! dropped when the strong count reaches zero, and the slot is given back for
//! reuse once both counts are zero.

use crate::metadata::{flat_from, offsets_fit, ExtractionMetadata, Extractor, TypeKey};
use std::collections::HashMap;
use vstd::prelude::*;

verus! {

broadcast use vstd::std_specs::hash::group_hash_axioms;

/// The control block of one stored value.
pub struct Record<V> {
    pub payload: Option<V>,
    pub kind: TypeKey,
    pub strong: usize,
    pub weak: usize,
    pub generation: u64,
    /// Held by a container: the last strong handle cannot be given up
    /// through a handle while this is set.
    pub pinned: bool,
}

/// What a handle designates: a record's slot and generation, and the
/// component it views at its offset from the root of the value.
pub struct HandleView {
    pub slot: usize,
    pub generation: u64,
    pub component: TypeKey,
    pub offset: usize,
}

/// A strong handle: keeps the value alive.
#[derive(Debug)]
pub struct Acquirable {
    slot: usize,
    generation: u64,
    component: TypeKey,
    offset: usize,
}

/// A weak handle: observes the record without keeping its value alive.
#[derive(Debug)]
pub struct WeakAcquirable {
    slot: usize,
    generation: u64,
    component: TypeKey,
    offset: usize,
}

/// The arena of records, with one extractor per concrete type.
pub struct Heap<V> {
    records: Vec<Record<V>>,
    free: Vec<usize>,
    extractors: HashMap<TypeKey, Extractor>,
}

impl View for Acquirable {
    type V = HandleView;

    closed spec fn view(&self) -> HandleView {
        HandleView {
            slot: self.slot,
            generation: self.generation,
            component: self.component,
            offset: self.offset,
        }
    }
}

impl View for WeakAcquirable {
    type V = HandleView;

    closed spec fn view(&self) -> HandleView {
        HandleView {
            slot: self.slot,
            generation: self.generation,
            component: self.component,
            offset: self.offset,
        }
    }
}

impl<V> View for Heap<V> {
    type V = Seq<Record<V>>;

    closed spec fn view(&self) -> Seq<Record<V>> {
        self.records@
    }
}

/// The record that `h` designates, in any state.
pub open spec fn designates<V>(recs: Seq<Record<V>>, h: HandleView) -> bool {
    h.slot < recs.len() && recs[h.slot as int].generation == h.generation
}

/// `h` designates a record whose value is alive.
pub open spec fn alive<V>(recs: Seq<Record<V>>, h: HandleView) -> bool {
    designates(recs, h) && recs[h.slot as int].strong > 0
}

/// Every free slot lies inside the records and holds no handle.
spec fn free_slots_unused<V>(recs: Seq<Record<V>>, free: Seq<usize>) -> bool {
    forall|j: int|
        0 <= j < free.len() ==> {
            let s = #[trigger] free[j];
            &&& s < recs.len()
            &&& recs[s as int].strong == 0
            &&& recs[s as int].weak == 0
        }
}

/// Changing one record keeps the free slots unused, unless that record is
/// a free slot that came into use.
proof fn lemma_free_slots_kept<V>(old_recs: Seq<Record<V>>, new_recs: Seq<Record<V>>, free: Seq<usize>, slot: int)
    requires
        free_slots_unused(old_recs, free),
        new_recs.len() == old_recs.len(),
        forall|i: int| 0 <= i < old_recs.len() && i != slot ==> new_recs[i] == old_recs[i],
        free.contains(slot as usize) && 0 <= slot ==> new_recs[slot].strong == 0 && new_recs[slot].weak == 0,
    ensures
        free_slots_unused(new_recs, free),
{
    assert forall|j: int| 0 <= j < free.len() implies {
        let s = #[trigger] free[j];
        &&& s < new_recs.len()
        &&& new_recs[s as int].strong == 0
        &&& new_recs[s as int].weak == 0
    } by {
        if free[j] as int == slot {
            assert(free.contains(slot as usize));
        }
    }
}

proof fn lemma_free_slots_drop_last<V>(recs: Seq<Record<V>>, free: Seq<usize>)
    requires
        free_slots_unused(recs, free),
        free.len() > 0,
    ensures
        free_slots_unused(recs, free.drop_last()),
{
    assert forall|j: int| 0 <= j < free.drop_last().len() implies {
        let s = #[trigger] free.drop_last()[j];
        &&& s < recs.len()
        &&& recs[s as int].strong == 0
        &&& recs[s as int].weak == 0
    } by {
        assert(free.drop_last()[j] == free[j]);
    }
}

proof fn lemma_free_slots_push<V>(recs: Seq<Record<V>>, free: Seq<usize>, slot: usize)
    requires
        free_slots_unused(recs, free),
        slot < recs.len(),
        recs[slot as int].strong == 0,
        recs[slot as int].weak == 0,
    ensures
        free_slots_unused(recs, free.push(slot)),
{
    assert forall|j: int| 0 <= j < free.push(slot).len() implies {
        let s = #[trigger] free.push(slot)[j];
        &&& s < recs.len()
        &&& recs[s as int].strong == 0
        &&& recs[s as int].weak == 0
    } by {
        if j < free.len() {
            assert(free.push(slot)[j] == free[j]);
        }
    }
}

/// A record after one more strong handle.
pub open spec fn with_strong<V>(r: Record<V>, strong: usize) -> Record<V> {
    Record { payload: r.payload, kind: r.kind, strong, weak: r.weak, generation: r.generation, pinned: r.pinned }
}

/// A record after one more weak handle.
pub open spec fn with_weak<V>(r: Record<V>, weak: usize) -> Record<V> {
    Record { payload: r.payload, kind: r.kind, strong: r.strong, weak, generation: r.generation, pinned: r.pinned }
}

/// A record with its pin set or cleared.
pub open spec fn with_pin<V>(r: Record<V>, pinned: bool) -> Record<V> {
    Record { payload: r.payload, kind: r.kind, strong: r.strong, weak: r.weak, generation: r.generation, pinned }
}

/// A record whose counts both reached zero: its generation moves on (a slot
/// whose generation is exhausted keeps it and is never reused).
pub open spec fn retired<V>(r: Record<V>) -> Record<V> {
    Record {
        payload: None,
        kind: r.kind,
        strong: 0,
        weak: 0,
        generation: if r.generation < u64::MAX {
            (r.generation + 1) as u64
        } else {
            r.generation
        },
        pinned: false,
    }
}

/// A record after one strong handle is released: the value is dropped on
/// the last one, the slot retired when no weak handle remains either.
pub open spec fn after_release<V>(r: Record<V>) -> Record<V> {
    if r.strong > 1 {
        with_strong(r, (r.strong - 1) as usize)
    } else if r.weak > 0 {
        Record { payload: None, kind: r.kind, strong: 0, weak: r.weak, generation: r.generation, pinned: false }
    } else {
        retired(r)
    }
}

/// A record after one weak handle is released.
pub open spec fn after_weak_release<V>(r: Record<V>) -> Record<V> {
    if r.weak > 1 || r.strong > 0 {
        with_weak(r, (r.weak - 1) as usize)
    } else {
        retired(r)
    }
}


/// `h` can take one more strong handle.
pub open spec fn can_bump<V>(recs: Seq<Record<V>>, h: HandleView) -> bool {
    alive(recs, h) && recs[h.slot as int].strong < usize::MAX
}

/// The records after the one `h` designates took one more strong handle.
pub open spec fn bumped<V>(recs: Seq<Record<V>>, h: HandleView) -> Seq<Record<V>> {
    recs.update(h.slot as int, with_strong(recs[h.slot as int], (recs[h.slot as int].strong + 1) as usize))
}

/// Every pinned record of `a` is still pinned in `b`, with the same
/// generation and kind, and no record went away.
pub open spec fn keeps_pins<V>(a: Seq<Record<V>>, b: Seq<Record<V>>) -> bool {
    &&& b.len() >= a.len()
    &&& forall|i: int|
        0 <= i < a.len() && #[trigger] a[i].pinned ==> b[i].pinned && b[i].generation == a[i].generation
            && b[i].kind == a[i].kind
}

/// `h` can be given up: its record is alive, and this is not the last
/// strong handle of a pinned record.
pub open spec fn releasable<V>(recs: Seq<Record<V>>, h: HandleView) -> bool {
    alive(recs, h) && !(recs[h.slot as int].pinned && recs[h.slot as int].strong == 1)
}

/// The records after the pin of the record `h` designates is cleared.
pub open spec fn unpinned<V>(recs: Seq<Record<V>>, h: HandleView) -> Seq<Record<V>> {
    if designates(recs, h) {
        recs.update(h.slot as int, with_pin(recs[h.slot as int], false))
    } else {
        recs
    }
}

/// The records after a container takes its handle `h` out and gives it up.
pub open spec fn dropped<V>(recs: Seq<Record<V>>, h: HandleView) -> Seq<Record<V>> {
    if alive(recs, h) {
        recs.update(h.slot as int, after_release(with_pin(recs[h.slot as int], false)))
    } else {
        recs
    }
}

/// The records after a strong handle `h` is given up.
pub open spec fn released<V>(recs: Seq<Record<V>>, h: HandleView) -> Seq<Record<V>> {
    if releasable(recs, h) {
        recs.update(h.slot as int, after_release(recs[h.slot as int]))
    } else {
        recs
    }
}

impl<V> Heap<V> {
    /// A record holds its value exactly while strong handles remain; a live
    /// record's concrete type has a table; a pinned record is alive; the free
    /// slots are distinct and hold no handle.
    pub closed spec fn wf(&self) -> bool {
        &&& forall|i: int|
            0 <= i < self.records@.len() ==> (#[trigger] self.records@[i].payload is Some
                <==> self.records@[i].strong > 0)
        &&& forall|i: int|
            0 <= i < self.records@.len() && #[trigger] self.records@[i].strong > 0
                ==> self.extractors@.contains_key(self.records@[i].kind)
        &&& forall|i: int|
            0 <= i < self.records@.len() && #[trigger] self.records@[i].pinned ==> self.records@[i].strong > 0
        &&& forall|k: TypeKey| #[trigger] self.extractors@.contains_key(k) ==> self.extractors@[k].wf()
        &&& self.free@.no_duplicates()
        &&& free_slots_unused(self.records@, self.free@)
    }

    /// A pinned record is alive.
    pub proof fn lemma_pinned_live(&self, i: int)
        requires
            self.wf(),
            0 <= i < self@.len(),
            self@[i].pinned,
        ensures
            self@[i].strong > 0,
            self@[i].payload is Some,
    {
    }

    /// Whether an offset table is kept for the concrete type `kind`.
    pub closed spec fn has_table(&self, kind: TypeKey) -> bool {
        self.extractors@.contains_key(kind)
    }

    /// The offset table kept for the concrete type `kind`.
    pub closed spec fn table(&self, kind: TypeKey) -> Map<TypeKey, usize> {
        self.extractors@[kind]@
    }

    /// The tables of `self` are those of `other`.
    pub open spec fn same_tables(&self, other: &Heap<V>) -> bool {
        forall|k: TypeKey|
            (#[trigger] self.has_table(k) <==> other.has_table(k)) && (self.has_table(k)
                ==> self.table(k) == other.table(k))
    }


    /// The table that `kind` has once `metadata` is registered for it: the
    /// one kept already, or else the flattening of `metadata`.
    pub open spec fn table_after(&self, kind: TypeKey, metadata: Seq<ExtractionMetadata>) -> Map<TypeKey, usize> {
        if self.has_table(kind) {
            self.table(kind)
        } else {
            flat_from(metadata, 0, 0, Map::empty())
        }
    }

    /// `self` holds the tables of `prev` with the one of `kind` registered from `metadata`.
    pub open spec fn registered_from(&self, prev: &Heap<V>, kind: TypeKey, metadata: Seq<ExtractionMetadata>) -> bool {
        &&& self.has_table(kind)
        &&& self.table(kind) == prev.table_after(kind, metadata)
        &&& forall|k: TypeKey|
            k != kind ==> (#[trigger] self.has_table(k) <==> prev.has_table(k)) && (prev.has_table(k)
                ==> self.table(k) == prev.table(k))
    }

    pub fn new() -> (r: Self)
        ensures
            r.wf(),
            r@.len() == 0,
            forall|k: TypeKey| !#[trigger] r.has_table(k),
    {
        Heap { records: Vec::new(), free: Vec::new(), extractors: HashMap::new() }
    }

    /// The extractor of `kind`, built from `metadata` the first time the
    /// kind is seen and kept unchanged afterwards.
    pub fn register(&mut self, kind: TypeKey, metadata: &[ExtractionMetadata])
        requires
            old(self).wf(),
            offsets_fit(metadata@, 0, 0),
        ensures
            final(self).wf(),
            final(self)@ == old(self)@,
            final(self).registered_from(old(self), kind, metadata@),
    {
        if !self.extractors.contains_key(&kind) {
            let e = Extractor::new(metadata);
            self.extractors.insert(kind, e);
        }
    }

    /// Whether `kind`, registered by `metadata`, declares itself: judged on
    /// the table kept for it, or else on `metadata`, without registering.
    pub fn declares(&self, kind: TypeKey, metadata: &[ExtractionMetadata]) -> (r: bool)
        requires
            self.wf(),
            offsets_fit(metadata@, 0, 0),
        ensures
            r == self.table_after(kind, metadata@).contains_key(kind),
    {
        match self.extractor(kind) {
            Some(e) => e.contains(kind),
            None => Extractor::new(metadata).contains(kind),
        }
    }

    /// The offset table of `kind`, where one is kept.
    pub fn extractor(&self, kind: TypeKey) -> (r: Option<&Extractor>)
        requires
            self.wf(),
        ensures
            match r {
                Some(e) => self.has_table(kind) && e@ == self.table(kind) && e.wf(),
                None => !self.has_table(kind),
            },
    {
        self.extractors.get(&kind)
    }

    /// Places a new record, in a free slot if there is one.
    fn place(&mut self, payload: V, kind: TypeKey) -> (r: (usize, u64))
        requires
            old(self).wf(),
            old(self).extractors@.contains_key(kind),
        ensures
            final(self).wf(),
            final(self).extractors@ == old(self).extractors@,
            r.0 < final(self)@.len(),
            r.0 < old(self)@.len() ==> old(self)@[r.0 as int].strong == 0 && old(self)@[r.0 as int].weak == 0
                && r.1 == old(self)@[r.0 as int].generation,
            r.0 >= old(self)@.len() ==> r.1 == 0 && final(self)@.len() == old(self)@.len() + 1,
            r.0 < old(self)@.len() ==> final(self)@.len() == old(self)@.len(),
            final(self)@[r.0 as int] == (Record { payload: Some(payload), kind, strong: 1, weak: 0, generation: r.1, pinned: false }),
            forall|i: int| 0 <= i < old(self)@.len() && i != r.0 ==> final(self)@[i] == old(self)@[i],
    {
        match self.free.pop() {
            Some(slot) => {
                proof {
                    assert(old(self).free@[old(self).free@.len() - 1] == slot);
                    assert forall|j: int| 0 <= j < self.free@.len() implies #[trigger] self.free@[j] != slot by {
                        assert(old(self).free@[j] == self.free@[j]);
                    }
                }
                let generation = self.records[slot].generation;
                self.records.set(slot, Record { payload: Some(payload), kind, strong: 1, weak: 0, generation, pinned: false });
                proof {
                    lemma_free_slots_drop_last(old(self).records@, old(self).free@);
                    lemma_free_slots_kept(old(self).records@, self.records@, self.free@, slot as int);
                }
                (slot, generation)
            },
            None => {
                let slot = self.records.len();
                self.records.push(Record { payload: Some(payload), kind, strong: 1, weak: 0, generation: 0, pinned: false });
                (slot, 0)
            },
        }
    }
    /// Sets the strong count of a record whose payload agrees with it.
    fn set_strong(&mut self, slot: usize, strong: usize)
        requires
            old(self).wf(),
            slot < old(self)@.len(),
            old(self)@[slot as int].strong > 0,
            strong > 0,
        ensures
            final(self).wf(),
            final(self).extractors@ == old(self).extractors@,
            final(self)@ == old(self)@.update(slot as int, with_strong(old(self)@[slot as int], strong)),
    {
        self.records[slot].strong = strong;
        proof {
            lemma_free_slots_kept(old(self).records@, self.records@, self.free@, slot as int);
        }
        assert(self.records@ =~= old(self)@.update(slot as int, with_strong(old(self)@[slot as int], strong)));
    }

    /// Sets the weak count of a record that stays in use.
    fn set_weak(&mut self, slot: usize, weak: usize)
        requires
            old(self).wf(),
            slot < old(self)@.len(),
            old(self)@[slot as int].strong > 0 || old(self)@[slot as int].weak > 0,
            old(self)@[slot as int].strong > 0 || weak > 0,
        ensures
            final(self).wf(),
            final(self).extractors@ == old(self).extractors@,
            final(self)@ == old(self)@.update(slot as int, with_weak(old(self)@[slot as int], weak)),
    {
        self.records[slot].weak = weak;
        proof {
            lemma_free_slots_kept(old(self).records@, self.records@, self.free@, slot as int);
        }
        assert(self.records@ =~= old(self)@.update(slot as int, with_weak(old(self)@[slot as int], weak)));
    }

    /// Sets or clears the pin of a live record.
    fn set_pin(&mut self, slot: usize, pinned: bool)
        requires
            old(self).wf(),
            slot < old(self)@.len(),
            old(self)@[slot as int].strong > 0,
        ensures
            final(self).wf(),
            final(self).extractors@ == old(self).extractors@,
            final(self)@ == old(self)@.update(slot as int, with_pin(old(self)@[slot as int], pinned)),
    {
        self.records[slot].pinned = pinned;
        proof {
            lemma_free_slots_kept(old(self).records@, self.records@, self.free@, slot as int);
        }
        assert(self.records@ =~= old(self)@.update(slot as int, with_pin(old(self)@[slot as int], pinned)));
    }

    /// Clears the pin of the record `h` designates, if it is alive.
    pub(crate) fn unpin(&mut self, h: &Acquirable)
        requires
            old(self).wf(),
        ensures
            final(self).wf(),
            final(self).same_tables(old(self)),
            final(self)@ == (if alive(old(self)@, h@) { unpinned(old(self)@, h@) } else { old(self)@ }),
    {
        if h.is_alive(self) {
            self.set_pin(h.slot, false);
        }
    }

    /// Sets the pin of the record `h` designates, if it is alive.
    pub(crate) fn pin(&mut self, h: &Acquirable)
        requires
            old(self).wf(),
        ensures
            final(self).wf(),
            final(self).same_tables(old(self)),
            final(self)@ == (if alive(old(self)@, h@) {
                old(self)@.update(h@.slot as int, with_pin(old(self)@[h@.slot as int], true))
            } else {
                old(self)@
            }),
    {
        if h.is_alive(self) {
            self.set_pin(h.slot, true);
        }
    }

    /// Drops the value of a record whose last strong handle went away; the
    /// slot is retired if no weak handle remains.
    fn drop_value(&mut self, slot: usize)
        requires
            old(self).wf(),
            slot < old(self)@.len(),
            old(self)@[slot as int].strong == 1,
            !old(self)@[slot as int].pinned,
        ensures
            final(self).wf(),
            final(self).extractors@ == old(self).extractors@,
            final(self)@ == old(self)@.update(slot as int, after_release(old(self)@[slot as int])),
    {
        let weak = self.records[slot].weak;
        let generation = self.records[slot].generation;
        let kind = self.records[slot].kind;
        if weak > 0 {
            self.records.set(slot, Record { payload: None, kind, strong: 0, weak, generation, pinned: false });
            proof {
                lemma_free_slots_kept(old(self).records@, self.records@, self.free@, slot as int);
            }
        } else {
            self.retire(slot);
        }
    }

    /// Gives back a slot whose counts are both zero.
    fn retire(&mut self, slot: usize)
        requires
            old(self).wf(),
            slot < old(self)@.len(),
            old(self)@[slot as int].strong <= 1,
            old(self)@[slot as int].weak <= 1,
            old(self)@[slot as int].strong + old(self)@[slot as int].weak == 1,
            !old(self)@[slot as int].pinned,
        ensures
            final(self).wf(),
            final(self).extractors@ == old(self).extractors@,
            final(self)@ == old(self)@.update(slot as int, retired(old(self)@[slot as int])),
    {
        let generation = self.records[slot].generation;
        let kind = self.records[slot].kind;
        proof {
            assert forall|j: int| 0 <= j < self.free@.len() implies #[trigger] self.free@[j] != slot by {}
        }
        if generation < u64::MAX {
            self.records.set(slot, Record { payload: None, kind, strong: 0, weak: 0, generation: generation + 1, pinned: false });
            proof {
                lemma_free_slots_kept(old(self).records@, self.records@, self.free@, slot as int);
            }
            self.free.push(slot);
            proof {
                lemma_free_slots_push(self.records@, old(self).free@, slot);
            }
        } else {
            self.records.set(slot, Record { payload: None, kind, strong: 0, weak: 0, generation, pinned: false });
            proof {
                lemma_free_slots_kept(old(self).records@, self.records@, self.free@, slot as int);
            }
        }
    }
}

/// Registration survives a step that keeps the tables.
pub proof fn lemma_same_tables_keeps_registration<V>(
    a: &Heap<V>,
    b: &Heap<V>,
    c: &Heap<V>,
    kind: TypeKey,
    metadata: Seq<ExtractionMetadata>,
)
    requires
        b.registered_from(a, kind, metadata),
        c.same_tables(b),
    ensures
        c.registered_from(a, kind, metadata),
{
    assert(c.has_table(kind) <==> b.has_table(kind));
}

/// Registering the same kind twice keeps the first table.
pub proof fn lemma_registration_twice<V>(
    a: &Heap<V>,
    b: &Heap<V>,
    c: &Heap<V>,
    kind: TypeKey,
    metadata: Seq<ExtractionMetadata>,
)
    requires
        b.registered_from(a, kind, metadata),
        c.registered_from(b, kind, metadata),
    ensures
        c.registered_from(a, kind, metadata),
{
    assert forall|k: TypeKey| k != kind implies (#[trigger] c.has_table(k) <==> a.has_table(k)) && (
        a.has_table(k) ==> c.table(k) == a.table(k)) by {
        assert(b.has_table(k) <==> a.has_table(k));
    }
}

impl Acquirable {
    /// Stores `value`, of concrete type `kind` registered by `metadata`, in a
    /// new record with one strong handle: the one returned, which views the
    /// value itself at offset zero.
    pub fn new<V>(heap: &mut Heap<V>, kind: TypeKey, metadata: &[ExtractionMetadata], value: V) -> (r: Acquirable)
        requires
            old(heap).wf(),
            offsets_fit(metadata@, 0, 0),
        ensures
            final(heap).wf(),
            r@.component == kind,
            r@.offset == 0,
            r@.slot < final(heap)@.len(),
            final(heap)@[r@.slot as int] == (Record {
                payload: Some(value),
                kind,
                strong: 1,
                weak: 0,
                generation: r@.generation,
                pinned: false,
            }),
            r@.slot < old(heap)@.len() ==> old(heap)@[r@.slot as int].strong == 0
                && old(heap)@[r@.slot as int].weak == 0,
            final(heap)@.len() >= old(heap)@.len(),
            forall|i: int| 0 <= i < old(heap)@.len() && i != r@.slot ==> final(heap)@[i] == old(heap)@[i],
            final(heap).registered_from(old(heap), kind, metadata@),
    {
        heap.register(kind, metadata);
        let ghost mid = *heap;
        let (slot, generation) = heap.place(value, kind);
        proof {
            assert forall|k: TypeKey| k != kind implies (#[trigger] heap.has_table(k) <==> old(heap).has_table(k)) && (
                old(heap).has_table(k) ==> heap.table(k) == old(heap).table(k)) by {
                assert(mid.registered_from(old(heap), kind, metadata@));
                assert(heap.extractors@ == mid.extractors@);
                assert(mid.has_table(k) <==> old(heap).has_table(k));
            }
        }
        Acquirable { slot, generation, component: kind, offset: 0 }
    }

    /// The component type this handle views.
    pub fn component(&self) -> (r: TypeKey)
        ensures
            r == self@.component,
    {
        self.component
    }

    /// The offset of the viewed component from the root of the value.
    pub fn offset(&self) -> (r: usize)
        ensures
            r == self@.offset,
    {
        self.offset
    }

    /// Whether the two handles share one record (identity, not value equality).
    pub fn ptr_eq(&self, other: &Acquirable) -> (r: bool)
        ensures
            r == (self@.slot == other@.slot && self@.generation == other@.generation),
    {
        self.slot == other.slot && self.generation == other.generation
    }

    /// Whether this handle designates a live record of `heap`.
    pub fn is_alive<V>(&self, heap: &Heap<V>) -> (r: bool)
        ensures
            r == alive(heap@, self@),
    {
        self.slot < heap.records.len() && heap.records[self.slot].generation == self.generation
            && heap.records[self.slot].strong > 0
    }

    /// The number of strong handles of the record (zero for a handle that
    /// designates no live record).
    pub fn strong_count<V>(&self, heap: &Heap<V>) -> (r: usize)
        ensures
            r == (if designates(heap@, self@) { heap@[self@.slot as int].strong } else { 0 }),
    {
        if self.slot < heap.records.len() && heap.records[self.slot].generation == self.generation {
            heap.records[self.slot].strong
        } else {
            0
        }
    }

    /// The number of weak handles of the record.
    pub fn weak_count<V>(&self, heap: &Heap<V>) -> (r: usize)
        ensures
            r == (if designates(heap@, self@) { heap@[self@.slot as int].weak } else { 0 }),
    {
        if self.slot < heap.records.len() && heap.records[self.slot].generation == self.generation {
            heap.records[self.slot].weak
        } else {
            0
        }
    }

    /// The stored value, while it is alive.
    pub fn get<'a, V>(&self, heap: &'a Heap<V>) -> (r: Option<&'a V>)
        requires
            heap.wf(),
        ensures
            match r {
                Some(v) => alive(heap@, self@) && heap@[self@.slot as int].payload == Some(*v),
                None => !alive(heap@, self@),
            },
    {
        if self.slot < heap.records.len() && heap.records[self.slot].generation == self.generation {
            match &heap.records[self.slot].payload {
                Some(v) => Some(v),
                None => None,
            }
        } else {
            None
        }
    }

    /// A new strong handle on the same record, viewing the component
    /// `component` at the offset that the record's concrete type declares
    /// for it. No handle comes for a type the concrete type does not declare.
    pub fn extract<V>(&self, heap: &mut Heap<V>, component: TypeKey) -> (r: Option<Acquirable>)
        requires
            old(heap).wf(),
        ensures
            final(heap).wf(),
            final(heap).same_tables(old(heap)),
            keeps_pins(old(heap)@, final(heap)@),
            ({
                let recs = old(heap)@;
                let rec = recs[self@.slot as int];
                let ok = alive(recs, self@) && old(heap).table(rec.kind).contains_key(component)
                    && rec.strong < usize::MAX;
                match r {
                    Some(a) => ok && a@ == (HandleView {
                        slot: self@.slot,
                        generation: self@.generation,
                        component,
                        offset: old(heap).table(rec.kind)[component],
                    }) && final(heap)@ == recs.update(self@.slot as int, with_strong(rec, (rec.strong + 1) as usize)),
                    None => !ok && final(heap)@ == recs,
                }
            }),
    {
        if !self.is_alive(heap) {
            return None;
        }
        let slot = self.slot;
        let strong = heap.records[slot].strong;
        let kind = heap.records[slot].kind;
        if strong == usize::MAX {
            return None;
        }
        let offset = match heap.extractor(kind) {
            Some(e) => e.offset(component),
            None => None,
        };
        match offset {
            Some(offset) => {
                heap.set_strong(slot, strong + 1);
                Some(Acquirable { slot, generation: self.generation, component, offset })
            },
            None => None,
        }
    }

    /// A new strong handle on the same record with the same view.
    pub fn clone<V>(&self, heap: &mut Heap<V>) -> (r: Option<Acquirable>)
        requires
            old(heap).wf(),
        ensures
            final(heap).wf(),
            final(heap).same_tables(old(heap)),
            keeps_pins(old(heap)@, final(heap)@),
            ({
                let recs = old(heap)@;
                let rec = recs[self@.slot as int];
                let ok = alive(recs, self@) && rec.strong < usize::MAX;
                match r {
                    Some(a) => ok && a@ == self@
                        && final(heap)@ == recs.update(self@.slot as int, with_strong(rec, (rec.strong + 1) as usize)),
                    None => !ok && final(heap)@ == recs,
                }
            }),
    {
        if !self.is_alive(heap) {
            return None;
        }
        let slot = self.slot;
        let strong = heap.records[slot].strong;
        if strong == usize::MAX {
            return None;
        }
        heap.set_strong(slot, strong + 1);
        Some(Acquirable { slot, generation: self.generation, component: self.component, offset: self.offset })
    }

    /// A weak handle with the same view; the strong count is unchanged.
    pub fn downgrade<V>(&self, heap: &mut Heap<V>) -> (r: Option<WeakAcquirable>)
        requires
            old(heap).wf(),
        ensures
            final(heap).wf(),
            final(heap).same_tables(old(heap)),
            keeps_pins(old(heap)@, final(heap)@),
            ({
                let recs = old(heap)@;
                let rec = recs[self@.slot as int];
                let ok = alive(recs, self@) && rec.weak < usize::MAX;
                match r {
                    Some(w) => ok && w@ == self@
                        && final(heap)@ == recs.update(self@.slot as int, with_weak(rec, (rec.weak + 1) as usize)),
                    None => !ok && final(heap)@ == recs,
                }
            }),
    {
        if !self.is_alive(heap) {
            return None;
        }
        let slot = self.slot;
        let weak = heap.records[slot].weak;
        if weak == usize::MAX {
            return None;
        }
        heap.set_weak(slot, weak + 1);
        Some(WeakAcquirable { slot, generation: self.generation, component: self.component, offset: self.offset })
    }

    /// Gives up this handle: the value is dropped with its last strong
    /// handle, and the slot is freed once no weak handle remains either.
    /// The last strong handle of a pinned record is not given up: the
    /// container that pinned it holds it.
    pub fn release<V>(self, heap: &mut Heap<V>)
        requires
            old(heap).wf(),
        ensures
            final(heap).wf(),
            final(heap).same_tables(old(heap)),
            keeps_pins(old(heap)@, final(heap)@),
            final(heap)@ == released(old(heap)@, self@),
    {
        if !self.is_alive(heap) {
            return;
        }
        let slot = self.slot;
        let strong = heap.records[slot].strong;
        if strong == 1 && heap.records[slot].pinned {
            return;
        }
        if strong > 1 {
            heap.set_strong(slot, strong - 1);
        } else {
            heap.drop_value(slot);
        }
    }
}

impl WeakAcquirable {
    /// Whether the two handles share one record.
    pub fn ptr_eq(&self, other: &WeakAcquirable) -> (r: bool)
        ensures
            r == (self@.slot == other@.slot && self@.generation == other@.generation),
    {
        self.slot == other.slot && self.generation == other.generation
    }

    /// A strong handle, while the value is still alive; never one for a
    /// value that was dropped.
    pub fn upgrade<V>(&self, heap: &mut Heap<V>) -> (r: Option<Acquirable>)
        requires
            old(heap).wf(),
        ensures
            final(heap).wf(),
            final(heap).same_tables(old(heap)),
            keeps_pins(old(heap)@, final(heap)@),
            ({
                let recs = old(heap)@;
                let rec = recs[self@.slot as int];
                let ok = alive(recs, self@) && rec.strong < usize::MAX;
                match r {
                    Some(a) => ok && a@ == self@
                        && final(heap)@ == recs.update(self@.slot as int, with_strong(rec, (rec.strong + 1) as usize)),
                    None => !ok && final(heap)@ == recs,
                }
            }),
    {
        if !(self.slot < heap.records.len() && heap.records[self.slot].generation == self.generation
            && heap.records[self.slot].strong > 0) {
            return None;
        }
        let slot = self.slot;
        let strong = heap.records[slot].strong;
        if strong == usize::MAX {
            return None;
        }
        heap.set_strong(slot, strong + 1);
        Some(Acquirable { slot, generation: self.generation, component: self.component, offset: self.offset })
    }

    /// Another weak handle on the same record.
    pub fn clone<V>(&self, heap: &mut Heap<V>) -> (r: Option<WeakAcquirable>)
        requires
            old(heap).wf(),
        ensures
            final(heap).wf(),
            final(heap).same_tables(old(heap)),
            keeps_pins(old(heap)@, final(heap)@),
            ({
                let recs = old(heap)@;
                let rec = recs[self@.slot as int];
                let ok = designates(recs, self@) && (rec.strong > 0 || rec.weak > 0) && rec.weak < usize::MAX;
                match r {
                    Some(w) => ok && w@ == self@
                        && final(heap)@ == recs.update(self@.slot as int, with_weak(rec, (rec.weak + 1) as usize)),
                    None => !ok && final(heap)@ == recs,
                }
            }),
    {
        if !(self.slot < heap.records.len() && heap.records[self.slot].generation == self.generation) {
            return None;
        }
        let slot = self.slot;
        let weak = heap.records[slot].weak;
        let strong = heap.records[slot].strong;
        if (strong == 0 && weak == 0) || weak == usize::MAX {
            return None;
        }
        heap.set_weak(slot, weak + 1);
        Some(WeakAcquirable { slot, generation: self.generation, component: self.component, offset: self.offset })
    }

    /// Gives up this weak handle; the slot is freed if it was the last handle.
    pub fn release<V>(self, heap: &mut Heap<V>)
        requires
            old(heap).wf(),
        ensures
            final(heap).wf(),
            final(heap).same_tables(old(heap)),
            keeps_pins(old(heap)@, final(heap)@),
            ({
                let recs = old(heap)@;
                let rec = recs[self@.slot as int];
                if designates(recs, self@) && rec.weak > 0 {
                    final(heap)@ == recs.update(self@.slot as int, after_weak_release(rec))
                } else {
                    final(heap)@ == recs
                }
            }),
    {
        if !(self.slot < heap.records.len() && heap.records[self.slot].generation == self.generation) {
            return;
        }
        let slot = self.slot;
        let weak = heap.records[slot].weak;
        let strong = heap.records[slot].strong;
        if weak == 0 {
            return;
        }
        if weak > 1 || strong > 0 {
            heap.set_weak(slot, weak - 1);
        } else {
            heap.retire(slot);
        }
    }
}

} // verus!
