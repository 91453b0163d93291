//! Homogeneous storage: one handle per key, each viewing a declared base type.

use crate::acquirable::{
    alive, bumped, can_bump, dropped, unpinned, lemma_registration_twice, lemma_same_tables_keeps_registration,
    Acquirable, HandleView, Heap, Record,
};
use crate::metadata::{offsets_fit, ExtractionMetadata, TypeKey};
use std::collections::HashMap;
use vstd::prelude::*;
use vstd::std_specs::iter::IteratorSpec;

verus! {

broadcast use vstd::std_specs::hash::group_hash_axioms;

/// The keys of a map, once each.
pub fn keys_of<T>(m: &HashMap<u32, T>) -> (r: Vec<u32>)
    ensures
        r@.no_duplicates(),
        forall|k: u32| #[trigger] m@.contains_key(k) <==> r@.contains(k),
{
    let mut r: Vec<u32> = Vec::new();
    for k in it: m.keys()
        invariant
            r@ == it.seq().take(it.index() as int).map_values(|x: &u32| *x),
    {
        r.push(*k);
    }
    proof {
        let s = vstd::std_specs::hash::spec_keys_iter(m).remaining();
        assert(r@ =~= s.unref());
        assert forall|k: u32| #[trigger] m@.contains_key(k) <==> r@.contains(k) by {
            assert(s.unref().to_set().contains(k) <==> m@.dom().contains(k));
        }
    }
    r
}

/// Handles keyed by `u32`, each viewing the base type `base` of the value it
/// holds. The archetype's handles are strong: a stored value stays alive at
/// least as long as it is stored.
pub struct Archetype {
    base: TypeKey,
    entities: HashMap<u32, Acquirable>,
}

impl View for Archetype {
    type V = Map<u32, HandleView>;

    closed spec fn view(&self) -> Map<u32, HandleView> {
        self.entities@.map_values(|a: Acquirable| a@)
    }
}

impl Archetype {
    pub closed spec fn base_type(&self) -> TypeKey {
        self.base
    }

    /// An archetype holds finitely many handles.
    pub proof fn lemma_view_finite(&self)
        ensures
            self@.dom().finite(),
    {
        assert(self@.dom() =~= self.entities@.dom());
    }

    /// An empty archetype whose values all expose `base`.
    pub fn new(base: TypeKey) -> (r: Self)
        ensures
            r@ == Map::<u32, HandleView>::empty(),
            r.base_type() == base,
    {
        let r = Archetype { base, entities: HashMap::new() };
        assert(r@ =~= Map::<u32, HandleView>::empty());
        r
    }

    pub fn base(&self) -> (r: TypeKey)
        ensures
            r == self.base_type(),
    {
        self.base
    }

    /// Stores `value`, of concrete type `kind` registered by `metadata`,
    /// under `key`, and returns a handle that views the value itself. The
    /// archetype keeps its own handle, viewing the base type. A value whose
    /// concrete type does not declare the base type is refused: nothing is
    /// stored and `None` comes back. A handle stored before under `key` is
    /// given up.
    pub fn insert<V>(
        &mut self,
        heap: &mut Heap<V>,
        key: u32,
        kind: TypeKey,
        metadata: &[ExtractionMetadata],
        value: V,
    ) -> (r: Option<Acquirable>)
        requires
            old(heap).wf(),
            offsets_fit(metadata@, 0, 0),
        ensures
            final(heap).wf(),
            final(heap).registered_from(old(heap), kind, metadata@),
            final(self).base_type() == old(self).base_type(),
            ({
                let table = old(heap).table_after(kind, metadata@);
                let base = old(self).base_type();
                let before = if old(self)@.contains_key(key) {
                    dropped(old(heap)@, old(self)@[key])
                } else {
                    old(heap)@
                };
                match r {
                    Some(h) => {
                        &&& table.contains_key(base)
                        &&& h@.component == kind
                        &&& h@.offset == 0
                        &&& h@.slot < final(heap)@.len()
                        &&& final(heap)@[h@.slot as int] == (Record {
                            payload: Some(value),
                            kind,
                            strong: 2,
                            weak: 0,
                            generation: h@.generation,
                            pinned: true,
                        })
                        &&& h@.slot < old(heap)@.len() ==> before[h@.slot as int].strong == 0
                            && before[h@.slot as int].weak == 0
                        &&& final(self)@ == old(self)@.insert(
                            key,
                            HandleView {
                                slot: h@.slot,
                                generation: h@.generation,
                                component: base,
                                offset: table[base],
                            },
                        )
                        &&& final(heap)@.len() >= old(heap)@.len()
                        &&& forall|i: int|
                            0 <= i < old(heap)@.len() && i != h@.slot ==> #[trigger] final(heap)@[i] == before[i]
                    },
                    None => {
                        &&& !table.contains_key(base)
                        &&& final(self)@ == old(self)@
                        &&& final(heap)@ == old(heap)@
                    },
                }
            }),
    {
        heap.register(kind, metadata);
        let declared = match heap.extractor(kind) {
            Some(e) => e.contains(self.base),
            None => false,
        };
        if !declared {
            return None;
        }
        let ghost registered = *heap;
        let prev = self.entities.remove(&key);
        match prev {
            Some(p) => {
                assert(p@ == old(self)@[key]);
                heap.unpin(&p);
                p.release(heap);
            },
            None => {},
        }
        let ghost freed = *heap;
        proof {
            lemma_same_tables_keeps_registration(old(heap), &registered, &freed, kind, metadata@);
        }
        let h = Acquirable::new(heap, kind, metadata, value);
        let ghost placed = *heap;
        proof {
            lemma_registration_twice(old(heap), &freed, &placed, kind, metadata@);
        }
        let b = match h.extract(heap, self.base) {
            Some(b) => b,
            None => {
                // not reached: the table declares the base, and the new record has one handle
                h.release(heap);
                proof {
                    lemma_same_tables_keeps_registration(old(heap), &placed, heap, kind, metadata@);
                }
                return None;
            },
        };
        heap.pin(&b);
        proof {
            lemma_same_tables_keeps_registration(old(heap), &placed, heap, kind, metadata@);
        }
        self.entities.insert(key, b);
        proof {
            assert(self@ =~= old(self)@.insert(key, b@));
        }
        Some(h)
    }
    /// A new strong handle on the value stored under `key`, viewing the base type.
    pub fn get<V>(&self, heap: &mut Heap<V>, key: u32) -> (r: Option<Acquirable>)
        requires
            old(heap).wf(),
        ensures
            final(heap).wf(),
            final(heap).same_tables(old(heap)),
            match r {
                Some(a) => self@.contains_key(key) && can_bump(old(heap)@, self@[key]) && a@ == self@[key]
                    && final(heap)@ == bumped(old(heap)@, self@[key]),
                None => !(self@.contains_key(key) && can_bump(old(heap)@, self@[key])) && final(heap)@
                    == old(heap)@,
            },
    {
        match self.entities.get(&key) {
            Some(a) => a.clone(heap),
            None => None,
        }
    }

    /// A new strong handle on the value stored under `key`, viewing
    /// `component`, where the value's concrete type declares it.
    pub fn extract_entity<V>(&self, heap: &mut Heap<V>, key: u32, component: TypeKey) -> (r: Option<Acquirable>)
        requires
            old(heap).wf(),
        ensures
            final(heap).wf(),
            final(heap).same_tables(old(heap)),
            ({
                let ok = self@.contains_key(key) && can_bump(old(heap)@, self@[key]) && old(heap).table(
                    old(heap)@[self@[key].slot as int].kind,
                ).contains_key(component);
                match r {
                    Some(a) => ok && a@ == (HandleView {
                        slot: self@[key].slot,
                        generation: self@[key].generation,
                        component,
                        offset: old(heap).table(old(heap)@[self@[key].slot as int].kind)[component],
                    }) && final(heap)@ == bumped(old(heap)@, self@[key]),
                    None => !ok && final(heap)@ == old(heap)@,
                }
            }),
    {
        match self.entities.get(&key) {
            Some(a) => a.extract(heap, component),
            None => None,
        }
    }

    /// Takes the handle stored under `key` out of the archetype, clearing
    /// its record's pin; the value lives on while strong handles remain.
    pub fn remove<V>(&mut self, heap: &mut Heap<V>, key: u32) -> (r: Option<Acquirable>)
        requires
            old(heap).wf(),
        ensures
            final(heap).wf(),
            final(heap).same_tables(old(heap)),
            final(heap)@ == (if old(self)@.contains_key(key) && alive(old(heap)@, old(self)@[key]) {
                unpinned(old(heap)@, old(self)@[key])
            } else {
                old(heap)@
            }),
            final(self).base_type() == old(self).base_type(),
            final(self)@ == old(self)@.remove(key),
            match r {
                Some(a) => old(self)@.contains_key(key) && a@ == old(self)@[key],
                None => !old(self)@.contains_key(key),
            },
    {
        let r = self.entities.remove(&key);
        proof {
            assert(self@ =~= old(self)@.remove(key));
        }
        match &r {
            Some(a) => heap.unpin(a),
            None => {},
        }
        r
    }

    pub fn contains_key(&self, key: u32) -> (r: bool)
        ensures
            r == self@.contains_key(key),
    {
        self.entities.contains_key(&key)
    }

    pub fn len(&self) -> (r: usize)
        ensures
            r == self@.len(),
    {
        proof {
            assert(self@.dom() =~= self.entities@.dom());
        }
        self.entities.len()
    }

    pub fn is_empty(&self) -> (r: bool)
        ensures
            r == (self@.len() == 0),
    {
        proof {
            assert(self@.dom() =~= self.entities@.dom());
        }
        self.entities.is_empty()
    }

    /// The keys stored, once each.
    pub fn keys(&self) -> (r: Vec<u32>)
        ensures
            r@.no_duplicates(),
            forall|k: u32| #[trigger] self@.contains_key(k) <==> r@.contains(k),
    {
        keys_of(&self.entities)
    }

    /// Gives up every stored handle and leaves the archetype empty.
    pub fn clear<V>(&mut self, heap: &mut Heap<V>)
        requires
            old(heap).wf(),
        ensures
            final(heap).wf(),
            final(heap).same_tables(old(heap)),
            final(self)@ == Map::<u32, HandleView>::empty(),
            final(self).base_type() == old(self).base_type(),
            final(heap)@.len() == old(heap)@.len(),
            forall|i: int|
                0 <= i < old(heap)@.len() && !(exists|k: u32| #[trigger] old(self)@.contains_key(k)
                    && old(self)@[k].slot == i) ==> final(heap)@[i] == old(heap)@[i],
    {
        let keys = self.keys();
        let mut j: usize = 0;
        while j < keys.len()
            invariant
                0 <= j <= keys@.len(),
                keys@.no_duplicates(),
                forall|k: u32| #[trigger] old(self)@.contains_key(k) <==> keys@.contains(k),
                heap.wf(),
                heap.same_tables(old(heap)),
                heap@.len() == old(heap)@.len(),
                self.base_type() == old(self).base_type(),
                forall|k: u32| #[trigger] self@.contains_key(k) ==> old(self)@.contains_key(k) && self@[k] == old(self)@[k],
                forall|t: int| j <= t < keys@.len() ==> self@.contains_key(#[trigger] keys@[t]),
                forall|t: int| 0 <= t < j ==> !self@.contains_key(#[trigger] keys@[t]),
                forall|i: int|
                    0 <= i < old(heap)@.len() && !(exists|k: u32| #[trigger] old(self)@.contains_key(k)
                        && old(self)@[k].slot == i) ==> heap@[i] == old(heap)@[i],
            decreases keys@.len() - j,
        {
            let k = keys[j];
            let ghost before = *heap;
            match self.remove(heap, k) {
                Some(a) => {
                    a.release(heap);
                    proof {
                        assert(old(self)@.contains_key(k) && old(self)@[k].slot == a@.slot);
                    }
                },
                None => {},
            }
            proof {
                assert(before.same_tables(old(heap)));
                assert forall|t: int| j + 1 <= t < keys@.len() implies self@.contains_key(#[trigger] keys@[t]) by {
                    assert(keys@[t] != keys@[j as int]);
                }
            }
            j = j + 1;
        }
        proof {
            assert forall|k: u32| !self@.contains_key(k) by {
                if self@.contains_key(k) {
                    let t = choose|t: int| 0 <= t < keys@.len() && keys@[t] == k;
                }
            }
            assert(self@ =~= Map::<u32, HandleView>::empty());
        }
    }
}

} // verus!
