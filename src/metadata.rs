//! Extraction metadata: which component types a concrete type embeds, and at
//! which byte offset, flattened into one offset table per concrete type.

use std::collections::HashMap;
use vstd::prelude::*;

verus! {

broadcast use vstd::std_specs::hash::group_hash_axioms;

/// Identity of a type, as a process-wide comparable key.
pub type TypeKey = u64;

/// One entry of a type's registration: either the position itself is an
/// extractable type, or another extractable type is embedded there with its
/// own entries.
pub enum ExtractionMetadata {
    Target { type_id: TypeKey, offset: usize },
    Nested { type_id: TypeKey, offset: usize, nested: Vec<ExtractionMetadata> },
}

impl ExtractionMetadata {
    pub open spec fn key(self) -> TypeKey {
        match self {
            ExtractionMetadata::Target { type_id, .. } => type_id,
            ExtractionMetadata::Nested { type_id, .. } => type_id,
        }
    }

    pub open spec fn rel_offset(self) -> usize {
        match self {
            ExtractionMetadata::Target { offset, .. } => offset,
            ExtractionMetadata::Nested { offset, .. } => offset,
        }
    }

    /// A leaf entry: `type_id` is extractable at `offset`.
    pub fn new(type_id: TypeKey, offset: usize) -> (r: Self)
        ensures
            r == (ExtractionMetadata::Target { type_id, offset }),
    {
        ExtractionMetadata::Target { type_id, offset }
    }

    /// A nested entry: `type_id` is embedded at `offset` and carries its own entries.
    pub fn new_nested(type_id: TypeKey, offset: usize, nested: Vec<ExtractionMetadata>) -> (r: Self)
        ensures
            r == (ExtractionMetadata::Nested { type_id, offset, nested }),
    {
        ExtractionMetadata::Nested { type_id, offset, nested }
    }

    pub fn type_id(&self) -> (r: TypeKey)
        ensures
            r == self.key(),
    {
        match self {
            ExtractionMetadata::Target { type_id, .. } => *type_id,
            ExtractionMetadata::Nested { type_id, .. } => *type_id,
        }
    }

    pub fn offset(&self) -> (r: usize)
        ensures
            r == self.rel_offset(),
    {
        match self {
            ExtractionMetadata::Target { offset, .. } => *offset,
            ExtractionMetadata::Nested { offset, .. } => *offset,
        }
    }

    /// The flat offset table of a registration: every reachable type mapped to
    /// its offset from the root, later entries overriding earlier ones.
    pub fn flatten(list: &[ExtractionMetadata]) -> (r: HashMap<TypeKey, usize>)
        requires
            offsets_fit(list@, 0, 0),
        ensures
            r@ == flat_from(list@, 0, 0, Map::empty()),
    {
        let mut result: HashMap<TypeKey, usize> = HashMap::new();
        let mut keys: Vec<TypeKey> = Vec::new();
        Self::flatten_internal(list, 0, &mut result, &mut keys);
        result
    }

    fn flatten_internal(
        list: &[ExtractionMetadata],
        base_offset: usize,
        result: &mut HashMap<TypeKey, usize>,
        keys: &mut Vec<TypeKey>,
    )
        requires
            offsets_fit(list@, 0, base_offset as int),
            keys_match(old(result)@, old(keys)@),
        ensures
            final(result)@ == flat_from(list@, 0, base_offset as int, old(result)@),
            keys_match(final(result)@, final(keys)@),
        decreases list@,
    {
        let mut i: usize = 0;
        while i < list.len()
            invariant
                0 <= i <= list@.len(),
                offsets_fit(list@, i as int, base_offset as int),
                keys_match(result@, keys@),
                flat_from(list@, 0, base_offset as int, old(result)@) == flat_from(
                    list@,
                    i as int,
                    base_offset as int,
                    result@,
                ),
            decreases list@.len() - i,
        {
            let entry = &list[i];
            let type_id = entry.type_id();
            let at = base_offset + entry.offset();
            let ghost old_keys = keys@;
            let ghost had = result@.contains_key(type_id);
            if !result.contains_key(&type_id) {
                keys.push(type_id);
            }
            result.insert(type_id, at);
            proof {
                lemma_keys_after_insert(old_keys, keys@, type_id, had);
            }
            match entry {
                ExtractionMetadata::Target { .. } => {},
                ExtractionMetadata::Nested { nested, .. } => {
                    assert(decreases_to!(list@ => nested@));
                    Self::flatten_internal(nested.as_slice(), at, result, keys);
                },
            }
            i = i + 1;
        }
    }
}


/// A type that can be stored and viewed through its registration: its own
/// key, and the entries that say which component types it embeds.
pub trait Extractable {
    fn type_key() -> TypeKey;

    fn metadata() -> Vec<ExtractionMetadata>;
}

/// Whether every offset sum of `list`, from `base`, fits in a `usize`.
pub fn offsets_fit_from(list: &[ExtractionMetadata], base: usize) -> (r: bool)
    ensures
        r == offsets_fit(list@, 0, base as int),
    decreases list@,
{
    let mut i: usize = 0;
    while i < list.len()
        invariant
            0 <= i <= list@.len(),
            offsets_fit(list@, 0, base as int) == offsets_fit(list@, i as int, base as int),
        decreases list@.len() - i,
    {
        let entry = &list[i];
        let off = entry.offset();
        if off > usize::MAX - base {
            return false;
        }
        let at = base + off;
        match entry {
            ExtractionMetadata::Target { .. } => {},
            ExtractionMetadata::Nested { nested, .. } => {
                assert(decreases_to!(list@ => nested@));
                if !offsets_fit_from(nested.as_slice(), at) {
                    return false;
                }
            },
        }
        i = i + 1;
    }
    true
}

/// The flat offset table of one concrete type, built once from its
/// registration and never changed afterwards.
pub struct Extractor {
    offsets: HashMap<TypeKey, usize>,
    keys: Vec<TypeKey>,
}

impl View for Extractor {
    type V = Map<TypeKey, usize>;

    closed spec fn view(&self) -> Map<TypeKey, usize> {
        self.offsets@
    }
}

impl Extractor {
    /// The key list names each entry of the table once.
    pub closed spec fn wf(&self) -> bool {
        keys_match(self.offsets@, self.keys@)
    }

    pub fn new(list: &[ExtractionMetadata]) -> (r: Self)
        requires
            offsets_fit(list@, 0, 0),
        ensures
            r.wf(),
            r@ == flat_from(list@, 0, 0, Map::empty()),
    {
        let mut offsets: HashMap<TypeKey, usize> = HashMap::new();
        let mut keys: Vec<TypeKey> = Vec::new();
        ExtractionMetadata::flatten_internal(list, 0, &mut offsets, &mut keys);
        Extractor { offsets, keys }
    }

    /// The offset of `type_id` from the root, if the type is reachable.
    pub fn offset(&self, type_id: TypeKey) -> (r: Option<usize>)
        ensures
            r == (if self@.contains_key(type_id) {
                Some(self@[type_id])
            } else {
                None::<usize>
            }),
    {
        match self.offsets.get(&type_id) {
            Some(o) => Some(*o),
            None => None,
        }
    }

    pub fn contains(&self, type_id: TypeKey) -> (r: bool)
        ensures
            r == self@.contains_key(type_id),
    {
        self.offsets.contains_key(&type_id)
    }

    /// Every type of the table, once each.
    pub fn type_ids(&self) -> (r: &Vec<TypeKey>)
        requires
            self.wf(),
        ensures
            r@.no_duplicates(),
            forall|k: TypeKey| #[trigger] self@.contains_key(k) <==> r@.contains(k),
    {
        &self.keys
    }
}

/// The types that flattening lists as keys are exactly those that the
/// registration declares, at any depth, together with what was there before.
pub proof fn lemma_flat_domain(
    list: Seq<ExtractionMetadata>,
    i: int,
    base: int,
    acc: Map<TypeKey, usize>,
)
    ensures
        flat_from(list, i, base, acc).dom() == acc.dom().union(reach_from(list, i)),
    decreases list, list.len() - i,
{
    if i < 0 || i >= list.len() {
        assert(acc.dom().union(Set::empty()) =~= acc.dom());
    } else {
        let e = list[i];
        let at = base + e.rel_offset();
        let acc1 = acc.insert(e.key(), at as usize);
        match e {
            ExtractionMetadata::Target { .. } => {
                lemma_flat_domain(list, i + 1, base, acc1);
            },
            ExtractionMetadata::Nested { nested, .. } => {
                assert(decreases_to!(list => nested@));
                lemma_flat_domain(nested@, 0, at, acc1);
                let acc2 = flat_from(nested@, 0, at, acc1);
                lemma_flat_domain(list, i + 1, base, acc2);
            },
        }
        assert(flat_from(list, i, base, acc).dom() =~= acc.dom().union(reach_from(list, i)));
    }
}

/// Extraction succeeds exactly for the declared types: the flat table of a
/// registration holds a type if and only if the registration declares it.
pub proof fn lemma_reachability(list: Seq<ExtractionMetadata>, t: TypeKey)
    ensures
        flat_from(list, 0, 0, Map::empty()).contains_key(t) <==> reach_from(list, 0).contains(t),
{
    lemma_flat_domain(list, 0, 0, Map::empty());
}


proof fn lemma_keys_after_insert(
    old_keys: Seq<TypeKey>,
    keys: Seq<TypeKey>,
    t: TypeKey,
    had: bool,
)
    requires
        old_keys.no_duplicates(),
        had <==> old_keys.contains(t),
        had ==> keys == old_keys,
        !had ==> keys == old_keys.push(t),
    ensures
        keys.no_duplicates(),
        forall|k: TypeKey| #[trigger] keys.contains(k) <==> (old_keys.contains(k) || k == t),
{
    if !had {
        assert(keys[old_keys.len() as int] == t);
        assert forall|k: TypeKey| #[trigger] keys.contains(k) <==> (old_keys.contains(k) || k == t) by {
            if old_keys.contains(k) {
                let j = choose|j: int| 0 <= j < old_keys.len() && old_keys[j] == k;
                assert(keys[j] == k);
            }
            if keys.contains(k) && k != t {
                let j = choose|j: int| 0 <= j < keys.len() && keys[j] == k;
                assert(old_keys[j] == k);
            }
        }
    }
}

/// Every offset sum along a path from `base` fits in a `usize`.
pub open spec fn offsets_fit(list: Seq<ExtractionMetadata>, i: int, base: int) -> bool
    decreases list, list.len() - i,
{
    if i < 0 || i >= list.len() {
        true
    } else {
        let e = list[i];
        let at = base + e.rel_offset();
        &&& at <= usize::MAX
        &&& match e {
            ExtractionMetadata::Target { .. } => true,
            ExtractionMetadata::Nested { nested, .. } => offsets_fit(nested@, 0, at),
        }
        &&& offsets_fit(list, i + 1, base)
    }
}

/// Depth-first flattening of `list[i..]` whose positions are relative to
/// `base`, inserted over `acc` in order.
pub open spec fn flat_from(
    list: Seq<ExtractionMetadata>,
    i: int,
    base: int,
    acc: Map<TypeKey, usize>,
) -> Map<TypeKey, usize>
    decreases list, list.len() - i,
{
    if i < 0 || i >= list.len() {
        acc
    } else {
        let e = list[i];
        let at = base + e.rel_offset();
        let acc1 = acc.insert(e.key(), at as usize);
        let acc2 = match e {
            ExtractionMetadata::Target { .. } => acc1,
            ExtractionMetadata::Nested { nested, .. } => flat_from(nested@, 0, at, acc1),
        };
        flat_from(list, i + 1, base, acc2)
    }
}

/// The types that `list[i..]` declares, at any depth.
pub open spec fn reach_from(list: Seq<ExtractionMetadata>, i: int) -> Set<TypeKey>
    decreases list, list.len() - i,
{
    if i < 0 || i >= list.len() {
        Set::empty()
    } else {
        let e = list[i];
        let below = match e {
            ExtractionMetadata::Target { .. } => Set::empty(),
            ExtractionMetadata::Nested { nested, .. } => reach_from(nested@, 0),
        };
        set![e.key()].union(below).union(reach_from(list, i + 1))
    }
}

/// `keys` lists the domain of `m` once each.
pub open spec fn keys_match(m: Map<TypeKey, usize>, keys: Seq<TypeKey>) -> bool {
    &&& keys.no_duplicates()
    &&& forall|k: TypeKey| #[trigger] m.contains_key(k) <==> keys.contains(k)
}

} // verus!
