//! Query results: a snapshot of (entity, handle) pairs taken when the query
//! was made, handed out one at a time.
//!
//! The snapshot holds a strong handle per pair, so an entity removed after
//! the query was made is still yielded, and its value stays readable until
//! the handle is given up.

use crate::acquirable::{Acquirable, HandleView};
use crate::entity::EntityId;
use vstd::prelude::*;

verus! {

/// The pairs of a query not yet handed out.
pub struct QueryIter {
    items: Vec<(EntityId, Acquirable)>,
}

impl View for QueryIter {
    type V = Seq<(EntityId, HandleView)>;

    closed spec fn view(&self) -> Seq<(EntityId, HandleView)> {
        self.items@.map_values(|p: (EntityId, Acquirable)| (p.0, p.1@))
    }
}

impl QueryIter {
    pub(crate) fn from_items(items: Vec<(EntityId, Acquirable)>) -> (r: QueryIter)
        ensures
            r@ == items@.map_values(|p: (EntityId, Acquirable)| (p.0, p.1@)),
    {
        QueryIter { items }
    }

    /// The next pair, taken from the end of the snapshot.
    pub fn next(&mut self) -> (r: Option<(EntityId, Acquirable)>)
        ensures
            match r {
                Some(p) => old(self)@.len() > 0 && (p.0, p.1@) == old(self)@.last() && final(self)@
                    == old(self)@.drop_last(),
                None => old(self)@.len() == 0 && final(self)@ == old(self)@,
            },
    {
        let r = self.items.pop();
        proof {
            if old(self)@.len() > 0 {
                assert(self@ =~= old(self)@.drop_last());
            }
        }
        r
    }

    /// The number of pairs not yet handed out.
    pub fn len(&self) -> (r: usize)
        ensures
            r == self@.len(),
    {
        self.items.len()
    }

    pub fn is_empty(&self) -> (r: bool)
        ensures
            r == (self@.len() == 0),
    {
        self.items.len() == 0
    }
}

} // verus!
