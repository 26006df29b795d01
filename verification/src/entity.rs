use vstd::prelude::*;

verus! {

/// An opaque identifier for a record in the component store.  Entities carry
/// no intrinsic data; they are compared by value only.
#[derive(Clone, Copy, Debug, PartialEq, Eq, Structural)]
pub struct Entity {
    pub id: u64,
}

/// One match of the secondary query: a relationship component attached to
/// `source` whose single target is `target`.  The secondary query's filter
/// has already been applied, so every `Relation` held by a
/// [`crate::query::FilterQuery`] comes from a qualifying source.
#[derive(Clone, Copy, Debug, PartialEq, Eq, Structural)]
pub struct Relation {
    pub source: Entity,
    pub target: Entity,
}

} // verus!
