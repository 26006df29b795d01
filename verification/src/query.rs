use vstd::prelude::*;

use crate::access::Footprint;
use crate::entity::{Entity, Relation};

verus! {

/// Error from the primary query's point lookup: the entity is not among the
/// query's matches (it is gone, lacks the relationship-target marker, or is
/// rejected by the primary filter).
#[derive(Clone, Copy, Debug, PartialEq, Eq, Structural)]
pub enum QueryEntityError {
    /// The entity is not among the query's matches.
    QueryDoesNotMatch(Entity),
}

/// The item of the first entry of `s` whose entity is `e`, if any.
pub open spec fn spec_lookup<T>(s: Seq<(Entity, T)>, e: Entity) -> Option<T>
    decreases s.len(),
{
    if s.len() == 0 {
        None
    } else if s[0].0 == e {
        Some(s[0].1)
    } else {
        spec_lookup(s.drop_first(), e)
    }
}

/// Some entry of `s` belongs to entity `e`.
pub open spec fn has_entity<T>(s: Seq<(Entity, T)>, e: Entity) -> bool {
    exists|i: int| 0 <= i < s.len() && (#[trigger] s[i]).0 == e
}

/// Some relation of `rels` has `e` as its target.
pub open spec fn is_target(rels: Seq<Relation>, e: Entity) -> bool {
    exists|i: int| 0 <= i < rels.len() && (#[trigger] rels[i]).target == e
}

/// The targets of `rels`, in order.
pub open spec fn spec_targets(rels: Seq<Relation>) -> Seq<Entity> {
    Seq::new(rels.len(), |i: int| rels[i].target)
}

/// The items of `s` for the identifiers of `ids` that are present, in the
/// order of `ids`; absent identifiers are skipped, duplicates are kept.
pub open spec fn spec_many_items<T>(s: Seq<(Entity, T)>, ids: Seq<Entity>) -> Seq<T>
    decreases ids.len(),
{
    if ids.len() == 0 {
        Seq::empty()
    } else {
        let rest = spec_many_items(s, ids.drop_last());
        match spec_lookup(s, ids.last()) {
            Some(item) => rest.push(item),
            None => rest,
        }
    }
}

/// The identifiers of `ids` that are present in `s`, in order, duplicates
/// kept.
pub open spec fn spec_many_ids<T>(s: Seq<(Entity, T)>, ids: Seq<Entity>) -> Seq<Entity>
    decreases ids.len(),
{
    if ids.len() == 0 {
        Seq::empty()
    } else {
        let rest = spec_many_ids(s, ids.drop_last());
        if has_entity(s, ids.last()) {
            rest.push(ids.last())
        } else {
            rest
        }
    }
}

/// A lookup succeeds exactly when some entry belongs to the entity.
pub proof fn lemma_lookup_has<T>(s: Seq<(Entity, T)>, e: Entity)
    ensures
        has_entity(s, e) <==> spec_lookup(s, e) is Some,
    decreases s.len(),
{
    if s.len() == 0 {
    } else if s[0].0 == e {
        assert(has_entity(s, e)) by {
            assert((s[0]).0 == e);
        }
    } else {
        lemma_lookup_has(s.drop_first(), e);
        assert(has_entity(s, e) <==> has_entity(s.drop_first(), e)) by {
            if has_entity(s, e) {
                let j = choose|j: int| 0 <= j < s.len() && (#[trigger] s[j]).0 == e;
                assert(s.drop_first()[j - 1] == s[j]);
            }
            if has_entity(s.drop_first(), e) {
                let j = choose|j: int|
                    0 <= j < s.drop_first().len() && (#[trigger] s.drop_first()[j]).0 == e;
                assert(s[j + 1] == s.drop_first()[j]);
            }
        }
    }
}

/// Entries before position `i` that do not belong to `e` do not change the
/// outcome of a lookup.
proof fn lemma_lookup_skip<T>(s: Seq<(Entity, T)>, e: Entity, i: int)
    requires
        0 <= i <= s.len(),
        forall|j: int| 0 <= j < i ==> (#[trigger] s[j]).0 != e,
    ensures
        spec_lookup(s.skip(i), e) == spec_lookup(s, e),
    decreases i,
{
    if i > 0 {
        lemma_lookup_skip(s, e, i - 1);
        assert(s[i - 1].0 != e);
        assert(s.skip(i - 1).len() == s.len() - (i - 1));
        assert(s.skip(i - 1)[0] == s[i - 1]);
        assert(s.skip(i - 1).drop_first() =~= s.skip(i));
        assert(spec_lookup(s.skip(i - 1), e) == spec_lookup(s.skip(i - 1).drop_first(), e));
    } else {
        assert(s.skip(0) =~= s);
    }
}

/// The primary query of the join for one invocation: every entity that
/// matches the primary filter and carries the relationship-target marker,
/// together with its component data.  The store keeps at most one entry per
/// entity.
pub struct DataQuery<T> {
    entries: Vec<(Entity, T)>,
    footprint: Footprint,
}

impl<T> View for DataQuery<T> {
    type V = Seq<(Entity, T)>;

    closed spec fn view(&self) -> Seq<(Entity, T)> {
        self.entries@
    }
}

impl<T> DataQuery<T> {
    /// The access footprint this query was registered with.
    pub closed spec fn footprint(&self) -> Footprint {
        self.footprint
    }

    /// Well-formed: at most one entry per entity.
    pub open spec fn wf(&self) -> bool {
        forall|i: int, j: int|
            0 <= i < j < self@.len() ==> (#[trigger] self@[i]).0 != (#[trigger] self@[j]).0
    }

    /// The entity is among this query's matches.
    pub open spec fn spec_contains(&self, e: Entity) -> bool {
        has_entity(self@, e)
    }
}

impl<T: Copy> DataQuery<T> {
    /// An empty query handle registered with `footprint`.
    pub fn new(footprint: Footprint) -> (q: DataQuery<T>)
        ensures
            q@ == Seq::<(Entity, T)>::empty(),
            q.wf(),
            q.footprint() == footprint,
    {
        DataQuery { entries: Vec::new(), footprint }
    }

    /// The position of the entry for `e`, if `e` is a match.
    fn find(&self, e: Entity) -> (r: Option<usize>)
        ensures
            r matches Some(i) ==> i < self@.len() && self@[i as int].0 == e && (forall|j: int|
                0 <= j < i ==> (#[trigger] self@[j]).0 != e),
            r is None ==> !self.spec_contains(e),
    {
        let mut i: usize = 0;
        while i < self.entries.len()
            invariant
                0 <= i <= self@.len(),
                forall|j: int| 0 <= j < i ==> (#[trigger] self@[j]).0 != e,
            decreases self@.len() - i,
        {
            if self.entries[i].0 == e {
                return Some(i);
            }
            i = i + 1;
        }
        None
    }

    /// Makes `e` a match of this query with data `item`, replacing the data
    /// already stored for `e` if it was a match before.
    pub fn insert(&mut self, e: Entity, item: T)
        requires
            old(self).wf(),
        ensures
            final(self).wf(),
            final(self).footprint() == old(self).footprint(),
            !old(self).spec_contains(e) ==> final(self)@ == old(self)@.push((e, item)),
            old(self).spec_contains(e) ==> exists|i: int|
                0 <= i < old(self)@.len() && (#[trigger] old(self)@[i]).0 == e && final(self)@
                    == old(self)@.update(i, (e, item)),
    {
        let ghost s = self@;
        match self.find(e) {
            Some(i) => {
                let slot = &mut self.entries[i];
                *slot = (e, item);
                proof {
                    assert(self@ == s.update(i as int, (e, item)));
                    assert(has_entity(s, e)) by {
                        assert(s[i as int].0 == e);
                    }
                    assert forall|k: int, l: int|
                        0 <= k < l < self@.len() implies (#[trigger] self@[k]).0 != (
                    #[trigger] self@[l]).0 by {
                        assert(self@[k].0 == s[k].0);
                        assert(self@[l].0 == s[l].0);
                    }
                }
            },
            None => {
                self.entries.push((e, item));
                proof {
                    assert forall|k: int, l: int|
                        0 <= k < l < self@.len() implies (#[trigger] self@[k]).0 != (
                    #[trigger] self@[l]).0 by {
                        if l == s.len() {
                            assert(self@[k] == s[k]);
                            assert(self@[l].0 == e);
                            assert(s[k].0 != e) by {
                                assert(!has_entity(s, e));
                            }
                        } else {
                            assert(self@[k] == s[k]);
                            assert(self@[l] == s[l]);
                        }
                    }
                }
            },
        }
    }

    /// The primary query's containment check.
    pub fn contains(&self, e: Entity) -> (r: bool)
        ensures
            r == self.spec_contains(e),
    {
        match self.find(e) {
            Some(i) => {
                proof {
                    assert(has_entity(self@, e)) by {
                        assert(self@[i as int].0 == e);
                    }
                }
                true
            },
            None => false,
        }
    }

    /// The primary query's point lookup: the data stored for `e`, or an error
    /// when `e` is not a match.
    pub fn get(&self, e: Entity) -> (r: Result<T, QueryEntityError>)
        ensures
            self.spec_contains(e) ==> (r matches Ok(item) && spec_lookup(self@, e) == Some(item)),
            !self.spec_contains(e) ==> r == Err::<T, QueryEntityError>(
                QueryEntityError::QueryDoesNotMatch(e),
            ),
    {
        match self.find(e) {
            Some(i) => {
                proof {
                    lemma_lookup_skip(self@, e, i as int);
                    assert(self@.skip(i as int)[0] == self@[i as int]);
                    assert(has_entity(self@, e)) by {
                        assert(self@[i as int].0 == e);
                    }
                    assert(spec_lookup(self@, e) == Some(self@[i as int].1));
                }
                Ok(self.entries[i].1)
            },
            None => Err(QueryEntityError::QueryDoesNotMatch(e)),
        }
    }

    /// The primary query's mutable point lookup: a mutable handle on the data
    /// stored for `e`, or an error when `e` is not a match.
    pub fn get_mut(&mut self, e: Entity) -> (r: Result<&mut T, QueryEntityError>)
        requires
            old(self).wf(),
        ensures
            final(self).wf(),
            final(self).footprint() == old(self).footprint(),
            !old(self).spec_contains(e) ==> (r matches Err(err) && err
                == QueryEntityError::QueryDoesNotMatch(e)) && final(self)@ == old(self)@,
            old(self).spec_contains(e) ==> (r matches Ok(item) && spec_lookup(old(self)@, e)
                == Some(*item) && exists|i: int|
                0 <= i < old(self)@.len() && (#[trigger] old(self)@[i]).0 == e && final(self)@
                    == old(self)@.update(i, (e, *final(item)))),
    {
        let ghost s = self@;
        match self.find(e) {
            Some(i) => {
                proof {
                    lemma_lookup_skip(s, e, i as int);
                    assert(s.skip(i as int)[0] == s[i as int]);
                    assert(has_entity(s, e)) by {
                        assert(s[i as int].0 == e);
                    }
                    assert(spec_lookup(s, e) == Some(s[i as int].1));
                }
                let slot = &mut self.entries[i];
                Ok(&mut slot.1)
            },
            None => Err(QueryEntityError::QueryDoesNotMatch(e)),
        }
    }

    /// The primary query's multi-lookup: the data of every identifier of
    /// `ids` that is a match, in the order of `ids`; identifiers that are not
    /// matches are skipped without error.
    pub fn iter_many(&self, ids: &Vec<Entity>) -> (r: Vec<T>)
        ensures
            r@ == spec_many_items(self@, ids@),
    {
        let mut out: Vec<T> = Vec::new();
        let mut i: usize = 0;
        while i < ids.len()
            invariant
                0 <= i <= ids@.len(),
                out@ == spec_many_items(self@, ids@.take(i as int)),
            decreases ids@.len() - i,
        {
            proof {
                lemma_lookup_has(self@, ids@[i as int]);
                assert(ids@.take(i as int + 1).drop_last() =~= ids@.take(i as int));
                assert(ids@.take(i as int + 1).last() == ids@[i as int]);
            }
            match self.get(ids[i]) {
                Ok(item) => out.push(item),
                Err(_) => (),
            }
            i = i + 1;
        }
        assert(ids@.take(ids@.len() as int) =~= ids@);
        out
    }
}

/// The secondary query of the join for one invocation: every relationship
/// component whose source passes the secondary filter, in the store's
/// traversal order.
pub struct FilterQuery {
    matches: Vec<Relation>,
    footprint: Footprint,
}

impl View for FilterQuery {
    type V = Seq<Relation>;

    closed spec fn view(&self) -> Seq<Relation> {
        self.matches@
    }
}

impl FilterQuery {
    /// The access footprint this query was registered with.
    pub closed spec fn footprint(&self) -> Footprint {
        self.footprint
    }

    /// An empty query handle registered with `footprint`.
    pub fn new(footprint: Footprint) -> (q: FilterQuery)
        ensures
            q@ == Seq::<Relation>::empty(),
            q.footprint() == footprint,
    {
        FilterQuery { matches: Vec::new(), footprint }
    }

    /// Adds one qualifying relationship match at the end of the traversal
    /// order.
    pub fn push(&mut self, r: Relation)
        ensures
            final(self)@ == old(self)@.push(r),
            final(self).footprint() == old(self).footprint(),
    {
        self.matches.push(r);
    }

    /// The target entity of every match, in traversal order.
    pub fn targets(&self) -> (r: Vec<Entity>)
        ensures
            r@ == spec_targets(self@),
    {
        let mut out: Vec<Entity> = Vec::new();
        let mut i: usize = 0;
        while i < self.matches.len()
            invariant
                0 <= i <= self@.len(),
                out@.len() == i,
                forall|j: int| 0 <= j < i ==> out@[j] == self@[j].target,
            decreases self@.len() - i,
        {
            out.push(self.matches[i].target);
            i = i + 1;
        }
        assert(out@ =~= spec_targets(self@));
        out
    }
}

} // verus!
