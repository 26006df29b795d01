use vstd::prelude::*;

use crate::access::AccessToken;
use crate::entity::{Entity, Relation};
use crate::query::{
    has_entity, is_target, lemma_lookup_has, spec_lookup, spec_many_ids, spec_many_items,
    spec_targets, DataQuery, FilterQuery, QueryEntityError,
};

verus! {

/// An error from retrieving one entity's item through [`Related`].
#[derive(Clone, Copy, Debug, PartialEq, Eq, Structural)]
pub enum RelatedQueryEntityError {
    /// The entity is a member of the relationship-filtered set, but the
    /// primary query's own point lookup failed; wraps that failure.
    RelationshipEntityError(QueryEntityError),
    /// The entity is not a member of the relationship-filtered set: no
    /// qualifying relationship targets it, or the primary query rejects it.
    RelationshipTargetEntityError(Entity),
}

/// The entities of the entries of `s`, in order.
pub open spec fn spec_fsts<T>(s: Seq<(Entity, T)>) -> Seq<Entity> {
    Seq::new(s.len(), |i: int| s[i].0)
}

/// `ids` with every repeated identifier removed, keeping first occurrences in
/// their original order.
pub open spec fn first_occurrences(ids: Seq<Entity>) -> Seq<Entity>
    decreases ids.len(),
{
    if ids.len() == 0 {
        Seq::empty()
    } else {
        let rest = first_occurrences(ids.drop_last());
        if rest.contains(ids.last()) {
            rest
        } else {
            rest.push(ids.last())
        }
    }
}

proof fn lemma_contains_split(ids: Seq<Entity>, e: Entity)
    requires
        ids.len() > 0,
    ensures
        ids.contains(e) <==> (ids.drop_last().contains(e) || ids.last() == e),
{
    if ids.contains(e) {
        let i = choose|i: int| 0 <= i < ids.len() && ids[i] == e;
        if i < ids.len() - 1 {
            assert(ids.drop_last()[i] == e);
        }
    }
    if ids.drop_last().contains(e) {
        let i = choose|i: int| 0 <= i < ids.drop_last().len() && ids.drop_last()[i] == e;
        assert(ids[i] == e);
    }
    if ids.last() == e {
        assert(ids[ids.len() - 1] == e);
    }
}

/// Removing repetitions yields pairwise-distinct identifiers and keeps
/// exactly the identifiers that were present.
pub proof fn lemma_first_occurrences(ids: Seq<Entity>)
    ensures
        forall|i: int, j: int|
            0 <= i < j < first_occurrences(ids).len() ==> first_occurrences(ids)[i]
                != first_occurrences(ids)[j],
        forall|e: Entity| first_occurrences(ids).contains(e) <==> ids.contains(e),
    decreases ids.len(),
{
    if ids.len() == 0 {
    } else {
        let dl = ids.drop_last();
        let rest = first_occurrences(dl);
        lemma_first_occurrences(dl);
        assert forall|e: Entity| ids.contains(e) <==> dl.contains(e) || ids.last() == e by {
            lemma_contains_split(ids, e);
        }
        if !rest.contains(ids.last()) {
            let fo = rest.push(ids.last());
            assert(fo.drop_last() =~= rest);
            assert forall|i: int, j: int| 0 <= i < j < fo.len() implies fo[i] != fo[j] by {
                if j == fo.len() - 1 {
                    assert(fo[j] == ids.last());
                    assert(fo[i] == rest[i]);
                    assert(!rest.contains(ids.last()));
                    assert(rest[i] != ids.last()) by {
                        if rest[i] == ids.last() {
                            assert(rest.contains(ids.last()));
                        }
                    }
                } else {
                    assert(fo[i] == rest[i] && fo[j] == rest[j]);
                }
            }
            assert forall|e: Entity| fo.contains(e) <==> rest.contains(e) || ids.last() == e by {
                lemma_contains_split(fo, e);
            }
        }
    }
}

proof fn lemma_many_ids_membership<T>(s: Seq<(Entity, T)>, ids: Seq<Entity>, e: Entity)
    ensures
        spec_many_ids(s, ids).contains(e) <==> (ids.contains(e) && has_entity(s, e)),
    decreases ids.len(),
{
    if ids.len() == 0 {
    } else {
        let dl = ids.drop_last();
        let rest = spec_many_ids(s, dl);
        lemma_many_ids_membership(s, dl, e);
        lemma_contains_split(ids, e);
        if has_entity(s, ids.last()) {
            let q1 = rest.push(ids.last());
            assert(q1.drop_last() =~= rest);
            lemma_contains_split(q1, e);
        }
    }
}

proof fn lemma_targets_membership(rels: Seq<Relation>, e: Entity)
    ensures
        spec_targets(rels).contains(e) <==> is_target(rels, e),
{
    if spec_targets(rels).contains(e) {
        let i = choose|i: int| 0 <= i < spec_targets(rels).len() && spec_targets(rels)[i] == e;
        assert(rels[i].target == e);
    }
    if is_target(rels, e) {
        let i = choose|i: int| 0 <= i < rels.len() && (#[trigger] rels[i]).target == e;
        assert(spec_targets(rels)[i] == e);
    }
}

/// The number of identifiers of `ids` that are present in `s`, duplicates
/// counted.
pub open spec fn count_present<T>(s: Seq<(Entity, T)>, ids: Seq<Entity>) -> nat
    decreases ids.len(),
{
    if ids.len() == 0 {
        0
    } else if has_entity(s, ids.last()) {
        count_present(s, ids.drop_last()) + 1
    } else {
        count_present(s, ids.drop_last())
    }
}

proof fn lemma_many_items_count<T>(s: Seq<(Entity, T)>, ids: Seq<Entity>)
    ensures
        spec_many_items(s, ids).len() == count_present(s, ids),
    decreases ids.len(),
{
    if ids.len() > 0 {
        lemma_many_items_count(s, ids.drop_last());
        lemma_lookup_has(s, ids.last());
    }
}

fn holds_entity<T: Copy>(v: &Vec<(Entity, T)>, e: Entity) -> (r: bool)
    ensures
        r == has_entity(v@, e),
{
    let mut i: usize = 0;
    while i < v.len()
        invariant
            0 <= i <= v@.len(),
            forall|j: int| 0 <= j < i ==> (#[trigger] v@[j]).0 != e,
        decreases v@.len() - i,
    {
        if v[i].0 == e {
            assert(has_entity(v@, e)) by {
                assert(v@[i as int].0 == e);
            }
            return true;
        }
        i = i + 1;
    }
    false
}

/// A request-scoped accessor that joins a primary query (entities matching
/// the primary filter and carrying the relationship-target marker, with
/// their data) with a secondary query (relationship components on sources
/// matching the secondary filter), and exposes exactly the primary entities
/// targeted by at least one qualifying relationship.
pub struct Related<T> {
    data_query: DataQuery<T>,
    filter_query: FilterQuery,
}

impl<T> Related<T> {
    /// The primary query's matches: entity and data of every entry.
    pub closed spec fn data(&self) -> Seq<(Entity, T)> {
        self.data_query@
    }

    /// The secondary query's matches, in traversal order.
    pub closed spec fn rels(&self) -> Seq<Relation> {
        self.filter_query@
    }

    /// Well-formed: the primary query keeps at most one entry per entity.
    pub open spec fn wf(&self) -> bool {
        forall|i: int, j: int|
            0 <= i < j < self.data().len() ==> (#[trigger] self.data()[i]).0 != (
            #[trigger] self.data()[j]).0
    }

    /// Membership in the relationship-filtered set: some qualifying
    /// relationship targets `e`, and `e` is independently a primary match.
    pub open spec fn spec_contains(&self, e: Entity) -> bool {
        is_target(self.rels(), e) && has_entity(self.data(), e)
    }

    /// What one read-only pass yields: the data of each secondary match's
    /// target that is a primary match, in traversal order, duplicates kept.
    pub open spec fn joined(&self) -> Seq<T> {
        spec_many_items(self.data(), spec_targets(self.rels()))
    }

    /// The target entities of the qualifying secondary matches, in traversal
    /// order, duplicates kept.
    pub open spec fn joined_targets(&self) -> Seq<Entity> {
        spec_many_ids(self.data(), spec_targets(self.rels()))
    }

    /// The identifiers a mutable pass hands out: the joined targets with
    /// repetitions removed, first occurrences kept in order.
    pub open spec fn mut_targets(&self) -> Seq<Entity> {
        first_occurrences(self.joined_targets())
    }
}

/// Membership holds exactly when some secondary match targets `e` and the
/// primary query's own lookup on `e` succeeds; both conditions are required.
pub proof fn lemma_contains_characterization<T>(q: Related<T>, e: Entity)
    ensures
        q.spec_contains(e) <==> ((exists|i: int|
            0 <= i < q.rels().len() && (#[trigger] q.rels()[i]).target == e) && spec_lookup(
            q.data(),
            e,
        ) is Some),
{
    lemma_lookup_has(q.data(), e);
}

/// One read-only pass yields one item for every secondary match whose target
/// is a primary match: duplicates are counted, non-members are excluded.
pub proof fn lemma_iter_count<T>(q: Related<T>)
    ensures
        q.joined().len() == count_present(q.data(), spec_targets(q.rels())),
{
    lemma_many_items_count(q.data(), spec_targets(q.rels()));
}

/// The mutable pass hands out exactly the members of the
/// relationship-filtered set: an entity is among the identifiers that
/// `iter_mut` yields if and only if `contains` holds of it.
pub proof fn lemma_mut_pass_covers_members<T>(q: Related<T>, e: Entity)
    ensures
        q.mut_targets().contains(e) <==> q.spec_contains(e),
{
    lemma_first_occurrences(q.joined_targets());
    lemma_many_ids_membership(q.data(), spec_targets(q.rels()), e);
    lemma_targets_membership(q.rels(), e);
}

/// Two read-only passes over the same accessor, with no store mutation in
/// between, yield identical sequences in identical order.
pub proof fn lemma_iter_idempotent<T>(q: Related<T>, r1: Seq<T>, r2: Seq<T>)
    requires
        r1 == q.joined(),
        r2 == q.joined(),
    ensures
        r1 == r2,
{
}

impl<T: Copy> Related<T> {
    /// Builds the per-invocation accessor from the two live query handles.
    /// The token witnesses that both queries' footprints were declared in
    /// full to the conflict checker when the unit of work was constructed.
    pub fn get_param(data_query: DataQuery<T>, filter_query: FilterQuery, token: &AccessToken) -> (r:
        Related<T>)
        requires
            data_query.wf(),
            token.primary() == data_query.footprint(),
            token.secondary() == filter_query.footprint(),
        ensures
            r.wf(),
            r.data() == data_query@,
            r.rels() == filter_query@,
    {
        Related { data_query, filter_query }
    }

    /// One read-only pass over the joined items: for each secondary match in
    /// traversal order, the data of its target if the target is a primary
    /// match; targets that are not primary matches are skipped without
    /// error, and a target referenced by several qualifying sources appears
    /// once per source.
    pub fn iter(&self) -> (r: Vec<T>)
        ensures
            r@ == self.joined(),
    {
        self.data_query.iter_many(&self.filter_query.targets())
    }

    /// Returns whether `entity` is a member of the relationship-filtered
    /// set: some qualifying relationship must target it, and the primary
    /// query's containment check must succeed as well.
    pub fn contains(&self, entity: Entity) -> (r: bool)
        ensures
            r == self.spec_contains(entity),
    {
        let targets = self.filter_query.targets();
        let mut i: usize = 0;
        while i < targets.len()
            invariant
                0 <= i <= targets@.len(),
                targets@ == spec_targets(self.rels()),
                forall|j: int| 0 <= j < i ==> targets@[j] != entity,
            decreases targets@.len() - i,
        {
            if targets[i] == entity {
                proof {
                    assert(is_target(self.rels(), entity)) by {
                        assert(self.rels()[i as int].target == entity);
                    }
                }
                return self.data_query.contains(entity);
            }
            i = i + 1;
        }
        proof {
            assert(!is_target(self.rels(), entity)) by {
                assert forall|j: int|
                    0 <= j < self.rels().len() implies (#[trigger] self.rels()[j]).target
                    != entity by {
                    assert(targets@[j] != entity);
                }
            }
        }
        false
    }

    /// The read-only item for `entity`.  Fails with the
    /// relationship-membership error when `entity` is not a member of the
    /// relationship-filtered set; otherwise returns what the primary query's
    /// point lookup returns, wrapping its failure if it fails.
    pub fn get(&self, entity: Entity) -> (r: Result<T, RelatedQueryEntityError>)
        ensures
            self.spec_contains(entity) ==> (r matches Ok(item) && spec_lookup(self.data(), entity)
                == Some(item)),
            !self.spec_contains(entity) ==> r == Err::<T, RelatedQueryEntityError>(
                RelatedQueryEntityError::RelationshipTargetEntityError(entity),
            ),
    {
        if self.contains(entity) {
            match self.data_query.get(entity) {
                Ok(item) => Ok(item),
                Err(err) => Err(RelatedQueryEntityError::RelationshipEntityError(err)),
            }
        } else {
            Err(RelatedQueryEntityError::RelationshipTargetEntityError(entity))
        }
    }

    /// One mutable pass over the joined set.  Two qualifying sources may
    /// reference the same target, and two aliasing mutable handles must
    /// never be given out, so the pass removes repetitions: each member
    /// entity is yielded exactly once, paired with a copy of its current
    /// item, in the order of its first qualifying match.  Writes then flow
    /// through [`Related::get_mut`], one member at a time.
    pub fn iter_mut(&self) -> (r: Vec<(Entity, T)>)
        ensures
            spec_fsts(r@) == self.mut_targets(),
            forall|j: int|
                0 <= j < r@.len() ==> spec_lookup(self.data(), (#[trigger] r@[j]).0) == Some(
                    r@[j].1,
                ),
            forall|i: int, j: int| 0 <= i < j < r@.len() ==> r@[i].0 != r@[j].0,
    {
        let targets = self.filter_query.targets();
        let mut out: Vec<(Entity, T)> = Vec::new();
        proof {
            assert(targets@.take(0) =~= Seq::<Entity>::empty());
            assert(spec_fsts(out@) =~= Seq::<Entity>::empty());
            assert(first_occurrences(spec_many_ids(self.data(), targets@.take(0))) =~= Seq::<
                Entity,
            >::empty());
        }
        let mut i: usize = 0;
        while i < targets.len()
            invariant
                0 <= i <= targets@.len(),
                targets@ == spec_targets(self.rels()),
                spec_fsts(out@) == first_occurrences(
                    spec_many_ids(self.data(), targets@.take(i as int)),
                ),
                forall|j: int|
                    0 <= j < out@.len() ==> spec_lookup(self.data(), (#[trigger] out@[j]).0)
                        == Some(out@[j].1),
            decreases targets@.len() - i,
        {
            let e = targets[i];
            let ghost q = spec_many_ids(self.data(), targets@.take(i as int));
            let ghost q1 = spec_many_ids(self.data(), targets@.take(i as int + 1));
            proof {
                assert(targets@.take(i as int + 1).drop_last() =~= targets@.take(i as int));
                assert(targets@.take(i as int + 1).last() == e);
                lemma_lookup_has(self.data(), e);
            }
            match self.data_query.get(e) {
                Ok(item) => {
                    proof {
                        assert(q1 == q.push(e));
                        assert(q1.drop_last() =~= q);
                        assert(q1.last() == e);
                    }
                    if holds_entity(&out, e) {
                        proof {
                            assert(first_occurrences(q).contains(e)) by {
                                let j = choose|j: int|
                                    0 <= j < out@.len() && (#[trigger] out@[j]).0 == e;
                                assert(spec_fsts(out@)[j] == e);
                            }
                            assert(first_occurrences(q1) == first_occurrences(q));
                        }
                    } else {
                        let ghost out0 = out@;
                        out.push((e, item));
                        proof {
                            assert(!first_occurrences(q).contains(e)) by {
                                if first_occurrences(q).contains(e) {
                                    let j = choose|j: int|
                                        0 <= j < first_occurrences(q).len() && first_occurrences(
                                            q,
                                        )[j] == e;
                                    assert(spec_fsts(out0)[j] == e);
                                    assert(out0[j].0 == e);
                                    assert(has_entity(out0, e));
                                }
                            }
                            assert(first_occurrences(q1) == first_occurrences(q).push(e));
                            assert(spec_fsts(out@) =~= spec_fsts(out0).push(e));
                        }
                    }
                },
                Err(_) => {
                    proof {
                        assert(q1 == q);
                    }
                },
            }
            i = i + 1;
        }
        proof {
            assert(targets@.take(targets@.len() as int) =~= targets@);
            lemma_first_occurrences(self.joined_targets());
            assert forall|i: int, j: int| 0 <= i < j < out@.len() implies out@[i].0 != out@[j].0 by {
                assert(spec_fsts(out@)[i] == out@[i].0);
                assert(spec_fsts(out@)[j] == out@[j].0);
            }
        }
        out
    }

    /// The mutable item handle for `entity`, under the same membership
    /// contract as [`Related::get`].
    pub fn get_mut(&mut self, entity: Entity) -> (r: Result<
        &mut T,
        RelatedQueryEntityError,
    >)
        requires
            old(self).wf(),
        ensures
            final(self).wf(),
            final(self).rels() == old(self).rels(),
            !old(self).spec_contains(entity) ==> ((r matches Err(err) && err
                == RelatedQueryEntityError::RelationshipTargetEntityError(entity))
                && final(self).data() == old(self).data()),
            old(self).spec_contains(entity) ==> (r matches Ok(item) && spec_lookup(
                old(self).data(),
                entity,
            ) == Some(*item) && exists|i: int|
                0 <= i < old(self).data().len() && (#[trigger] old(self).data()[i]).0 == entity
                    && final(self).data() == old(self).data().update(i, (entity, *final(item)))),
    {
        if self.contains(entity) {
            match self.data_query.get_mut(entity) {
                Ok(item) => Ok(item),
                Err(err) => Err(RelatedQueryEntityError::RelationshipEntityError(err)),
            }
        } else {
            Err(RelatedQueryEntityError::RelationshipTargetEntityError(entity))
        }
    }
}

} // verus!
