use related_query::access::{init_state, ComponentId, Footprint, SystemMeta};
use related_query::entity::{Entity, Relation};
use related_query::related::{Related, RelatedQueryEntityError};

const CHILDREN: u64 = 1;
const CHILD_OF: u64 = 2;
const HEAD: u64 = 3;
const FANGS: u64 = 4;

fn footprint(reads: &[u64], writes: &[u64]) -> Footprint {
    Footprint {
        reads: reads.iter().map(|&id| ComponentId { id }).collect(),
        writes: writes.iter().map(|&id| ComponentId { id }).collect(),
    }
}

fn entity(id: u64) -> Entity {
    Entity { id }
}

/// Builds a fresh accessor for one invocation: the primary query matches
/// every parent (item: the entity itself), the secondary query holds one
/// child-to-parent relation per child whose components pass `f2`.
fn related_accessor(
    parents: &[u64],
    children: &[(u64, u64, bool, bool)],
    f2: impl Fn(bool, bool) -> bool,
) -> Related<Entity> {
    let mut meta = SystemMeta { declared: footprint(&[], &[]) };
    let (mut dq, mut fq, token) = init_state::<Entity>(
        &mut meta,
        footprint(&[CHILDREN], &[]),
        footprint(&[CHILD_OF, HEAD, FANGS], &[]),
    )
    .unwrap();
    for &p in parents {
        dq.insert(entity(p), entity(p));
    }
    for &(c, p, head, fangs) in children {
        if f2(head, fangs) {
            fq.push(Relation { source: entity(c), target: entity(p) });
        }
    }
    Related::get_param(dq, fq, &token)
}

fn my_with_head(parents: &[u64], children: &[(u64, u64, bool, bool)]) -> usize {
    related_accessor(parents, children, |head, _| head).iter().len()
}

fn with_head(parents: &[u64], children: &[(u64, u64, bool, bool)]) -> usize {
    parents.iter().fold(0, |acc, &e| {
        if children.iter().filter(|c| c.2).map(|c| c.1).any(|p| p == e) {
            acc + 1
        } else {
            acc
        }
    })
}

fn my_with_head_and_fangs(parents: &[u64], children: &[(u64, u64, bool, bool)]) -> usize {
    related_accessor(parents, children, |head, fangs| head && fangs).iter().len()
}

fn with_head_and_fangs(parents: &[u64], children: &[(u64, u64, bool, bool)]) -> usize {
    parents.iter().fold(0, |acc, &e| {
        if children.iter().filter(|c| c.2 && c.3).map(|c| c.1).any(|p| p == e) {
            acc + 1
        } else {
            acc
        }
    })
}

fn my_with_head_and_without_fangs(parents: &[u64], children: &[(u64, u64, bool, bool)]) -> usize {
    related_accessor(parents, children, |head, fangs| head && !fangs).iter().len()
}

fn with_head_and_without_fangs(parents: &[u64], children: &[(u64, u64, bool, bool)]) -> usize {
    parents.iter().fold(0, |acc, &e| {
        if children.iter().filter(|c| c.2 && !c.3).map(|c| c.1).any(|p| p == e) {
            acc + 1
        } else {
            acc
        }
    })
}

#[test]
fn world_test() {
    let mut parents: Vec<u64> = Vec::new();
    let mut children: Vec<(u64, u64, bool, bool)> = Vec::new();

    let orc = 1u64;
    let human = 3u64;
    let wolf = 5u64;
    parents.push(orc);
    children.push((2, orc, true, true));
    parents.push(human);
    children.push((4, human, true, false));
    parents.push(wolf);
    children.push((6, wolf, true, true));

    assert_eq!(with_head(&parents, &children), my_with_head(&parents, &children));
    assert_eq!(
        with_head_and_fangs(&parents, &children),
        my_with_head_and_fangs(&parents, &children)
    );
    assert_eq!(
        with_head_and_without_fangs(&parents, &children),
        my_with_head_and_without_fangs(&parents, &children)
    );

    let wolf2 = 7u64;
    parents.push(wolf2);
    children.push((8, wolf2, true, true));

    assert_eq!(with_head(&parents, &children), my_with_head(&parents, &children));
    assert_eq!(
        with_head_and_fangs(&parents, &children),
        my_with_head_and_fangs(&parents, &children)
    );
    assert_eq!(
        with_head_and_without_fangs(&parents, &children),
        my_with_head_and_without_fangs(&parents, &children)
    );
}

/// Builds an accessor directly from populated queries, reusing one token.
fn build(entries: &[(u64, u64)], relations: &[(u64, u64)]) -> Related<u64> {
    let mut meta = SystemMeta { declared: footprint(&[], &[]) };
    let (mut dq, mut fq, token) = init_state::<u64>(
        &mut meta,
        footprint(&[CHILDREN], &[]),
        footprint(&[CHILD_OF, HEAD], &[]),
    )
    .unwrap();
    for &(e, item) in entries {
        dq.insert(entity(e), item);
    }
    for &(source, target) in relations {
        fq.push(Relation { source: entity(source), target: entity(target) });
    }
    Related::get_param(dq, fq, &token)
}

#[test]
fn scenario_one_source() {
    // X carries the marker and passes the primary filter; S is a qualifying
    // source pointing at X; Y has no relationship pointing at it.
    let x = 10u64;
    let s = 20u64;
    let y = 30u64;
    let rel = build(&[(x, 100), (y, 300)], &[(s, x)]);
    assert!(rel.contains(entity(x)));
    assert!(!rel.contains(entity(y)));
    assert_eq!(rel.iter().len(), 1);
    assert_eq!(rel.iter(), vec![100]);
}

#[test]
fn scenario_duplicate_targets() {
    // Two qualifying sources point at the same target: the read-only pass
    // yields the target twice; the mutable pass deduplicates and yields the
    // member exactly once.
    let x = 10u64;
    let rel = build(&[(x, 100)], &[(21, x), (22, x)]);
    assert_eq!(rel.iter().len(), 2);
    assert_eq!(rel.iter(), vec![100, 100]);
    let handles = rel.iter_mut();
    assert_eq!(handles.len(), 1);
    assert_eq!(handles, vec![(entity(x), 100)]);
}

#[test]
fn scenario_target_fails_primary_filter() {
    // S points at X, but X is not a primary match: membership fails even
    // though the relationship condition holds.
    let x = 10u64;
    let other = 40u64;
    let rel = build(&[(other, 400)], &[(21, x)]);
    assert!(!rel.contains(entity(x)));
    assert_eq!(
        rel.get(entity(x)),
        Err(RelatedQueryEntityError::RelationshipTargetEntityError(entity(x)))
    );
}

#[test]
fn scenario_relation_removed_between_calls() {
    // The accessor is rebuilt from the live queries each invocation, so
    // removing the relationship flips membership with no stale result.
    let x = 10u64;
    let s = 21u64;
    let before = build(&[(x, 100)], &[(s, x)]);
    assert!(before.contains(entity(x)));
    let after = build(&[(x, 100)], &[]);
    assert!(!after.contains(entity(x)));
    assert_eq!(after.iter().len(), 0);
}

#[test]
fn iter_idempotent() {
    let rel = build(&[(1, 11), (2, 22), (3, 33)], &[(9, 2), (8, 1), (7, 2)]);
    assert_eq!(rel.iter(), rel.iter());
    assert_eq!(rel.iter(), vec![22, 11, 22]);
}

#[test]
fn iter_keeps_traversal_order_and_duplicates() {
    let a = 1u64;
    let b = 2u64;
    let rel = build(&[(a, 10), (b, 20)], &[(91, a), (92, b), (93, a)]);
    assert_eq!(rel.iter(), vec![10, 20, 10]);
    assert_eq!(rel.iter_mut(), vec![(entity(a), 10), (entity(b), 20)]);
}

#[test]
fn get_returns_member_item() {
    let x = 10u64;
    let rel = build(&[(x, 100)], &[(21, x)]);
    assert_eq!(rel.get(entity(x)), Ok(100));
}

#[test]
fn get_membership_error_for_unrelated_entity() {
    let x = 10u64;
    let y = 30u64;
    let rel = build(&[(x, 100), (y, 300)], &[(21, x)]);
    assert_eq!(
        rel.get(entity(y)),
        Err(RelatedQueryEntityError::RelationshipTargetEntityError(entity(y)))
    );
}

#[test]
fn get_mut_writes_through() {
    let x = 10u64;
    let mut rel = build(&[(x, 100)], &[(21, x)]);
    match rel.get_mut(entity(x)) {
        Ok(item) => *item = 999,
        Err(err) => panic!("expected a member, got {:?}", err),
    }
    assert_eq!(rel.get(entity(x)), Ok(999));
}

#[test]
fn get_mut_membership_error_for_unrelated_entity() {
    let x = 10u64;
    let mut rel = build(&[(x, 100)], &[]);
    match rel.get_mut(entity(x)) {
        Ok(_) => panic!("expected the membership error"),
        Err(err) => assert_eq!(
            err,
            RelatedQueryEntityError::RelationshipTargetEntityError(entity(x))
        ),
    }
}

#[test]
fn mutable_pass_updates_each_member_once() {
    let a = 1u64;
    let b = 2u64;
    let mut rel = build(&[(a, 10), (b, 20)], &[(91, a), (92, a), (93, b)]);
    let handles = rel.iter_mut();
    assert_eq!(handles, vec![(entity(a), 10), (entity(b), 20)]);
    for (e, item) in handles {
        match rel.get_mut(e) {
            Ok(slot) => *slot = item + 1,
            Err(err) => panic!("expected a member, got {:?}", err),
        }
    }
    assert_eq!(rel.iter(), vec![11, 11, 21]);
}
