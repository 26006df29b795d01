use related_query::access::{ComponentId, Footprint};
use related_query::entity::{Entity, Relation};
use related_query::query::{DataQuery, FilterQuery, QueryEntityError};

fn footprint(reads: &[u64]) -> Footprint {
    Footprint { reads: reads.iter().map(|&id| ComponentId { id }).collect(), writes: Vec::new() }
}

fn entity(id: u64) -> Entity {
    Entity { id }
}

#[test]
fn point_lookup_misses_with_typed_error() {
    let mut q: DataQuery<u64> = DataQuery::new(footprint(&[1]));
    q.insert(entity(1), 10);
    assert_eq!(q.get(entity(1)), Ok(10));
    assert_eq!(q.get(entity(2)), Err(QueryEntityError::QueryDoesNotMatch(entity(2))));
    assert!(q.contains(entity(1)));
    assert!(!q.contains(entity(2)));
}

#[test]
fn insert_replaces_existing_entry() {
    let mut q: DataQuery<u64> = DataQuery::new(footprint(&[1]));
    q.insert(entity(1), 10);
    q.insert(entity(2), 20);
    q.insert(entity(1), 11);
    assert_eq!(q.get(entity(1)), Ok(11));
    assert_eq!(q.get(entity(2)), Ok(20));
    assert_eq!(q.iter_many(&vec![entity(1), entity(2)]).len(), 2);
}

#[test]
fn multi_lookup_skips_absent_and_keeps_order() {
    let mut q: DataQuery<u64> = DataQuery::new(footprint(&[1]));
    q.insert(entity(1), 10);
    q.insert(entity(2), 20);
    let items = q.iter_many(&vec![entity(2), entity(9), entity(1), entity(2)]);
    assert_eq!(items, vec![20, 10, 20]);
}

#[test]
fn targets_follow_traversal_order() {
    let mut q = FilterQuery::new(footprint(&[2]));
    q.push(Relation { source: entity(5), target: entity(1) });
    q.push(Relation { source: entity(6), target: entity(3) });
    q.push(Relation { source: entity(7), target: entity(1) });
    assert_eq!(q.targets(), vec![entity(1), entity(3), entity(1)]);
}

#[test]
fn mutable_lookup_writes_through() {
    let mut q: DataQuery<u64> = DataQuery::new(footprint(&[1]));
    q.insert(entity(1), 10);
    match q.get_mut(entity(1)) {
        Ok(item) => *item = 42,
        Err(err) => panic!("expected a match, got {:?}", err),
    }
    assert_eq!(q.get(entity(1)), Ok(42));
    match q.get_mut(entity(9)) {
        Ok(_) => panic!("expected a miss"),
        Err(err) => assert_eq!(err, QueryEntityError::QueryDoesNotMatch(entity(9))),
    }
}
