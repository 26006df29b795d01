use related_query::access::{init_state, AccessConflictError, ComponentId, Footprint, SystemMeta};

fn footprint(reads: &[u64], writes: &[u64]) -> Footprint {
    Footprint {
        reads: reads.iter().map(|&id| ComponentId { id }).collect(),
        writes: writes.iter().map(|&id| ComponentId { id }).collect(),
    }
}

fn empty_meta() -> SystemMeta {
    SystemMeta { declared: footprint(&[], &[]) }
}

fn ids(raw: &[u64]) -> Vec<ComponentId> {
    raw.iter().map(|&id| ComponentId { id }).collect()
}

#[test]
fn registers_both_footprints_in_full() {
    let mut meta = empty_meta();
    let r = init_state::<u64>(&mut meta, footprint(&[1, 2], &[3]), footprint(&[4], &[]));
    assert!(r.is_ok());
    assert_eq!(meta.declared.reads, ids(&[1, 2, 4]));
    assert_eq!(meta.declared.writes, ids(&[3]));
}

#[test]
fn shared_reads_do_not_conflict() {
    let mut meta = empty_meta();
    let first = init_state::<u64>(&mut meta, footprint(&[1, 2], &[]), footprint(&[2, 3], &[]));
    assert!(first.is_ok());
    let second = init_state::<u64>(&mut meta, footprint(&[1, 3], &[]), footprint(&[2], &[]));
    assert!(second.is_ok());
    assert_eq!(meta.declared.reads, ids(&[1, 2, 2, 3, 1, 3, 2]));
    assert_eq!(meta.declared.writes, ids(&[]));
}

#[test]
fn conflict_with_earlier_declaration() {
    let mut meta = empty_meta();
    let first = init_state::<u64>(&mut meta, footprint(&[], &[5]), footprint(&[6], &[]));
    assert!(first.is_ok());
    let reads_before = meta.declared.reads.clone();
    let writes_before = meta.declared.writes.clone();
    let second = init_state::<u64>(&mut meta, footprint(&[5], &[]), footprint(&[7], &[]));
    assert_eq!(second.err(), Some(AccessConflictError { component: ComponentId { id: 5 } }));
    assert_eq!(meta.declared.reads, reads_before);
    assert_eq!(meta.declared.writes, writes_before);
}

#[test]
fn conflict_between_the_two_queries() {
    let mut meta = empty_meta();
    let r = init_state::<u64>(&mut meta, footprint(&[], &[7]), footprint(&[7], &[]));
    assert_eq!(r.err(), Some(AccessConflictError { component: ComponentId { id: 7 } }));
    assert!(meta.declared.reads.is_empty());
    assert!(meta.declared.writes.is_empty());
}

#[test]
fn write_write_conflict() {
    let mut meta = empty_meta();
    let r = init_state::<u64>(&mut meta, footprint(&[], &[9]), footprint(&[], &[9]));
    assert_eq!(r.err(), Some(AccessConflictError { component: ComponentId { id: 9 } }));
}
