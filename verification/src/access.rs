use vstd::prelude::*;

use crate::entity::{Entity, Relation};
use crate::query::{DataQuery, FilterQuery};

verus! {

/// Identifier of one component type in the store's schema.  The conflict
/// checker reasons about access at the granularity of component types.
#[derive(Clone, Copy, Debug, PartialEq, Eq, Structural)]
pub struct ComponentId {
    pub id: u64,
}

/// The data-access footprint of one query: which component types it reads and
/// which it writes.  A component read through the relationship-target marker
/// or a filter counts as a read just like data access does.
#[derive(Debug)]
pub struct Footprint {
    pub reads: Vec<ComponentId>,
    pub writes: Vec<ComponentId>,
}

/// Two footprints conflict on component `c` when one writes `c` while the
/// other reads or writes it.
pub open spec fn conflicts_on(a: Footprint, b: Footprint, c: ComponentId) -> bool {
    ||| (a.writes@.contains(c) && (b.reads@.contains(c) || b.writes@.contains(c)))
    ||| (b.writes@.contains(c) && (a.reads@.contains(c) || a.writes@.contains(c)))
}

/// Two footprints conflict when they conflict on some component.
pub open spec fn spec_conflicts(a: Footprint, b: Footprint) -> bool {
    exists|c: ComponentId| conflicts_on(a, b, c)
}

/// `decl` covers `fp` when every access of `fp` is declared in `decl` at the
/// same or higher level: reads may be declared as reads or writes, writes
/// must be declared as writes.
pub open spec fn spec_covers(decl: Footprint, fp: Footprint) -> bool {
    &&& forall|i: int|
        0 <= i < fp.reads@.len() ==> decl.reads@.contains(#[trigger] fp.reads@[i])
            || decl.writes@.contains(fp.reads@[i])
    &&& forall|i: int| 0 <= i < fp.writes@.len() ==> decl.writes@.contains(#[trigger] fp.writes@[i])
}

/// The accumulated access declaration of one unit of work, consumed by the
/// external conflict checker before the unit of work is scheduled.
#[derive(Debug)]
pub struct SystemMeta {
    pub declared: Footprint,
}

/// Rejection raised at construction time: the combined declaration would let
/// two accessors touch `component` with at least one of them writing.
#[derive(Clone, Copy, Debug, PartialEq, Eq, Structural)]
pub struct AccessConflictError {
    pub component: ComponentId,
}

fn has_component(v: &Vec<ComponentId>, c: ComponentId) -> (r: bool)
    ensures
        r == v@.contains(c),
{
    let mut i: usize = 0;
    while i < v.len()
        invariant
            0 <= i <= v@.len(),
            forall|j: int| 0 <= j < i ==> v@[j] != c,
        decreases v@.len() - i,
    {
        if v[i] == c {
            assert(v@.contains(c)) by {
                assert(v@[i as int] == c);
            }
            return true;
        }
        i = i + 1;
    }
    false
}

/// Finds a component on which `a` and `b` conflict, if one exists.
fn conflict_witness(a: &Footprint, b: &Footprint) -> (r: Option<ComponentId>)
    ensures
        r is Some <==> spec_conflicts(*a, *b),
        r matches Some(c) ==> conflicts_on(*a, *b, c),
{
    let mut i: usize = 0;
    while i < a.writes.len()
        invariant
            0 <= i <= a.writes@.len(),
            forall|j: int|
                0 <= j < i ==> !b.reads@.contains(#[trigger] a.writes@[j]) && !b.writes@.contains(
                    a.writes@[j],
                ),
        decreases a.writes@.len() - i,
    {
        let c = a.writes[i];
        if has_component(&b.reads, c) || has_component(&b.writes, c) {
            proof {
                assert(a.writes@.contains(c)) by {
                    assert(a.writes@[i as int] == c);
                }
                assert(conflicts_on(*a, *b, c));
                assert(spec_conflicts(*a, *b));
            }
            return Some(c);
        }
        i = i + 1;
    }
    let mut i: usize = 0;
    while i < b.writes.len()
        invariant
            0 <= i <= b.writes@.len(),
            forall|j: int|
                0 <= j < i ==> !a.reads@.contains(#[trigger] b.writes@[j]) && !a.writes@.contains(
                    b.writes@[j],
                ),
            forall|j: int|
                0 <= j < a.writes@.len() ==> !b.reads@.contains(#[trigger] a.writes@[j])
                    && !b.writes@.contains(a.writes@[j]),
        decreases b.writes@.len() - i,
    {
        let c = b.writes[i];
        if has_component(&a.reads, c) || has_component(&a.writes, c) {
            proof {
                assert(b.writes@.contains(c)) by {
                    assert(b.writes@[i as int] == c);
                }
                assert(conflicts_on(*a, *b, c));
                assert(spec_conflicts(*a, *b));
            }
            return Some(c);
        }
        i = i + 1;
    }
    assert(!spec_conflicts(*a, *b)) by {
        assert forall|c: ComponentId| !conflicts_on(*a, *b, c) by {
            if a.writes@.contains(c) {
                let j = choose|j: int| 0 <= j < a.writes@.len() && a.writes@[j] == c;
                assert(!b.reads@.contains(a.writes@[j]) && !b.writes@.contains(a.writes@[j]));
            }
            if b.writes@.contains(c) {
                let j = choose|j: int| 0 <= j < b.writes@.len() && b.writes@[j] == c;
                assert(!a.reads@.contains(b.writes@[j]) && !a.writes@.contains(b.writes@[j]));
            }
        }
    }
    None
}

fn append_ids(dst: &mut Vec<ComponentId>, src: &Vec<ComponentId>)
    ensures
        final(dst)@ == old(dst)@ + src@,
{
    let ghost d0 = dst@;
    let mut i: usize = 0;
    assert(d0 + src@.take(0) =~= d0);
    while i < src.len()
        invariant
            0 <= i <= src@.len(),
            dst@ == d0 + src@.take(i as int),
        decreases src@.len() - i,
    {
        dst.push(src[i]);
        proof {
            assert(d0 + src@.take(i as int + 1) =~= (d0 + src@.take(i as int)).push(
                src@[i as int],
            ));
        }
        i = i + 1;
    }
    proof {
        assert(src@.take(src@.len() as int) =~= src@);
    }
}

/// Capability evidence produced by [`init_state`]: proof that the complete
/// footprints of both sub-queries of one unit of work were declared to the
/// conflict checker.  Holding a token is the construction-time licence to
/// build the per-call accessor without re-checking access at call time.
pub struct AccessToken {
    primary: Ghost<Footprint>,
    secondary: Ghost<Footprint>,
}

impl AccessToken {
    /// The declared footprint of the primary query.
    pub closed spec fn primary(&self) -> Footprint {
        self.primary@
    }

    /// The declared footprint of the secondary query.
    pub closed spec fn secondary(&self) -> Footprint {
        self.secondary@
    }
}

/// Declares the complete access footprints of both sub-queries of one unit
/// of work — never a subset, since every call reads both — and checks them
/// against what the unit of work already declared.  On success it hands back
/// the two still-empty query handles and the capability token required to
/// build the per-call accessor; on a conflict the unit of work cannot be
/// constructed and nothing is declared.
pub fn init_state<T: Copy>(meta: &mut SystemMeta, primary: Footprint, secondary: Footprint) -> (r:
    Result<(DataQuery<T>, FilterQuery, AccessToken), AccessConflictError>)
    ensures
        r is Err <==> (spec_conflicts(old(meta).declared, primary) || spec_conflicts(
            old(meta).declared,
            secondary,
        ) || spec_conflicts(primary, secondary)),
        r matches Err(err) ==> *final(meta) == *old(meta) && (conflicts_on(
            old(meta).declared,
            primary,
            err.component,
        ) || conflicts_on(old(meta).declared, secondary, err.component) || conflicts_on(
            primary,
            secondary,
            err.component,
        )),
        r matches Ok(state) ==> ({
            &&& state.0@ == Seq::<(Entity, T)>::empty()
            &&& state.0.wf()
            &&& state.0.footprint() == primary
            &&& state.1@ == Seq::<Relation>::empty()
            &&& state.1.footprint() == secondary
            &&& state.2.primary() == primary
            &&& state.2.secondary() == secondary
            &&& final(meta).declared.reads@ == old(meta).declared.reads@ + primary.reads@
                + secondary.reads@
            &&& final(meta).declared.writes@ == old(meta).declared.writes@ + primary.writes@
                + secondary.writes@
            &&& spec_covers(final(meta).declared, primary)
            &&& spec_covers(final(meta).declared, secondary)
        }),
{
    if let Some(c) = conflict_witness(&meta.declared, &primary) {
        return Err(AccessConflictError { component: c });
    }
    if let Some(c) = conflict_witness(&meta.declared, &secondary) {
        return Err(AccessConflictError { component: c });
    }
    if let Some(c) = conflict_witness(&primary, &secondary) {
        return Err(AccessConflictError { component: c });
    }
    let token = AccessToken { primary: Ghost(primary), secondary: Ghost(secondary) };
    let ghost r0 = meta.declared.reads@;
    let ghost w0 = meta.declared.writes@;
    append_ids(&mut meta.declared.reads, &primary.reads);
    append_ids(&mut meta.declared.reads, &secondary.reads);
    append_ids(&mut meta.declared.writes, &primary.writes);
    append_ids(&mut meta.declared.writes, &secondary.writes);
    proof {
        assert(meta.declared.reads@ == r0 + primary.reads@ + secondary.reads@);
        assert(meta.declared.writes@ == w0 + primary.writes@ + secondary.writes@);
        assert forall|i: int|
            0 <= i < primary.reads@.len() implies meta.declared.reads@.contains(
            #[trigger] primary.reads@[i],
        ) || meta.declared.writes@.contains(primary.reads@[i]) by {
            assert(meta.declared.reads@[r0.len() + i] == primary.reads@[i]);
        }
        assert forall|i: int|
            0 <= i < secondary.reads@.len() implies meta.declared.reads@.contains(
            #[trigger] secondary.reads@[i],
        ) || meta.declared.writes@.contains(secondary.reads@[i]) by {
            assert(meta.declared.reads@[r0.len() + primary.reads@.len() + i]
                == secondary.reads@[i]);
        }
        assert forall|i: int|
            0 <= i < primary.writes@.len() implies meta.declared.writes@.contains(
            #[trigger] primary.writes@[i],
        ) by {
            assert(meta.declared.writes@[w0.len() + i] == primary.writes@[i]);
        }
        assert forall|i: int|
            0 <= i < secondary.writes@.len() implies meta.declared.writes@.contains(
            #[trigger] secondary.writes@[i],
        ) by {
            assert(meta.declared.writes@[w0.len() + primary.writes@.len() + i]
                == secondary.writes@[i]);
        }
    }
    let data_query = DataQuery::new(primary);
    let filter_query = FilterQuery::new(secondary);
    Ok((data_query, filter_query, token))
}

} // verus!
