//! The world: every archetype, the entity-identity allocator, and the
//! public spawn and query surface.
//!
//! Each insertion is routed to the archetype whose schema mask is exactly
//! the bundle's schema, creating that archetype on first use. Queries scan
//! all archetypes and keep those whose mask contains the requested
//! identities.

use vstd::prelude::*;
use crate::archetype::{
    Archetype, ArchetypeMask, Column, EntityId, col_index_of, ids_of, lemma_col_index_of,
    lemma_col_index_same_ids, lemma_col_index_unique, lemma_contains_has, lemma_mask_ext,
    lemma_mask_of_has, lemma_rec_index_of, lemma_rec_index_unique, mask_of, rec_index_of,
    record_data, row_added,
};
use crate::component::{ComponentId, ComponentMeta, ErasedComponent};

verus! {

/// Owns the archetype list and the next-entity counter. At most one
/// archetype exists per distinct schema mask, and entity identities are
/// issued monotonically and never reused.
#[derive(Debug)]
pub struct World {
    pub archetypes: Vec<Archetype>,
    pub next_entity: EntityId,
}

/// The index of the first archetype whose schema mask is exactly `m`, or
/// `-1` when no archetype holds that schema.
pub open spec fn route_of(archetypes: Seq<Archetype>, m: ArchetypeMask) -> int
    decreases archetypes.len(),
{
    if archetypes.len() == 0 {
        -1
    } else if archetypes[0].mask == m {
        0
    } else {
        let r = route_of(archetypes.subrange(1, archetypes.len() as int), m);
        if r < 0 {
            -1
        } else {
            r + 1
        }
    }
}

/// `route_of` finds the first archetype of a schema.
pub proof fn lemma_route_of(archetypes: Seq<Archetype>, m: ArchetypeMask)
    ensures
        route_of(archetypes, m) < 0 ==> forall|i: int|
            0 <= i < archetypes.len() ==> archetypes[i].mask != m,
        route_of(archetypes, m) >= 0 ==> {
            &&& route_of(archetypes, m) < archetypes.len()
            &&& archetypes[route_of(archetypes, m)].mask == m
            &&& forall|i: int| 0 <= i < route_of(archetypes, m) ==> archetypes[i].mask != m
        },
    decreases archetypes.len(),
{
    if archetypes.len() == 0 {
    } else if archetypes[0].mask == m {
    } else {
        let rest = archetypes.subrange(1, archetypes.len() as int);
        lemma_route_of(rest, m);
        let r = route_of(rest, m);
        if r < 0 {
            assert forall|i: int| 0 <= i < archetypes.len() implies archetypes[i].mask != m by {
                if i >= 1 {
                    assert(rest[i - 1] == archetypes[i]);
                }
            }
        } else {
            assert(archetypes[r + 1] == rest[r]);
            assert forall|i: int| 0 <= i < r + 1 implies archetypes[i].mask != m by {
                if i >= 1 {
                    assert(rest[i - 1] == archetypes[i]);
                }
            }
        }
    }
}

/// A route is pinned by a schema match with no earlier match.
pub proof fn lemma_route_unique(archetypes: Seq<Archetype>, m: ArchetypeMask, k: int)
    requires
        0 <= k < archetypes.len(),
        archetypes[k].mask == m,
        forall|i: int| 0 <= i < k ==> archetypes[i].mask != m,
    ensures
        route_of(archetypes, m) == k,
{
    lemma_route_of(archetypes, m);
    let r = route_of(archetypes, m);
    if r < 0 {
        assert(archetypes[k].mask != m);
    }
}

/// A bundle the store can take: one record per component identity, every
/// identity under the schema capacity.
pub open spec fn bundle_ok(components: Seq<ErasedComponent>) -> bool {
    &&& components.len() <= 256
    &&& forall|i: int, j: int|
        0 <= i < j < components.len() ==> components[i].id != components[j].id
    &&& forall|i: int| 0 <= i < components.len() ==> (#[trigger] components[i]).id < 256
}

/// The machine-level and caller-level room a spawn needs: a routed
/// archetype must have growable columns whose layouts match the records; a
/// fresh archetype's initial buffers must have representable sizes.
pub open spec fn spawn_fits(w: World, components: Seq<ErasedComponent>) -> bool {
    let r = route_of(w.archetypes@, mask_of(ids_of(components)));
    if r >= 0 {
        &&& w.archetypes@[r].can_push_row()
        &&& forall|i: int|
            0 <= i < components.len() ==> {
                let k = col_index_of(w.archetypes@[r].columns@, (#[trigger] components[i]).id);
                k >= 0 ==> w.archetypes@[r].columns@[k].meta.size == components[i].data@.len()
            }
    } else {
        forall|i: int|
            0 <= i < components.len() ==> 64 * (#[trigger] components[i]).data@.len()
                <= usize::MAX
    }
}

/// The archetype a first spawn of a schema materializes: the bundle's
/// mask, one column per record with initial capacity 64 holding exactly
/// that record's bytes, and the one entity identity.
pub open spec fn fresh_archetype(
    post: Archetype,
    components: Seq<ErasedComponent>,
    entity: EntityId,
) -> bool {
    &&& post.mask == mask_of(ids_of(components))
    &&& post.entities@ == seq![entity]
    &&& post.columns@.len() == components.len()
    &&& forall|k: int|
        0 <= k < components.len() ==> (#[trigger] post.columns@[k]).meta == (ComponentMeta {
            id: components[k].id,
            kind: components[k].kind,
            size: components[k].data@.len() as usize,
        })
    &&& forall|k: int| 0 <= k < components.len() ==> (#[trigger] post.columns@[k]).len == 1
    &&& forall|k: int|
        0 <= k < components.len() ==> (#[trigger] post.columns@[k]).capacity == 64
    &&& forall|k: int|
        0 <= k < components.len() ==> (#[trigger] post.columns@[k]).element(0)
            == components[k].data@
}

impl World {
    /// Every archetype is well formed, no two archetypes share a schema
    /// mask, and every issued entity identity lies below the counter and
    /// names exactly one row in the whole store: identities are never
    /// reused or reassigned.
    pub open spec fn wf(self) -> bool {
        &&& forall|a: int|
            0 <= a < self.archetypes@.len() ==> (#[trigger] self.archetypes@[a]).wf()
        &&& forall|a: int, b: int|
            0 <= a < b < self.archetypes@.len() ==> self.archetypes@[a].mask
                != self.archetypes@[b].mask
        &&& forall|a: int, i: int|
            #![trigger self.archetypes@[a].entities@[i]]
            0 <= a < self.archetypes@.len() && 0 <= i < self.archetypes@[a].entities@.len()
                ==> self.archetypes@[a].entities@[i] < self.next_entity
        &&& forall|a1: int, i1: int, a2: int, i2: int|
            #![trigger self.archetypes@[a1].entities@[i1], self.archetypes@[a2].entities@[i2]]
            0 <= a1 < self.archetypes@.len() && 0 <= i1
                < self.archetypes@[a1].entities@.len() && 0 <= a2 < self.archetypes@.len()
                && 0 <= i2 < self.archetypes@[a2].entities@.len() && (a1 != a2 || i1 != i2)
                ==> self.archetypes@[a1].entities@[i1] != self.archetypes@[a2].entities@[i2]
    }

    /// An empty store: no archetype, first entity identity `0`.
    pub fn new() -> (w: World)
        ensures
            w.wf(),
            w.archetypes@.len() == 0,
            w.next_entity == 0,
    {
        World::default()
    }

    /// Places one runtime-typed bundle: routes it to the archetype whose
    /// schema mask is exactly the bundle's schema, materializing that
    /// archetype on first use, then stores one row and returns the freshly
    /// allocated entity identity.
    pub fn spawn_erased(&mut self, components: &[ErasedComponent]) -> (entity: EntityId)
        requires
            old(self).wf(),
            old(self).next_entity < u32::MAX,
            bundle_ok(components@),
            spawn_fits(*old(self), components@),
        ensures
            final(self).wf(),
            entity == old(self).next_entity,
            final(self).next_entity == old(self).next_entity + 1,
            ({
                let r = route_of(old(self).archetypes@, mask_of(ids_of(components@)));
                if r >= 0 {
                    &&& final(self).archetypes@.len() == old(self).archetypes@.len()
                    &&& forall|b: int|
                        0 <= b < old(self).archetypes@.len() && b != r
                            ==> final(self).archetypes@[b] == old(self).archetypes@[b]
                    &&& row_added(
                        old(self).archetypes@[r],
                        final(self).archetypes@[r],
                        components@,
                        entity,
                    )
                } else {
                    &&& final(self).archetypes@.len() == old(self).archetypes@.len() + 1
                    &&& forall|b: int|
                        0 <= b < old(self).archetypes@.len() ==> final(self).archetypes@[b]
                            == old(self).archetypes@[b]
                    &&& fresh_archetype(
                        final(self).archetypes@[old(self).archetypes@.len() as int],
                        components@,
                        entity,
                    )
                }
            }),
    {
        let ghost pre = *self;
        let n = components.len();
        let mut ids: Vec<ComponentId> = Vec::new();
        let mut i: usize = 0;
        while i < n
            invariant
                i <= n,
                ids@.len() == i,
                forall|j: int| 0 <= j < i ==> ids@[j] == components@[j].id,
            decreases n - i,
        {
            ids.push(components[i].id);
            i = i + 1;
        }
        proof {
            assert(ids@ =~= ids_of(components@));
        }
        let mask = ArchetypeMask::from_ids(ids.as_slice());
        let entity = self.next_entity;
        let na = self.archetypes.len();
        let mut idx: usize = 0;
        while idx < na && !(self.archetypes[idx].mask == mask)
            invariant
                idx <= na,
                forall|b: int| 0 <= b < idx ==> self.archetypes@[b].mask != mask,
            decreases na - idx,
        {
            idx = idx + 1;
        }
        if idx < na {
            proof {
                lemma_route_unique(pre.archetypes@, mask, idx as int);
            }
            let arch = &mut self.archetypes[idx];
            arch.push_row(components, entity);
            self.next_entity = self.next_entity + 1;
            proof {
                assert forall|a: int, b: int|
                    0 <= a < b < self.archetypes@.len() implies self.archetypes@[a].mask
                    != self.archetypes@[b].mask by {
                    assert(self.archetypes@[a].mask == pre.archetypes@[a].mask);
                    assert(self.archetypes@[b].mask == pre.archetypes@[b].mask);
                }
            }
            entity
        } else {
            proof {
                lemma_route_of(pre.archetypes@, mask);
                if route_of(pre.archetypes@, mask) >= 0 {
                    assert(pre.archetypes@[route_of(pre.archetypes@, mask)].mask == mask);
                }
            }
            let mut columns: Vec<Column> = Vec::new();
            let mut i: usize = 0;
            while i < n
                invariant
                    i <= n,
                    columns@.len() == i,
                    forall|k: int|
                        0 <= k < i ==> (#[trigger] columns@[k]).meta == (ComponentMeta {
                            id: components@[k].id,
                            kind: components@[k].kind,
                            size: components@[k].data@.len() as usize,
                        }),
                    forall|k: int| 0 <= k < i ==> (#[trigger] columns@[k]).wf(),
                    forall|k: int| 0 <= k < i ==> (#[trigger] columns@[k]).len == 1,
                    forall|k: int| 0 <= k < i ==> (#[trigger] columns@[k]).capacity == 64,
                    forall|k: int|
                        0 <= k < i ==> (#[trigger] columns@[k]).element(0)
                            == components@[k].data@,
                decreases n - i,
            {
                let c = &components[i];
                let mut col = Column::new(64, c.id, c.data.len(), c.kind);
                col.push_erased(c);
                columns.push(col);
                i = i + 1;
            }
            let mut archetype = Archetype::new(mask, columns);
            archetype.add_entity(entity);
            proof {
                assert forall|id: u32| #[trigger]
                    archetype.mask.spec_has(id) == (col_index_of(archetype.columns@, id)
                    >= 0) by {
                    lemma_mask_of_has(ids_of(components@), id);
                    lemma_col_index_of(archetype.columns@, id);
                    let r = col_index_of(archetype.columns@, id);
                    if ids_of(components@).contains(id) {
                        let w = choose|j: int|
                            0 <= j < ids_of(components@).len() && ids_of(components@)[j]
                                == id;
                        if r < 0 {
                            assert(archetype.columns@[w].meta.id != id);
                        }
                    } else {
                        if r >= 0 {
                            assert(archetype.columns@[r].meta.id == id);
                            assert(ids_of(components@)[r] == id);
                        }
                    }
                }
                assert(archetype.wf());
                assert(archetype.entities@ =~= seq![entity]);
            }
            self.archetypes.push(archetype);
            self.next_entity = self.next_entity + 1;
            entity
        }
    }
}

/// Requested access to one component within a query: shared or exclusive.
#[derive(Debug, Clone, Copy, PartialEq, Eq, Structural)]
pub enum Access {
    Read,
    Write,
}

/// Where one component of one stored row lives: the archetype's position,
/// the column's position within it, and the row.
#[derive(Debug, Clone, Copy, PartialEq, Eq, Structural)]
pub struct ComponentLoc {
    pub archetype: usize,
    pub column: usize,
    pub row: usize,
}

/// One component of one query result: a copy of the row's bytes under read
/// access, or under write access the location to read and write through
/// the world while the result is in use.
#[derive(Debug)]
pub enum ComponentQuery {
    Read(Vec<u8>),
    Write(ComponentLoc),
}

/// One query result: a row's entity identity and one entry per requested
/// component.
#[derive(Debug)]
pub struct ErasedQueryResult {
    pub entity: EntityId,
    pub components: Vec<ComponentQuery>,
}

/// The identities of a request list, in order.
pub open spec fn req_ids(components: Seq<(ComponentId, Access)>) -> Seq<u32> {
    components.map_values(|c: (ComponentId, Access)| c.0)
}

/// The number of rows a query for mask `m` yields from the archetypes
/// before index `upto`: one per row of every archetype whose mask contains
/// `m`.
pub open spec fn rows_before(archetypes: Seq<Archetype>, m: ArchetypeMask, upto: int) -> int
    decreases upto,
{
    if upto <= 0 {
        0
    } else {
        rows_before(archetypes, m, upto - 1) + if archetypes[upto - 1].mask.spec_contains(m) {
            archetypes[upto - 1].entities@.len() as int
        } else {
            0
        }
    }
}

/// `rows_before` grows with the archetype prefix.
pub proof fn lemma_rows_before_mono(archetypes: Seq<Archetype>, m: ArchetypeMask, a: int, b: int)
    requires
        0 <= a <= b,
    ensures
        rows_before(archetypes, m, a) <= rows_before(archetypes, m, b),
    decreases b - a,
{
    if a < b {
        lemma_rows_before_mono(archetypes, m, a, b - 1);
    }
}

/// A row of a matching archetype before index `a` has its result at an
/// index below `rows_before(archetypes, m, a)`.
pub proof fn lemma_row_entry_bound(
    archetypes: Seq<Archetype>,
    m: ArchetypeMask,
    a2: int,
    i2: int,
    a: int,
)
    requires
        0 <= a2 < a,
        archetypes[a2].mask.spec_contains(m),
        0 <= i2 < archetypes[a2].entities@.len(),
    ensures
        0 <= rows_before(archetypes, m, a2) + i2 < rows_before(archetypes, m, a),
{
    lemma_rows_before_mono(archetypes, m, 0, a2);
    lemma_rows_before_mono(archetypes, m, a2 + 1, a);
}

/// Distinct rows take distinct result slots: the slot index
/// `rows_before + i` is injective over (archetype, row) pairs, so together
/// with the result count every matching row is answered exactly once.
pub proof fn lemma_result_slots_distinct(
    archetypes: Seq<Archetype>,
    m: ArchetypeMask,
    a1: int,
    i1: int,
    a2: int,
    i2: int,
)
    requires
        0 <= a1 < archetypes.len(),
        archetypes[a1].mask.spec_contains(m),
        0 <= i1 < archetypes[a1].entities@.len(),
        0 <= a2 < archetypes.len(),
        archetypes[a2].mask.spec_contains(m),
        0 <= i2 < archetypes[a2].entities@.len(),
        a1 != a2 || i1 != i2,
    ensures
        rows_before(archetypes, m, a1) + i1 != rows_before(archetypes, m, a2) + i2,
{
    if a1 < a2 {
        lemma_row_entry_bound(archetypes, m, a1, i1, a2);
    } else if a2 < a1 {
        lemma_row_entry_bound(archetypes, m, a2, i2, a1);
    }
}

/// Entry `q` of one result's component list honors request `q`: read
/// access carries a copy of the bytes of that row's slice of the column
/// holding the requested identity; write access carries that slice's
/// location.
pub open spec fn component_view_ok(
    arch: Archetype,
    reqs: Seq<(ComponentId, Access)>,
    comps: Seq<ComponentQuery>,
    a: int,
    i: int,
    q: int,
) -> bool {
    let k = col_index_of(arch.columns@, reqs[q].0);
    match comps[q] {
        ComponentQuery::Read(bytes) => reqs[q].1 == Access::Read && bytes@ == arch.columns@[
            k
        ].element(i),
        ComponentQuery::Write(loc) => reqs[q].1 == Access::Write && loc == (ComponentLoc {
            archetype: a as usize,
            column: k as usize,
            row: i as usize,
        }),
    }
}

/// The result standing for row `i` of matching archetype `a` is bound to
/// that row's entity identity and has one entry per requested component,
/// each honoring its request.
pub open spec fn result_matches(
    w: World,
    reqs: Seq<(ComponentId, Access)>,
    results: Seq<ErasedQueryResult>,
    a: int,
    i: int,
) -> bool {
    let m = mask_of(req_ids(reqs));
    let arch = w.archetypes@[a];
    let res = results[rows_before(w.archetypes@, m, a) + i];
    &&& res.entity == arch.entities@[i]
    &&& res.components@.len() == reqs.len()
    &&& forall|q: int|
        0 <= q < reqs.len() ==> #[trigger] component_view_ok(
            arch,
            reqs,
            res.components@,
            a,
            i,
            q,
        )
}

impl World {
    /// Resolves a list of (component identity, access mode) requests
    /// against every archetype: for each archetype whose mask contains all
    /// requested identities, and for each of its rows in order, yields one
    /// result bound to that row's entity identity. An identity that no
    /// archetype holds — registered or not — simply contributes no result.
    pub fn query_erased(&self, components: &[(ComponentId, Access)]) -> (results: Vec<
        ErasedQueryResult,
    >)
        requires
            self.wf(),
            components@.len() <= 256,
            forall|q: int| 0 <= q < components@.len() ==> (#[trigger] components@[q]).0 < 256,
        ensures
            results@.len() == rows_before(
                self.archetypes@,
                mask_of(req_ids(components@)),
                self.archetypes@.len() as int,
            ),
            forall|a: int, i: int|
                0 <= a < self.archetypes@.len() && self.archetypes@[a].mask.spec_contains(
                    mask_of(req_ids(components@)),
                ) && 0 <= i < self.archetypes@[a].entities@.len() ==> #[trigger] result_matches(
                    *self,
                    components@,
                    results@,
                    a,
                    i,
                ),
    {
        let nq = components.len();
        let mut ids: Vec<ComponentId> = Vec::new();
        let mut q: usize = 0;
        while q < nq
            invariant
                q <= nq,
                ids@.len() == q,
                forall|t: int| 0 <= t < q ==> ids@[t] == components@[t].0,
            decreases nq - q,
        {
            ids.push(components[q].0);
            q = q + 1;
        }
        proof {
            assert(ids@ =~= req_ids(components@));
        }
        let mask = ArchetypeMask::from_ids(ids.as_slice());
        let ghost m = mask_of(req_ids(components@));
        let mut results: Vec<ErasedQueryResult> = Vec::new();
        let na = self.archetypes.len();
        let mut a: usize = 0;
        while a < na
            invariant
                a <= na,
                results@.len() == rows_before(self.archetypes@, m, a as int),
                forall|a2: int, i2: int|
                    0 <= a2 < a && self.archetypes@[a2].mask.spec_contains(m) && 0 <= i2
                        < self.archetypes@[a2].entities@.len() ==> #[trigger] result_matches(
                        *self,
                        components@,
                        results@,
                        a2,
                        i2,
                    ),
            decreases na - a,
        {
            let arch = &self.archetypes[a];
            if arch.mask.contains(&mask) {
                let mut cols: Vec<usize> = Vec::new();
                let mut q: usize = 0;
                while q < nq
                    invariant
                        q <= nq,
                        cols@.len() == q,
                        a < na,
                        forall|t: int|
                            0 <= t < q ==> (#[trigger] cols@[t]) == col_index_of(
                                self.archetypes@[a as int].columns@,
                                components@[t].0,
                            ) && cols@[t] < self.archetypes@[a as int].columns@.len(),
                    decreases nq - q,
                {
                    let id = components[q].0;
                    proof {
                        assert(req_ids(components@)[q as int] == id);
                        assert(req_ids(components@).contains(id));
                        lemma_mask_of_has(req_ids(components@), id);
                        lemma_contains_has(self.archetypes@[a as int].mask, m, id);
                        lemma_col_index_of(self.archetypes@[a as int].columns@, id);
                    }
                    let nk = arch.columns.len();
                    let mut k: usize = 0;
                    while k < nk && !(arch.columns[k].meta.id == id)
                        invariant
                            k <= nk,
                            forall|j: int|
                                0 <= j < k ==> self.archetypes@[a as int].columns@[j].meta.id
                                    != id,
                        decreases nk - k,
                    {
                        k = k + 1;
                    }
                    proof {
                        let cols_seq = self.archetypes@[a as int].columns@;
                        let cidx = col_index_of(cols_seq, id);
                        assert(0 <= cidx < cols_seq.len());
                        assert(cols_seq[cidx].meta.id == id);
                        if k == nk {
                            assert(false);
                        }
                        lemma_col_index_unique(cols_seq, id, k as int);
                    }
                    cols.push(k);
                    q = q + 1;
                }
                let rows = arch.entities.len();
                let mut i: usize = 0;
                while i < rows
                    invariant
                        i <= rows,
                        rows == self.archetypes@[a as int].entities@.len(),
                        a < na,
                        self.archetypes@[a as int].mask.spec_contains(m),
                        cols@.len() == nq,
                        forall|t: int|
                            0 <= t < nq ==> (#[trigger] cols@[t]) == col_index_of(
                                self.archetypes@[a as int].columns@,
                                components@[t].0,
                            ) && cols@[t] < self.archetypes@[a as int].columns@.len(),
                        results@.len() == rows_before(self.archetypes@, m, a as int) + i,
                        forall|a2: int, i2: int|
                            0 <= a2 < a && self.archetypes@[a2].mask.spec_contains(m) && 0 <= i2
                                < self.archetypes@[a2].entities@.len()
                                ==> #[trigger] result_matches(
                                *self,
                                components@,
                                results@,
                                a2,
                                i2,
                            ),
                        forall|i2: int|
                            0 <= i2 < i ==> #[trigger] result_matches(
                                *self,
                                components@,
                                results@,
                                a as int,
                                i2,
                            ),
                    decreases rows - i,
                {
                    let mut comps: Vec<ComponentQuery> = Vec::new();
                    let mut q: usize = 0;
                    while q < nq
                        invariant
                            q <= nq,
                            comps@.len() == q,
                            i < rows,
                            rows == self.archetypes@[a as int].entities@.len(),
                            a < na,
                            cols@.len() == nq,
                            forall|t: int|
                                0 <= t < nq ==> (#[trigger] cols@[t]) == col_index_of(
                                    self.archetypes@[a as int].columns@,
                                    components@[t].0,
                                ) && cols@[t] < self.archetypes@[a as int].columns@.len(),
                            forall|t: int|
                                0 <= t < q ==> #[trigger] component_view_ok(
                                    self.archetypes@[a as int],
                                    components@,
                                    comps@,
                                    a as int,
                                    i as int,
                                    t,
                                ),
                        decreases nq - q,
                    {
                        let ghost before = comps@;
                        let k = cols[q];
                        match components[q].1 {
                            Access::Read => {
                                let bytes = arch.columns[k].read(i);
                                comps.push(ComponentQuery::Read(bytes));
                            },
                            Access::Write => {
                                comps.push(
                                    ComponentQuery::Write(
                                        ComponentLoc { archetype: a, column: k, row: i },
                                    ),
                                );
                            },
                        }
                        proof {
                            assert(component_view_ok(
                                self.archetypes@[a as int],
                                components@,
                                comps@,
                                a as int,
                                i as int,
                                q as int,
                            ));
                            assert forall|t: int|
                                0 <= t < q implies #[trigger] component_view_ok(
                                self.archetypes@[a as int],
                                components@,
                                comps@,
                                a as int,
                                i as int,
                                t,
                            ) by {
                                assert(component_view_ok(
                                    self.archetypes@[a as int],
                                    components@,
                                    before,
                                    a as int,
                                    i as int,
                                    t,
                                ));
                                assert(comps@[t] == before[t]);
                            }
                        }
                        q = q + 1;
                    }
                    let entity = arch.entities[i];
                    let ghost before = results@;
                    results.push(ErasedQueryResult { entity, components: comps });
                    proof {
                        lemma_rows_before_mono(self.archetypes@, m, 0, a as int);
                        assert(result_matches(
                            *self,
                            components@,
                            results@,
                            a as int,
                            i as int,
                        ));
                        assert forall|a2: int, i2: int|
                            0 <= a2 < a && self.archetypes@[a2].mask.spec_contains(m) && 0 <= i2
                                < self.archetypes@[a2].entities@.len()
                                implies #[trigger] result_matches(
                                *self,
                                components@,
                                results@,
                                a2,
                                i2,
                            ) by {
                            lemma_row_entry_bound(self.archetypes@, m, a2, i2, a as int);
                            assert(result_matches(*self, components@, before, a2, i2));
                            assert(results@[rows_before(self.archetypes@, m, a2) + i2]
                                == before[rows_before(self.archetypes@, m, a2) + i2]);
                        }
                        assert forall|i2: int|
                            0 <= i2 < i + 1 implies #[trigger] result_matches(
                            *self,
                            components@,
                            results@,
                            a as int,
                            i2,
                        ) by {
                            if i2 < i {
                                assert(result_matches(*self, components@, before, a as int, i2));
                                assert(results@[rows_before(self.archetypes@, m, a as int) + i2]
                                    == before[rows_before(self.archetypes@, m, a as int) + i2]);
                            }
                        }
                    }
                    i = i + 1;
                }
            }
            proof {
                assert(results@.len() == rows_before(self.archetypes@, m, a + 1));
                assert forall|a2: int, i2: int|
                    0 <= a2 < a + 1 && self.archetypes@[a2].mask.spec_contains(m) && 0 <= i2
                        < self.archetypes@[a2].entities@.len() implies #[trigger] result_matches(
                    *self,
                    components@,
                    results@,
                    a2,
                    i2,
                ) by {
                    assert(result_matches(*self, components@, results@, a2, i2));
                }
            }
            a = a + 1;
        }
        results
    }

    /// A copy of the bytes of one component of one stored row.
    pub fn read_component(&self, loc: ComponentLoc) -> (bytes: Vec<u8>)
        requires
            self.wf(),
            loc_valid(*self, loc),
        ensures
            bytes@ == self.archetypes@[loc.archetype as int].columns@[loc.column as int].element(
                loc.row as int,
            ),
    {
        self.archetypes[loc.archetype].columns[loc.column].read(loc.row)
    }

    /// Overwrites the bytes of one component of one stored row, leaving
    /// every other byte of the store, every schema, and every entity list
    /// untouched.
    pub fn write_component(&mut self, loc: ComponentLoc, bytes: &[u8])
        requires
            old(self).wf(),
            loc_valid(*old(self), loc),
            bytes@.len() == old(self).archetypes@[loc.archetype as int].columns@[loc.column as int].meta.size,
        ensures
            final(self).wf(),
            final(self).next_entity == old(self).next_entity,
            final(self).archetypes@.len() == old(self).archetypes@.len(),
            forall|b: int|
                0 <= b < old(self).archetypes@.len() && b != loc.archetype
                    ==> final(self).archetypes@[b] == old(self).archetypes@[b],
            component_written(
                old(self).archetypes@[loc.archetype as int],
                final(self).archetypes@[loc.archetype as int],
                loc,
                bytes@,
            ),
    {
        let ghost pre = *self;
        let arch = &mut self.archetypes[loc.archetype];
        let col = &mut arch.columns[loc.column];
        col.write(loc.row, bytes);
        proof {
            let a = loc.archetype as int;
            let c = loc.column as int;
            assert forall|id: u32| #[trigger]
                self.archetypes@[a].mask.spec_has(id) == (col_index_of(
                self.archetypes@[a].columns@,
                id,
            ) >= 0) by {
                lemma_col_index_same_ids(
                    pre.archetypes@[a].columns@,
                    self.archetypes@[a].columns@,
                    id,
                );
            }
            assert forall|x: int, y: int|
                0 <= x < y < self.archetypes@.len() implies self.archetypes@[x].mask
                != self.archetypes@[y].mask by {
                assert(self.archetypes@[x].mask == pre.archetypes@[x].mask);
                assert(self.archetypes@[y].mask == pre.archetypes@[y].mask);
            }
        }
    }
}

/// A location that denotes one component of one stored row.
pub open spec fn loc_valid(w: World, loc: ComponentLoc) -> bool {
    &&& loc.archetype < w.archetypes@.len()
    &&& loc.column < w.archetypes@[loc.archetype as int].columns@.len()
    &&& loc.row < w.archetypes@[loc.archetype as int].entities@.len()
}

/// How writing one component of one row changes an archetype: that
/// element's bytes are replaced and everything else stays.
pub open spec fn component_written(
    pre: Archetype,
    post: Archetype,
    loc: ComponentLoc,
    bytes: Seq<u8>,
) -> bool {
    &&& post.mask == pre.mask
    &&& post.entities@ == pre.entities@
    &&& post.columns@.len() == pre.columns@.len()
    &&& forall|k: int|
        0 <= k < pre.columns@.len() && k != loc.column ==> (#[trigger] post.columns@[k])
            == pre.columns@[k]
    &&& post.columns@[loc.column as int].meta == pre.columns@[loc.column as int].meta
    &&& post.columns@[loc.column as int].len == pre.columns@[loc.column as int].len
    &&& post.columns@[loc.column as int].capacity == pre.columns@[loc.column as int].capacity
    &&& post.columns@[loc.column as int].element(loc.row as int) == bytes
    &&& forall|i: int|
        0 <= i < pre.columns@[loc.column as int].len && i != loc.row
            ==> (#[trigger] post.columns@[loc.column as int].element(i)) == pre.columns@[
            loc.column as int
        ].element(i)
}

/// Two record lists that agree on identity, classification, and bytes.
pub open spec fn records_agree(r1: Seq<ErasedComponent>, r2: Seq<ErasedComponent>) -> bool {
    &&& r1.len() == r2.len()
    &&& forall|i: int|
        0 <= i < r1.len() ==> {
            &&& (#[trigger] r1[i]).id == r2[i].id
            &&& r1[i].kind == r2[i].kind
            &&& r1[i].data@ == r2[i].data@
        }
}

/// Agreeing record lists carry the same identities, find their records at
/// the same positions, and store the same bytes per identity.
pub proof fn lemma_records_agree(r1: Seq<ErasedComponent>, r2: Seq<ErasedComponent>)
    requires
        records_agree(r1, r2),
    ensures
        ids_of(r1) == ids_of(r2),
        forall|id: u32|
            #![trigger rec_index_of(r1, id)]
            #![trigger rec_index_of(r2, id)]
            rec_index_of(r1, id) == rec_index_of(r2, id),
        forall|id: u32|
            #![trigger record_data(r1, id)]
            #![trigger record_data(r2, id)]
            record_data(r1, id) == record_data(r2, id),
{
    assert(ids_of(r1) =~= ids_of(r2));
    assert forall|id: u32|
        #![trigger rec_index_of(r1, id)]
        #![trigger rec_index_of(r2, id)]
        rec_index_of(r1, id) == rec_index_of(r2, id) by {
        lemma_rec_index_of(r1, id);
        lemma_rec_index_of(r2, id);
        let x1 = rec_index_of(r1, id);
        let x2 = rec_index_of(r2, id);
        if x1 >= 0 {
            assert(r2[x1].id == id);
            lemma_rec_index_unique(r2, id, x1);
        } else if x2 >= 0 {
            assert(r1[x2].id == id);
        }
    }
    assert forall|id: u32|
        #![trigger record_data(r1, id)]
        #![trigger record_data(r2, id)]
        record_data(r1, id) == record_data(r2, id) by {
        lemma_rec_index_of(r1, id);
        lemma_rec_index_of(r2, id);
        let x1 = rec_index_of(r1, id);
        let x2 = rec_index_of(r2, id);
        if x1 >= 0 {
            assert(r2[x1].id == id);
            lemma_rec_index_unique(r2, id, x1);
            assert(r1[x1].data@ == r2[x1].data@);
        } else if x2 >= 0 {
            assert(r1[x2].id == id);
        }
    }
}

/// Agreeing record lists have the same effect on the store.
pub proof fn lemma_agree_same_effects(
    pre: Archetype,
    post: Archetype,
    r1: Seq<ErasedComponent>,
    r2: Seq<ErasedComponent>,
    entity: EntityId,
)
    requires
        records_agree(r1, r2),
    ensures
        row_added(pre, post, r1, entity) ==> row_added(pre, post, r2, entity),
        fresh_archetype(post, r1, entity) ==> fresh_archetype(post, r2, entity),
{
    lemma_records_agree(r1, r2);
    if row_added(pre, post, r1, entity) {
        assert forall|k: int|
            0 <= k < pre.columns@.len() implies (#[trigger] post.columns@[k]).element(
            pre.columns@[k].len as int,
        ) == record_data(r2, pre.columns@[k].meta.id) by {
            assert(record_data(r1, pre.columns@[k].meta.id) == record_data(
                r2,
                pre.columns@[k].meta.id,
            ));
        }
    }
    if fresh_archetype(post, r1, entity) {
        assert forall|k: int|
            0 <= k < r2.len() implies (#[trigger] post.columns@[k]).meta == (ComponentMeta {
            id: r2[k].id,
            kind: r2[k].kind,
            size: r2[k].data@.len() as usize,
        }) && post.columns@[k].element(0) == r2[k].data@ by {
            assert(r1[k].id == r2[k].id);
            assert(r1[k].kind == r2[k].kind);
            assert(r1[k].data@ == r2[k].data@);
        }
    }
}

/// A bundle of concrete component values: anything that can present
/// itself as a list of erased records. The embedding application
/// implements it for its component tuples; a plain record list implements
/// it below.
pub trait ComponentsBundle {
    /// The erased records this bundle stands for.
    spec fn spec_records(&self) -> Seq<ErasedComponent>;

    /// Materializes the records.
    fn records(&self) -> (r: Vec<ErasedComponent>)
        ensures
            records_agree(r@, self.spec_records()),
    ;
}

impl ComponentsBundle for Vec<ErasedComponent> {
    open spec fn spec_records(&self) -> Seq<ErasedComponent> {
        self@
    }

    fn records(&self) -> (r: Vec<ErasedComponent>) {
        let mut r: Vec<ErasedComponent> = Vec::new();
        let n = self.len();
        let mut i: usize = 0;
        while i < n
            invariant
                i <= n,
                r@.len() == i,
                forall|j: int|
                    0 <= j < i ==> {
                        &&& (#[trigger] r@[j]).id == self@[j].id
                        &&& r@[j].kind == self@[j].kind
                        &&& r@[j].data@ == self@[j].data@
                    },
            decreases n - i,
        {
            r.push(self[i].duplicate());
            i = i + 1;
        }
        r
    }
}

impl World {
    /// Places one statically typed bundle: materializes its records and
    /// routes them exactly as `spawn_erased` does, returning the freshly
    /// allocated entity identity.
    pub fn spawn<B: ComponentsBundle>(&mut self, components: &B) -> (entity: EntityId)
        requires
            old(self).wf(),
            old(self).next_entity < u32::MAX,
            bundle_ok(components.spec_records()),
            spawn_fits(*old(self), components.spec_records()),
        ensures
            final(self).wf(),
            entity == old(self).next_entity,
            final(self).next_entity == old(self).next_entity + 1,
            ({
                let r = route_of(
                    old(self).archetypes@,
                    mask_of(ids_of(components.spec_records())),
                );
                if r >= 0 {
                    &&& final(self).archetypes@.len() == old(self).archetypes@.len()
                    &&& forall|b: int|
                        0 <= b < old(self).archetypes@.len() && b != r
                            ==> final(self).archetypes@[b] == old(self).archetypes@[b]
                    &&& row_added(
                        old(self).archetypes@[r],
                        final(self).archetypes@[r],
                        components.spec_records(),
                        entity,
                    )
                } else {
                    &&& final(self).archetypes@.len() == old(self).archetypes@.len() + 1
                    &&& forall|b: int|
                        0 <= b < old(self).archetypes@.len() ==> final(self).archetypes@[b]
                            == old(self).archetypes@[b]
                    &&& fresh_archetype(
                        final(self).archetypes@[old(self).archetypes@.len() as int],
                        components.spec_records(),
                        entity,
                    )
                }
            }),
    {
        let records = components.records();
        let ghost spec_recs = components.spec_records();
        proof {
            lemma_records_agree(records@, spec_recs);
            assert forall|i: int, j: int|
                0 <= i < j < records@.len() implies records@[i].id != records@[j].id by {
                assert(records@[i].id == spec_recs[i].id);
                assert(records@[j].id == spec_recs[j].id);
            }
            assert forall|i: int|
                0 <= i < records@.len() implies (#[trigger] records@[i]).id < 256 by {
                assert(records@[i].id == spec_recs[i].id);
            }
            assert(bundle_ok(records@));
            let m = mask_of(ids_of(spec_recs));
            assert(mask_of(ids_of(records@)) == m);
            let r = route_of(self.archetypes@, m);
            if r >= 0 {
                assert forall|i: int|
                    0 <= i < records@.len() implies {
                    let k = col_index_of(
                        self.archetypes@[r].columns@,
                        (#[trigger] records@[i]).id,
                    );
                    k >= 0 ==> self.archetypes@[r].columns@[k].meta.size == records@[
                        i
                    ].data@.len()
                } by {
                    assert(records@[i].id == spec_recs[i].id);
                    assert(records@[i].data@ == spec_recs[i].data@);
                }
            } else {
                assert forall|i: int|
                    0 <= i < records@.len() implies 64 * (#[trigger] records@[i]).data@.len()
                    <= usize::MAX by {
                    assert(records@[i].data@ == spec_recs[i].data@);
                }
            }
            assert(spawn_fits(*self, records@));
        }
        let entity = self.spawn_erased(records.as_slice());
        proof {
            let m = mask_of(ids_of(spec_recs));
            let r = route_of(old(self).archetypes@, m);
            if r >= 0 {
                lemma_agree_same_effects(
                    old(self).archetypes@[r],
                    self.archetypes@[r],
                    records@,
                    spec_recs,
                    entity,
                );
            } else {
                lemma_agree_same_effects(
                    self.archetypes@[old(self).archetypes@.len() as int],
                    self.archetypes@[old(self).archetypes@.len() as int],
                    records@,
                    spec_recs,
                    entity,
                );
            }
        }
        entity
    }

    /// The statically typed convenience layer: resolves a query shape
    /// against the store through the erased path.
    pub fn query<Q: Query>(&self) -> (r: Vec<Q::Result>)
        requires
            self.wf(),
    {
        Q::query_world(self)
    }
}

/// A statically typed query shape: the embedding application implements
/// it per shape, mapping each concrete type to its identity and access
/// mode, invoking the erased path, and decoding each returned byte view.
pub trait Query {
    type Result;

    fn query_world(world: &World) -> (r: Vec<Self::Result>)
        requires
            world.wf(),
    ;
}

/// Row lockstep: in a well-formed store — and the store stays well formed
/// across any sequence of spawns — every archetype's entity list and every
/// one of its columns have the same length, so a row index denotes the
/// same logical entity in every column.
pub proof fn lemma_row_lockstep(w: World, a: int, k: int)
    requires
        w.wf(),
        0 <= a < w.archetypes@.len(),
        0 <= k < w.archetypes@[a].columns@.len(),
    ensures
        w.archetypes@[a].columns@[k].len == w.archetypes@[a].entities@.len(),
{
}

/// Entity identities are never reused: in a well-formed store — which any
/// sequence of spawns preserves — two distinct rows never carry the same
/// entity identity, within one archetype or across archetypes.
pub proof fn lemma_entity_unique(w: World, a1: int, i1: int, a2: int, i2: int)
    requires
        w.wf(),
        0 <= a1 < w.archetypes@.len(),
        0 <= i1 < w.archetypes@[a1].entities@.len(),
        0 <= a2 < w.archetypes@.len(),
        0 <= i2 < w.archetypes@[a2].entities@.len(),
        a1 != a2 || i1 != i2,
    ensures
        w.archetypes@[a1].entities@[i1] != w.archetypes@[a2].entities@[i2],
{
}

/// Schema routing determinism: two bundles listing the same set of
/// component identities — in whatever order — build the same schema mask,
/// and so are routed to the same archetype.
pub proof fn lemma_routing_deterministic(
    archetypes: Seq<Archetype>,
    c1: Seq<ErasedComponent>,
    c2: Seq<ErasedComponent>,
)
    requires
        forall|i: int| 0 <= i < c1.len() ==> (#[trigger] c1[i]).id < 256,
        forall|i: int| 0 <= i < c2.len() ==> (#[trigger] c2[i]).id < 256,
        forall|id: u32|
            #![trigger ids_of(c1).contains(id)]
            #![trigger ids_of(c2).contains(id)]
            ids_of(c1).contains(id) == ids_of(c2).contains(id),
    ensures
        mask_of(ids_of(c1)) == mask_of(ids_of(c2)),
        route_of(archetypes, mask_of(ids_of(c1))) == route_of(archetypes, mask_of(ids_of(c2))),
{
    assert forall|j: u32|
        mask_of(ids_of(c1)).spec_has(j) == mask_of(ids_of(c2)).spec_has(j) by {
        assert(forall|i: int| 0 <= i < ids_of(c1).len() ==> ids_of(c1)[i] == c1[i].id);
        assert(forall|i: int| 0 <= i < ids_of(c2).len() ==> ids_of(c2)[i] == c2[i].id);
        lemma_mask_of_has(ids_of(c1), j);
        lemma_mask_of_has(ids_of(c2), j);
    }
    lemma_mask_ext(mask_of(ids_of(c1)), mask_of(ids_of(c2)));
}

/// Schema routing discrimination: a bundle listing a component identity
/// that another bundle lacks builds a different schema mask, so the two
/// never share an archetype.
pub proof fn lemma_routing_discriminates(
    c1: Seq<ErasedComponent>,
    c2: Seq<ErasedComponent>,
    id: u32,
)
    requires
        forall|i: int| 0 <= i < c1.len() ==> (#[trigger] c1[i]).id < 256,
        forall|i: int| 0 <= i < c2.len() ==> (#[trigger] c2[i]).id < 256,
        ids_of(c1).contains(id),
        !ids_of(c2).contains(id),
    ensures
        mask_of(ids_of(c1)) != mask_of(ids_of(c2)),
{
    assert(forall|i: int| 0 <= i < ids_of(c1).len() ==> ids_of(c1)[i] == c1[i].id);
    assert(forall|i: int| 0 <= i < ids_of(c2).len() ==> ids_of(c2)[i] == c2[i].id);
    lemma_mask_of_has(ids_of(c1), id);
    lemma_mask_of_has(ids_of(c2), id);
}

impl Default for World {
    /// An empty store: no archetype, first entity identity `0`.
    fn default() -> (w: World)
        ensures
            w.wf(),
            w.archetypes@.len() == 0,
            w.next_entity == 0,
    {
        World { archetypes: Vec::new(), next_entity: 0 }
    }
}

} // verus!
