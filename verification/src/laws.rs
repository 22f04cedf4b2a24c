//! Laws of the preloading engine, stated over the engine's own
//! specifications and proved once for every input.

use vstd::prelude::*;

use crate::descriptor::HasMany;
use crate::keys::lemma_strictly_sorted_no_duplicates;
use crate::keys::strictly_sorted;
use crate::descriptor::HasOne;
use crate::descriptor::Registry;
use crate::node::SlotV;
use crate::preload::many_shape;
use crate::preload::one_shape;
use crate::preload::shape_mentions;
use crate::preload::BatchRequest;
use crate::preload::SlotShape;
use crate::row::RowV;
use crate::seqs::lemma_filter_implied;
use crate::shape::Selection;
use crate::store::direct_one;
use crate::store::failing;
use crate::store::fk_in;
use crate::store::fk_is;
use crate::store::page;
use crate::store::rows_with_fk;
use crate::store::rows_with_fk_in;
use crate::store::table_view;
use crate::store::Store;

verus! {

/// For any parent set and to-one edge, preloading equals per-node
/// individual resolution: a parent's slot receives exactly the row its
/// own direct point lookup by foreign key returns, and a parent whose
/// key is null or dangling is left untouched, to fall back.
pub proof fn lemma_to_one_preload_matches_direct(
    store: Store,
    o: HasOne,
    fk: Option<u64>,
    old_s: SlotV,
)
    requires
        old_s is Empty,
        !failing(store, o.target as int),
    ensures
        one_shape(store, o, fk, old_s) == (match fk {
            Option::Some(k) => match direct_one(table_view(store, o.target as int), k) {
                Option::Some(rv) => SlotShape::OneOf(rv),
                Option::None => SlotShape::Unchanged,
            },
            Option::None => SlotShape::Unchanged,
        }),
{
    reveal(crate::preload::one_shape);
}

/// For any parent set and to-many edge, preloading equals per-node
/// individual resolution as long as the shared pagination window does
/// not cut the combined fetch: with no offset and all combined matches
/// within the limit, each parent's bucket holds exactly the rows of its
/// own direct filtered fetch. When the window does truncate, the limit
/// applies to the combined fetch before partitioning, and later
/// parents' buckets may be under-filled; that behavior is deliberate
/// and observable.
pub proof fn lemma_to_many_preload_matches_direct(
    store: Store,
    m: HasMany,
    ids: Set<u64>,
    id_j: u64,
    old_s: SlotV,
    limit: int,
)
    requires
        old_s is Empty,
        !failing(store, m.target as int),
        ids.contains(id_j),
        rows_with_fk_in(table_view(store, m.target as int), m.fk_col as int, ids).len() <= limit,
    ensures
        many_shape(store, m, limit, 0, ids, id_j, old_s) == (if rows_with_fk(
            table_view(store, m.target as int),
            m.fk_col as int,
            id_j,
        ).len() == 0 {
            SlotShape::Unchanged
        } else {
            SlotShape::ManyOf(
                page(
                    rows_with_fk(table_view(store, m.target as int), m.fk_col as int, id_j),
                    limit,
                    0,
                ),
            )
        }),
{
    reveal(crate::preload::many_shape);
    let tv = table_view(store, m.target as int);
    let col = m.fk_col as int;
    let combined = rows_with_fk_in(tv, col, ids);
    let paged = page(combined, limit, 0);
    assert(paged =~= combined);
    let p_in = |r: RowV| fk_in(r, col, ids);
    let p_is = |r: RowV| fk_is(r, col, id_j);
    assert forall|x: RowV| #[trigger] p_is(x) implies p_in(x) by {
        assert(ids.contains(id_j) && fk_is(x, col, id_j));
    }
    lemma_filter_implied(tv, p_in, p_is);
    assert(rows_with_fk(paged, col, id_j) == rows_with_fk(tv, col, id_j));
    Seq::lemma_filter_len(combined, p_is);
    assert(page(rows_with_fk(tv, col, id_j), limit, 0) =~= rows_with_fk(tv, col, id_j));
}

/// Aggregated key lists are sorted and duplicate-free before being used
/// as a fetch filter: every recorded batch request carries a strictly
/// increasing key list, and such a list holds no key twice.
pub proof fn lemma_batch_keys_minimal(req: BatchRequest)
    requires
        strictly_sorted(req.keys@),
    ensures
        req.keys@.no_duplicates(),
        forall|i: int, j: int| 0 <= i < j < req.keys@.len() ==> req.keys@[i] < req.keys@[j],
{
    lemma_strictly_sorted_no_duplicates(req.keys@);
}

/// If an edge is absent from the requested shape, zero batch fetches
/// are issued for it: every request a preload pass records serves only
/// edges the shape mentions somewhere, so an extension of the trace
/// holds no request for an unmentioned edge.
pub proof fn lemma_unselected_edge_not_fetched(
    reg: Registry,
    ent: int,
    sel: Selection,
    old_trace: Seq<BatchRequest>,
    new_trace: Seq<BatchRequest>,
    q_ent: int,
    q_edge: int,
)
    requires
        old_trace.len() <= new_trace.len(),
        forall|t: int, x: int|
            #![trigger new_trace[t].edges@[x]]
            old_trace.len() <= t < new_trace.len() && 0 <= x < new_trace[t].edges@.len()
                ==> shape_mentions(
                reg,
                ent,
                sel,
                new_trace[t].parent_ent as int,
                new_trace[t].edges@[x] as int,
            ),
        !shape_mentions(reg, ent, sel, q_ent, q_edge),
    ensures
        forall|t: int, x: int|
            #![trigger new_trace[t].edges@[x]]
            old_trace.len() <= t < new_trace.len() && 0 <= x < new_trace[t].edges@.len() ==> !(
            new_trace[t].parent_ent == q_ent && new_trace[t].edges@[x] as int == q_edge),
{
}

} // verus!
