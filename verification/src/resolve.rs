//! Field-level resolver dispatch and the root resolvers.
//!
//! A field resolver drains its edge's preload slot; when the slot holds
//! nothing — the edge was not selected, the batch missed this parent, or
//! the slot was already consumed — it falls back to a direct fetch, so a
//! batching miss never changes what a field returns. The root resolvers
//! perform one fetch and then one preload pass over the whole result
//! set.

use vstd::prelude::*;

use crate::descriptor::edge_at;
use crate::descriptor::edge_wf;
use crate::descriptor::reg_wf;
use crate::descriptor::Edge;
use crate::descriptor::Registry;
use crate::keys::strictly_sorted;
use crate::node::node_from_row;
use crate::node::node_view;
use crate::node::nodes_from_rows;
use crate::node::nodes_view;
use crate::node::rows_of;
use crate::node::slot_after_take;
use crate::node::slot_take_result;
use crate::node::NodeV;
use crate::node::SlotV;
use crate::node::ValueV;
use crate::preload::node_flat_wf;
use crate::preload::nodes_flat_wf;
use crate::preload::preload_children;
use crate::preload::expected_slot;
use crate::preload::slot_conforms;
use crate::preload::shape_mentions;
use crate::preload::BatchRequest;
use crate::row::row_view;
use crate::row::rows_view;
use crate::row::RowV;
use crate::shape::limit_of;
use crate::shape::offset_of;
use crate::shape::spec_limit_of;
use crate::shape::spec_offset_of;
use crate::shape::Selection;
use crate::slot::Node;
use crate::slot::SlotValue;
use crate::store::direct_one;
use crate::store::failing;
use crate::store::filter_view;
use crate::store::fk_is;
use crate::store::ids_view;
use crate::store::page;
use crate::store::root_pred;
use crate::store::rows_with_fk;
use crate::store::store_wf;
use crate::store::table_view;
use crate::store::Filter;
use crate::store::Store;

verus! {

/// A field-scoped resolution failure.
#[derive(Debug, PartialEq, Eq)]
pub enum FieldError {
    /// The row a lookup asked for does not exist.
    NotFound,
    /// The backing store could not serve a fetch.
    Unavailable,
}

/// The model of a freshly materialized node: the row, with one empty
/// slot per declared edge.
pub open spec fn fresh_node(rv: RowV, n_edges: int) -> NodeV {
    NodeV { row: rv, slots: Seq::new(n_edges as nat, |i: int| SlotV::Empty) }
}

/// The models of a freshly materialized level.
pub open spec fn fresh_level(rows: Seq<RowV>, n_edges: int) -> Seq<NodeV> {
    rows.map_values(|rv: RowV| fresh_node(rv, n_edges))
}

/// The single child a take on a to-one slot yields, if any.
pub open spec fn took_one(old_s: SlotV) -> Option<NodeV> {
    match slot_take_result(old_s) {
        Option::Some(v) => match v {
            ValueV::One(c) => Some(c),
            ValueV::Many(_) => None,
        },
        Option::None => None,
    }
}

/// The children a take on a to-many slot yields, if any.
pub open spec fn took_many(old_s: SlotV) -> Option<Seq<NodeV>> {
    match slot_take_result(old_s) {
        Option::Some(v) => match v {
            ValueV::Many(cs) => Some(cs),
            ValueV::One(_) => None,
        },
        Option::None => None,
    }
}

/// Resolves a to-one edge of one node: drains the slot if the
/// orchestrator filled it, and otherwise performs the direct point
/// lookup by the node's foreign key. A missing row, a null key, and a
/// failing store each surface as a field-scoped error.
pub fn edge_to_one(
    store: &Store,
    reg: &Registry,
    ent: usize,
    node: &mut Node,
    e: usize,
) -> (r: Result<Node, FieldError>)
    requires
        reg_wf(*reg),
        store_wf(*store, *reg),
        ent < reg.entities@.len(),
        (e as int) < reg.entities@[ent as int].edges@.len(),
        edge_at(*reg, ent as int, e as int) is One,
        node_flat_wf(*reg, ent as int, node_view(*old(node))),
    ensures
        node_view(*final(node)).row == node_view(*old(node)).row,
        node_view(*final(node)).slots.len() == node_view(*old(node)).slots.len(),
        forall|e2: int|
            0 <= e2 < node_view(*old(node)).slots.len() && e2 != e ==> node_view(
                *final(node),
            ).slots[e2] == node_view(*old(node)).slots[e2],
        node_view(*final(node)).slots[e as int] == slot_after_take(
            node_view(*old(node)).slots[e as int],
        ),
        match took_one(node_view(*old(node)).slots[e as int]) {
            Option::Some(c) => r is Ok && node_view(r->Ok_0) == c,
            Option::None => match node_view(*old(node)).row.keys[edge_at(
                *reg,
                ent as int,
                e as int,
            )->One_0.key_col as int] {
                Option::None => r == Result::<Node, FieldError>::Err(FieldError::NotFound),
                Option::Some(k) => if failing(
                    *store,
                    edge_at(*reg, ent as int, e as int)->One_0.target as int,
                ) {
                    r == Result::<Node, FieldError>::Err(FieldError::Unavailable)
                } else {
                    match direct_one(
                        table_view(
                            *store,
                            edge_at(*reg, ent as int, e as int)->One_0.target as int,
                        ),
                        k,
                    ) {
                        Option::None => r == Result::<Node, FieldError>::Err(
                            FieldError::NotFound,
                        ),
                        Option::Some(rv) => r is Ok && node_view(r->Ok_0) == fresh_node(
                            rv,
                            reg.entities@[edge_at(
                                *reg,
                                ent as int,
                                e as int,
                            )->One_0.target as int].edges@.len() as int,
                        ),
                    }
                },
            },
        },
{
    proof {
        assert(edge_wf(*reg, ent as int, edge_at(*reg, ent as int, e as int)));
    }
    let (target, key_col) = match &reg.entities[ent].edges[e] {
        Edge::One(o) => (o.target, o.key_col),
        Edge::Many(_) => {
            proof {
                assert(false);
            }
            (0, 0)
        },
    };
    proof {
        crate::node::lemma_slots_view(*node, node.slots@.len() as int);
    }
    let taken = node.take_slot(e);
    proof {
        crate::node::lemma_slots_view(*node, node.slots@.len() as int);
    }
    match taken {
        Option::Some(v) => match v {
            SlotValue::One(c) => {
                return Ok(c);
            },
            SlotValue::Many(_) => {},
        },
        Option::None => {},
    }
    // fallback: direct point lookup by the stored foreign key
    match node.row.keys[key_col] {
        Option::None => Err(FieldError::NotFound),
        Option::Some(k) => match store.fetch_one(target, k) {
            Result::Err(_) => Err(FieldError::Unavailable),
            Result::Ok(opt) => match opt {
                Option::None => Err(FieldError::NotFound),
                Option::Some(row) => {
                    let child = node_from_row(row, reg.entities[target].edges.len());
                    proof {
                        assert(node_view(child).slots =~= fresh_node(
                            row_view(row),
                            reg.entities@[target as int].edges@.len() as int,
                        ).slots);
                    }
                    Ok(child)
                },
            },
        },
    }
}

/// Resolves a to-many edge of one node: drains the slot if the
/// orchestrator filled it, and otherwise performs the direct filtered
/// fetch by the node's primary key with the given (or default)
/// pagination, preloading the fetched children for the nested selection.
pub fn edge_to_many(
    store: &Store,
    reg: &Registry,
    ent: usize,
    node: &mut Node,
    e: usize,
    limit: Option<usize>,
    offset: Option<usize>,
    sub: &Selection,
    trace: &mut Vec<BatchRequest>,
) -> (r: Result<Vec<Node>, FieldError>)
    requires
        reg_wf(*reg),
        store_wf(*store, *reg),
        ent < reg.entities@.len(),
        (e as int) < reg.entities@[ent as int].edges@.len(),
        edge_at(*reg, ent as int, e as int) is Many,
        node_flat_wf(*reg, ent as int, node_view(*old(node))),
    ensures
        node_view(*final(node)).row == node_view(*old(node)).row,
        node_view(*final(node)).slots.len() == node_view(*old(node)).slots.len(),
        forall|e2: int|
            0 <= e2 < node_view(*old(node)).slots.len() && e2 != e ==> node_view(
                *final(node),
            ).slots[e2] == node_view(*old(node)).slots[e2],
        node_view(*final(node)).slots[e as int] == slot_after_take(
            node_view(*old(node)).slots[e as int],
        ),
        match took_many(node_view(*old(node)).slots[e as int]) {
            Option::Some(cs) => r is Ok && nodes_view(r->Ok_0@) == cs && *final(trace) == *old(
                trace,
            ),
            Option::None => if failing(
                *store,
                edge_at(*reg, ent as int, e as int)->Many_0.target as int,
            ) {
                r == Result::<Vec<Node>, FieldError>::Err(FieldError::Unavailable)
            } else {
                r is Ok && rows_of(nodes_view(r->Ok_0@)) == page(
                    rows_with_fk(
                        table_view(
                            *store,
                            edge_at(*reg, ent as int, e as int)->Many_0.target as int,
                        ),
                        edge_at(*reg, ent as int, e as int)->Many_0.fk_col as int,
                        node_view(*old(node)).row.id,
                    ),
                    spec_limit_of(limit) as int,
                    spec_offset_of(offset) as int,
                )
            },
        },
        final(trace)@.len() >= old(trace)@.len(),
        forall|t: int| 0 <= t < old(trace)@.len() ==> final(trace)@[t] == old(trace)@[t],
        forall|t: int|
            #![trigger final(trace)@[t]]
            old(trace)@.len() <= t < final(trace)@.len() ==> strictly_sorted(
                final(trace)@[t].keys@,
            ) && final(trace)@[t].edges@.len() > 0 && (forall|x: int|
                0 <= x < final(trace)@[t].edges@.len() ==> shape_mentions(
                    *reg,
                    edge_at(*reg, ent as int, e as int)->Many_0.target as int,
                    *sub,
                    final(trace)@[t].parent_ent as int,
                    #[trigger] final(trace)@[t].edges@[x] as int,
                )),
{
    proof {
        assert(edge_wf(*reg, ent as int, edge_at(*reg, ent as int, e as int)));
    }
    let (target, fk_col) = match &reg.entities[ent].edges[e] {
        Edge::Many(m) => (m.target, m.fk_col),
        Edge::One(_) => {
            proof {
                assert(false);
            }
            (0, 0)
        },
    };
    proof {
        crate::node::lemma_slots_view(*node, node.slots@.len() as int);
    }
    let taken = node.take_slot(e);
    proof {
        crate::node::lemma_slots_view(*node, node.slots@.len() as int);
    }
    match taken {
        Option::Some(v) => match v {
            SlotValue::Many(cs) => {
                proof {
                    crate::node::lemma_many_view(
                        SlotValue::Many(cs),
                        SlotValue::Many(cs)->Many_0@.len() as int,
                    );
                    assert(nodes_view(cs@) =~= crate::node::many_view(
                        SlotValue::Many(cs),
                        cs@.len() as int,
                    ));
                }
                return Ok(cs);
            },
            SlotValue::One(_) => {},
        },
        Option::None => {},
    }
    // fallback: direct filtered fetch by this node's primary key
    let mut ks: Vec<u64> = Vec::new();
    ks.push(node.row.id);
    let l = limit_of(limit);
    let o = offset_of(offset);
    let rows = match store.fetch_by_fk(target, fk_col, &ks, l, o) {
        Result::Ok(rows) => rows,
        Result::Err(_) => {
            return Err(FieldError::Unavailable);
        },
    };
    let ghost tv = table_view(*store, target as int);
    let ghost id = node_view(*old(node)).row.id;
    proof {
        let p_in = |r: RowV| crate::store::fk_in(r, fk_col as int, ks@.to_set());
        let p_is = |r: RowV| fk_is(r, fk_col as int, id);
        assert forall|x: RowV| #[trigger] p_in(x) == p_is(x) by {
            assert(ks@ =~= seq![id]);
            if p_is(x) {
                assert(ks@[0] == id);
                assert(ks@.contains(id));
                assert(ks@.to_set().contains(id));
            }
            if p_in(x) {
                let k = choose|k: u64| ks@.to_set().contains(k) && fk_is(x, fk_col as int, k);
                assert(ks@.contains(k));
                assert(k == id);
            }
        }
        crate::seqs::lemma_filter_congruence(tv, p_in, p_is);
    }
    let mut children = nodes_from_rows(rows, reg.entities[target].edges.len());
    proof {
        let p_is = |r: RowV| fk_is(r, fk_col as int, id);
        crate::seqs::lemma_filter_membership(tv, p_is);
        assert forall|j: int| 0 <= j < nodes_view(children@).len() implies node_flat_wf(
            *reg,
            target as int,
            #[trigger] nodes_view(children@)[j],
        ) by {
            assert(nodes_view(children@)[j] == node_view(children@[j]));
            assert(rows_of(nodes_view(children@))[j] == node_view(children@[j]).row);
            let filtered = tv.filter(p_is);
            let paged = page(filtered, l as int, o as int);
            assert(paged.len() == rows_view(rows@).len());
            assert(node_view(children@[j]).row == paged[j]);
            assert(paged[j] == filtered[o + j]);
            assert(tv.contains(filtered[o + j]));
            let w = choose|w: int| 0 <= w < tv.len() && tv[w] == filtered[o + j];
            assert(crate::store::row_wf(reg.entities@[target as int], tv[w]));
        }
    }
    preload_children(store, reg, target, &mut children, sub, trace, 0);
    proof {
        assert(rows_of(nodes_view(children@)) =~= page(
            rows_with_fk(tv, fk_col as int, id),
            l as int,
            o as int,
        ));
    }
    Ok(children)
}

/// Resolves one entity by primary key: a single point fetch, then one
/// preload pass over the one-element parent set for the requested shape.
pub fn resolve_single(
    store: &Store,
    reg: &Registry,
    ent: usize,
    id: u64,
    sel: &Selection,
    trace: &mut Vec<BatchRequest>,
) -> (r: Result<Node, FieldError>)
    requires
        reg_wf(*reg),
        store_wf(*store, *reg),
        ent < reg.entities@.len(),
    ensures
        r is Err <==> (failing(*store, ent as int) || direct_one(
            table_view(*store, ent as int),
            id,
        ) is None),
        failing(*store, ent as int) ==> r == Result::<Node, FieldError>::Err(
            FieldError::Unavailable,
        ),
        !failing(*store, ent as int) && direct_one(table_view(*store, ent as int), id) is None
            ==> r == Result::<Node, FieldError>::Err(FieldError::NotFound),
        r is Ok ==> node_view(r->Ok_0).row == direct_one(
            table_view(*store, ent as int),
            id,
        )->Some_0,
        r is Ok ==> node_view(r->Ok_0).slots.len() == reg.entities@[ent as int].edges@.len(),
        r is Ok ==> forall|e: int|
            0 <= e < reg.entities@[ent as int].edges@.len() ==> slot_conforms(
                #[trigger] node_view(r->Ok_0).slots[e],
                SlotV::Empty,
                expected_slot(
                    *reg,
                    *store,
                    ent as int,
                    *sel,
                    seq![
                        fresh_node(
                            direct_one(table_view(*store, ent as int), id)->Some_0,
                            reg.entities@[ent as int].edges@.len() as int,
                        ),
                    ],
                    0,
                    e,
                ),
            ),
        final(trace)@.len() >= old(trace)@.len(),
        forall|t: int| 0 <= t < old(trace)@.len() ==> final(trace)@[t] == old(trace)@[t],
        forall|t: int|
            #![trigger final(trace)@[t]]
            old(trace)@.len() <= t < final(trace)@.len() ==> strictly_sorted(
                final(trace)@[t].keys@,
            ) && final(trace)@[t].edges@.len() > 0 && (forall|x: int|
                0 <= x < final(trace)@[t].edges@.len() ==> shape_mentions(
                    *reg,
                    ent as int,
                    *sel,
                    final(trace)@[t].parent_ent as int,
                    #[trigger] final(trace)@[t].edges@[x] as int,
                )),
{
    let row = match store.fetch_one(ent, id) {
        Result::Err(_) => {
            return Err(FieldError::Unavailable);
        },
        Result::Ok(opt) => match opt {
            Option::None => {
                return Err(FieldError::NotFound);
            },
            Option::Some(row) => row,
        },
    };
    let n_edges = reg.entities[ent].edges.len();
    let node = node_from_row(row, n_edges);
    let mut level: Vec<Node> = Vec::new();
    level.push(node);
    proof {
        assert(nodes_view(level@) =~= seq![node_view(level@[0])]);
        assert(node_view(level@[0]).slots =~= fresh_node(
            node_view(level@[0]).row,
            n_edges as int,
        ).slots);
        let tv = table_view(*store, ent as int);
        let p_id = |r: RowV| r.id == id;
        crate::seqs::lemma_filter_membership(tv, p_id);
        assert(node_view(level@[0]).row == tv.filter(p_id)[0]);
        assert(tv.contains(tv.filter(p_id)[0]));
        let w = choose|w: int| 0 <= w < tv.len() && tv[w] == tv.filter(p_id)[0];
        assert(crate::store::row_wf(reg.entities@[ent as int], tv[w]));
        assert(nodes_flat_wf(*reg, ent as int, nodes_view(level@)));
    }
    preload_children(store, reg, ent, &mut level, sel, trace, 0);
    let out = match level.pop() {
        Option::Some(n) => n,
        Option::None => {
            proof {
                assert(false);
            }
            crate::preload::blank_node()
        },
    };
    Ok(out)
}

/// Resolves a set of entities: one root fetch, optionally filtered by a
/// key set and a search predicate and windowed by the pagination
/// arguments, then one preload pass over the whole result set for the
/// requested shape. An empty requested key set yields an empty result
/// and no child-edge fetch at all.
pub fn resolve_multiple(
    store: &Store,
    reg: &Registry,
    ent: usize,
    ids: Option<&Vec<u64>>,
    limit: Option<usize>,
    offset: Option<usize>,
    filter: Option<&Filter>,
    sel: &Selection,
    trace: &mut Vec<BatchRequest>,
) -> (r: Result<Vec<Node>, FieldError>)
    requires
        reg_wf(*reg),
        store_wf(*store, *reg),
        ent < reg.entities@.len(),
    ensures
        r is Err <==> failing(*store, ent as int),
        r is Err ==> r == Result::<Vec<Node>, FieldError>::Err(FieldError::Unavailable),
        r is Ok ==> rows_of(nodes_view(r->Ok_0@)) == page(
            table_view(*store, ent as int).filter(
                |rv: RowV| root_pred(rv, ids_view(ids), filter_view(filter)),
            ),
            spec_limit_of(limit) as int,
            spec_offset_of(offset) as int,
        ),
        r is Ok ==> forall|j: int|
            0 <= j < r->Ok_0@.len() ==> node_view(#[trigger] r->Ok_0@[j]).slots.len()
                == reg.entities@[ent as int].edges@.len(),
        r is Ok ==> forall|j: int, e: int|
            #![trigger node_view(r->Ok_0@[j]).slots[e]]
            0 <= j < r->Ok_0@.len() && 0 <= e < reg.entities@[ent as int].edges@.len()
                ==> slot_conforms(
                node_view(r->Ok_0@[j]).slots[e],
                SlotV::Empty,
                expected_slot(
                    *reg,
                    *store,
                    ent as int,
                    *sel,
                    fresh_level(
                        rows_of(nodes_view(r->Ok_0@)),
                        reg.entities@[ent as int].edges@.len() as int,
                    ),
                    j,
                    e,
                ),
            ),
        match ids {
            Option::Some(ks) => ks@.len() == 0 && filter is None && !failing(*store, ent as int)
                ==> r is Ok && r->Ok_0@.len() == 0 && *final(trace) == *old(trace),
            Option::None => true,
        },
        final(trace)@.len() >= old(trace)@.len(),
        forall|t: int| 0 <= t < old(trace)@.len() ==> final(trace)@[t] == old(trace)@[t],
        forall|t: int|
            #![trigger final(trace)@[t]]
            old(trace)@.len() <= t < final(trace)@.len() ==> strictly_sorted(
                final(trace)@[t].keys@,
            ) && final(trace)@[t].edges@.len() > 0 && (forall|x: int|
                0 <= x < final(trace)@[t].edges@.len() ==> shape_mentions(
                    *reg,
                    ent as int,
                    *sel,
                    final(trace)@[t].parent_ent as int,
                    #[trigger] final(trace)@[t].edges@[x] as int,
                )),
{
    let rows = match store.fetch_page(ent, ids, filter, limit_of(limit), offset_of(offset)) {
        Result::Ok(rows) => rows,
        Result::Err(_) => {
            return Err(FieldError::Unavailable);
        },
    };
    let n_edges = reg.entities[ent].edges.len();
    let ghost tv = table_view(*store, ent as int);
    let ghost pred = |rv: RowV| root_pred(rv, ids_view(ids), filter_view(filter));
    let mut level = nodes_from_rows(rows, n_edges);
    let ghost fresh = nodes_view(level@);
    proof {
        crate::seqs::lemma_filter_membership(tv, pred);
        assert forall|j: int| 0 <= j < nodes_view(level@).len() implies node_flat_wf(
            *reg,
            ent as int,
            #[trigger] nodes_view(level@)[j],
        ) by {
            assert(nodes_view(level@)[j] == node_view(level@[j]));
            assert(rows_of(nodes_view(level@))[j] == node_view(level@[j]).row);
            let filtered = tv.filter(pred);
            let paged = page(filtered, spec_limit_of(limit) as int, spec_offset_of(offset) as int);
            assert(paged.len() == rows_view(rows@).len());
            assert(0 <= j < paged.len());
            assert(node_view(level@[j]).row == paged[j]);
            assert(paged[j] == filtered[spec_offset_of(offset) + j]);
            assert(tv.contains(filtered[spec_offset_of(offset) + j]));
            let w = choose|w: int|
                0 <= w < tv.len() && tv[w] == filtered[spec_offset_of(offset) + j];
            assert(crate::store::row_wf(reg.entities@[ent as int], tv[w]));
        }
        assert forall|j: int| 0 <= j < fresh.len() implies #[trigger] fresh[j] == fresh_level(
            rows_of(fresh),
            n_edges as int,
        )[j] by {
            assert(node_view(level@[j]).slots =~= fresh_node(
                node_view(level@[j]).row,
                n_edges as int,
            ).slots);
        }
        assert(fresh =~= fresh_level(rows_of(fresh), n_edges as int));
        if ids is Some && ids->0@.len() == 0 && filter is None {
            assert forall|i: int| 0 <= i < tv.len() implies !pred(tv[i]) by {
                if ids_view(ids)->0.contains(tv[i].id) {
                    assert(ids->0@.contains(tv[i].id));
                }
            }
            crate::seqs::lemma_filter_all_dropped(tv, pred);
            assert(level@.len() == 0);
        }
    }
    preload_children(store, reg, ent, &mut level, sel, trace, 0);
    proof {
        assert(rows_of(nodes_view(level@)) =~= rows_of(fresh));
    }
    Ok(level)
}

} // verus!
