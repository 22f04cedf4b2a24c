//! The preload orchestrator's data and specifications.
//!
//! For one depth level the orchestrator aggregates lookup keys across the
//! parent set, issues one batch fetch per to-many edge and one per target
//! type shared by the selected to-one edges, recurses into the fetched
//! children with their own nested selection, and fans the results back
//! into the parents' slots. Every batch request issued is recorded in a
//! trace, so a caller can see which fetches a resolution performed.

use vstd::prelude::*;
use vstd::pervasive::VecAdditionalExecFns;

use crate::descriptor::edge_at;
use crate::descriptor::edge_wf;
use crate::descriptor::reg_wf;
use crate::descriptor::valid_edge;
use crate::descriptor::Edge;
use crate::descriptor::HasMany;
use crate::descriptor::HasOne;
use crate::descriptor::Registry;
use crate::keys::insert_key;
use crate::keys::strictly_sorted;
use crate::node::clone_node;
use crate::node::find_by_id;
use crate::node::node_view;
use crate::node::nodes_from_rows;
use crate::node::nodes_view;
use crate::node::rows_of;
use crate::node::NodeV;
use crate::node::SlotV;
use crate::node::many_view;
use crate::node::value_view;
use crate::node::ValueV;
use crate::row::row_view;
use crate::row::rows_view;
use crate::row::RowV;
use crate::seqs::lemma_filter_subrange_step;
use crate::seqs::lemma_filter_whole;
use crate::shape::spec_limit_of;
use crate::shape::spec_offset_of;
use crate::shape::EdgeSel;
use crate::shape::Selection;
use crate::slot::Node;
use crate::slot::Slot;
use crate::slot::SlotValue;
use crate::store::direct_one;
use crate::store::failing;
use crate::store::fk_is;
use crate::store::page;
use crate::store::row_wf;
use crate::store::rows_with_fk;
use crate::store::rows_with_fk_in;
use crate::store::table_view;
use crate::store::store_wf;
use crate::store::Store;
use crate::Row;

verus! {

/// How a batch fetch filters its target table.
#[derive(Debug, PartialEq, Eq)]
pub enum BatchKind {
    /// A fetch by primary key, for to-one edges.
    ByIds,
    /// A fetch by a foreign-key column, for a to-many edge, with the
    /// pagination window applied to the combined result.
    ByForeignKey { col: usize, limit: usize, offset: usize },
}

/// The record of one batch fetch the orchestrator issued: which entity
/// type asked, at which depth level of the sweep, which of its selected
/// edges the fetch serves, the target entity type, and the deduplicated,
/// sorted key list used as the fetch filter.
#[derive(Debug, PartialEq, Eq)]
pub struct BatchRequest {
    pub parent_ent: usize,
    pub depth: u64,
    pub edges: Vec<usize>,
    pub target: usize,
    pub keys: Vec<u64>,
    pub kind: BatchKind,
}

/// The union of the foreign keys a parent level stores in the key
/// columns of the first `i` edges of the list.
pub open spec fn edges_fk_union(
    reg: Registry,
    ent: int,
    olds: Seq<NodeV>,
    edges: Seq<usize>,
    i: int,
) -> Set<u64>
    decreases i,
{
    if i <= 0 || i > edges.len() {
        Set::empty()
    } else {
        edges_fk_union(reg, ent, olds, edges, i - 1) + one_keys(
            olds,
            edge_at(reg, ent, edges[i - 1] as int)->One_0.key_col as int,
        )
    }
}

/// The depth the recursion into a fetched child level runs at.
pub open spec fn spec_next_depth(depth: u64) -> u64 {
    if depth == u64::MAX {
        depth
    } else {
        (depth + 1) as u64
    }
}

/// What a batch request recorded by a level itself must look like. A
/// to-many request serves exactly one selected to-many edge: it filters
/// the edge's target table on the edge's foreign-key column by the
/// level's deduplicated parent primary keys, windowed by the pagination
/// arguments of the edge's first selected occurrence. A by-primary-key
/// request serves a group of selected to-one edges that all share its
/// target type — the whole group, no selected edge of that target left
/// out — and its key list is exactly the union of the foreign keys those
/// edges hold across the level's parents.
#[verifier::opaque]
pub open spec fn level_request(
    reg: Registry,
    ent: int,
    sel: Selection,
    olds: Seq<NodeV>,
    req: BatchRequest,
) -> bool {
    &&& req.parent_ent == ent
    &&& match req.kind {
        BatchKind::ByForeignKey { col, limit, offset } => {
            &&& req.edges@.len() == 1
            &&& valid_edge(reg, ent, req.edges@[0] as int)
            &&& edge_at(reg, ent, req.edges@[0] as int) is Many
            &&& sel.selects(req.edges@[0])
            &&& col == edge_at(reg, ent, req.edges@[0] as int)->Many_0.fk_col
            &&& req.target == edge_at(reg, ent, req.edges@[0] as int)->Many_0.target
            &&& limit == spec_limit_of(sel.edges@[sel.first_sel(req.edges@[0])].limit)
            &&& offset == spec_offset_of(sel.edges@[sel.first_sel(req.edges@[0])].offset)
            &&& req.keys@.to_set() == parent_ids(olds)
        },
        BatchKind::ByIds => {
            &&& forall|x: int|
                0 <= x < req.edges@.len() ==> valid_edge(reg, ent, #[trigger] req.edges@[x] as int)
            &&& forall|x: int|
                0 <= x < req.edges@.len() ==> edge_at(
                    reg,
                    ent,
                    #[trigger] req.edges@[x] as int,
                ) is One
            &&& forall|x: int| 0 <= x < req.edges@.len() ==> sel.selects(#[trigger] req.edges@[x])
            &&& forall|x: int|
                0 <= x < req.edges@.len() ==> edge_at(
                    reg,
                    ent,
                    #[trigger] req.edges@[x] as int,
                )->One_0.target == req.target
            &&& forall|e2: int|
                #![trigger edge_at(reg, ent, e2)]
                0 <= e2 < reg.entities@[ent].edges@.len() && edge_at(reg, ent, e2) is One
                    && edge_at(reg, ent, e2)->One_0.target == req.target && sel.selects(
                    e2 as usize,
                ) ==> exists|x: int| 0 <= x < req.edges@.len() && #[trigger] req.edges@[x] as int
                    == e2
            &&& req.keys@.to_set() == edges_fk_union(
                reg,
                ent,
                olds,
                req.edges@,
                req.edges@.len() as int,
            )
        },
    }
}

/// Two batch requests recorded by one level never serve the same work:
/// to-many requests serve distinct edges, and by-primary-key requests
/// serve distinct target types.
pub open spec fn distinct_level_requests(a: BatchRequest, b: BatchRequest) -> bool {
    &&& (a.kind is ByForeignKey && b.kind is ByForeignKey && a.edges@.len() > 0
        && b.edges@.len() > 0 ==> a.edges@[0] != b.edges@[0])
    &&& (a.kind is ByIds && b.kind is ByIds ==> a.target != b.target)
}

/// A node model carries the columns its entity type declares and one
/// slot per declared edge.
pub open spec fn node_flat_wf(reg: Registry, ent: int, nv: NodeV) -> bool {
    row_wf(reg.entities@[ent], nv.row) && nv.slots.len() == reg.entities@[ent].edges@.len()
}

/// Every node of the level carries the declared columns and slots.
pub open spec fn nodes_flat_wf(reg: Registry, ent: int, nvs: Seq<NodeV>) -> bool {
    forall|j: int| 0 <= j < nvs.len() ==> node_flat_wf(reg, ent, #[trigger] nvs[j])
}

/// The primary keys of a parent level.
pub open spec fn parent_ids(olds: Seq<NodeV>) -> Set<u64> {
    Set::new(|k: u64| exists|j: int| 0 <= j < olds.len() && olds[j].row.id == k)
}

/// The foreign keys a parent level stores in one key column.
pub open spec fn one_keys(olds: Seq<NodeV>, key_col: int) -> Set<u64> {
    Set::new(
        |k: u64|
            exists|j: int|
                0 <= j < olds.len() && 0 <= key_col < olds[j].row.keys.len()
                    && olds[j].row.keys[key_col] == Some(k),
    )
}

/// What one slot should look like after a preload pass, at row
/// granularity.
pub ghost enum SlotShape {
    /// The pass leaves the slot as it was.
    Unchanged,
    /// The slot holds a single child with this row.
    OneOf(RowV),
    /// The slot holds children with exactly these rows, in fetch order.
    ManyOf(Seq<RowV>),
}

/// Whether a slot value conforms to the expected shape, given its prior
/// value.
pub open spec fn slot_conforms(new: SlotV, old: SlotV, exp: SlotShape) -> bool {
    match exp {
        SlotShape::Unchanged => new == old,
        SlotShape::OneOf(rv) => new is Filled && new->Filled_0 is One && new->Filled_0->One_0.row
            == rv,
        SlotShape::ManyOf(rs) => new is Filled && new->Filled_0 is Many && rows_of(
            new->Filled_0->Many_0,
        ) == rs,
    }
}

/// The shape a to-one preload gives one parent's slot: the parent's
/// foreign key resolves through the target table to its unique row, or
/// the slot is left alone when the key is null, the row is absent, the
/// table is failing, or the slot was not empty.
#[verifier::opaque]
pub open spec fn one_shape(store: Store, o: HasOne, fk: Option<u64>, old_s: SlotV) -> SlotShape {
    if !(old_s is Empty) || failing(store, o.target as int) {
        SlotShape::Unchanged
    } else {
        match fk {
            Option::None => SlotShape::Unchanged,
            Option::Some(k) => match direct_one(table_view(store, o.target as int), k) {
                Option::None => SlotShape::Unchanged,
                Option::Some(rv) => SlotShape::OneOf(rv),
            },
        }
    }
}

/// The shape a to-many preload gives one parent's slot: the combined
/// fetch for all parents is windowed by limit and offset first, then
/// partitioned by foreign-key value; a parent whose bucket is empty
/// keeps an empty slot and will fall back.
#[verifier::opaque]
pub open spec fn many_shape(
    store: Store,
    m: HasMany,
    limit: int,
    offset: int,
    ids: Set<u64>,
    id_j: u64,
    old_s: SlotV,
) -> SlotShape {
    if !(old_s is Empty) || failing(store, m.target as int) {
        SlotShape::Unchanged
    } else {
        let paged = page(
            rows_with_fk_in(table_view(store, m.target as int), m.fk_col as int, ids),
            limit,
            offset,
        );
        let bucket = rows_with_fk(paged, m.fk_col as int, id_j);
        if bucket.len() == 0 {
            SlotShape::Unchanged
        } else {
            SlotShape::ManyOf(bucket)
        }
    }
}

/// What a full preload pass over a level leaves in slot `e` of parent
/// `j`: nothing for an edge the shape does not select (or that does not
/// exist), and the one- or many-shape for a selected edge, computed from
/// the level's parents as a whole.
#[verifier::opaque]
pub open spec fn expected_slot(
    reg: Registry,
    store: Store,
    ent: int,
    sel: Selection,
    olds: Seq<NodeV>,
    j: int,
    e: int,
) -> SlotShape {
    if !valid_edge(reg, ent, e) || !sel.selects(e as usize) {
        SlotShape::Unchanged
    } else {
        match edge_at(reg, ent, e) {
            Edge::One(o) => one_shape(store, o, olds[j].row.keys[o.key_col as int], olds[j].slots[e]),
            Edge::Many(m) => {
                let si = sel.first_sel(e as usize);
                many_shape(
                    store,
                    m,
                    spec_limit_of(sel.edges@[si].limit) as int,
                    spec_offset_of(sel.edges@[si].offset) as int,
                    parent_ids(olds),
                    olds[j].row.id,
                    olds[j].slots[e],
                )
            },
        }
    }
}

/// Whether a shape, rooted at entity `ent`, asks for edge `q_edge` of
/// entity `q_ent` anywhere: at its own level, or inside the nested
/// selection of some selected edge.
pub open spec fn shape_mentions(
    reg: Registry,
    ent: int,
    sel: Selection,
    q_ent: int,
    q_edge: int,
) -> bool
    decreases sel, 1int, 0int,
{
    mentions_upto(reg, ent, sel, sel.edges@.len() as int, q_ent, q_edge)
}

/// Whether one of the first `i` selected edges is, or leads to, the
/// edge asked about.
pub open spec fn mentions_upto(
    reg: Registry,
    ent: int,
    sel: Selection,
    i: int,
    q_ent: int,
    q_edge: int,
) -> bool
    decreases sel, 0int, i,
{
    if i <= 0 || i > sel.edges@.len() {
        false
    } else {
        let es = sel.edges@[i - 1];
        let here = q_ent == ent && valid_edge(reg, ent, es.edge as int) && es.edge as int
            == q_edge;
        let deeper = valid_edge(reg, ent, es.edge as int) && shape_mentions(
            reg,
            edge_at(reg, ent, es.edge as int).spec_target() as int,
            es.sub,
            q_ent,
            q_edge,
        );
        here || deeper || mentions_upto(reg, ent, sel, i - 1, q_ent, q_edge)
    }
}

/// A shape mentions what an earlier prefix of it mentions.
pub proof fn lemma_mentions_monotone(
    reg: Registry,
    ent: int,
    sel: Selection,
    i: int,
    j: int,
    q_ent: int,
    q_edge: int,
)
    requires
        0 <= i <= j <= sel.edges@.len(),
        mentions_upto(reg, ent, sel, i, q_ent, q_edge),
    ensures
        mentions_upto(reg, ent, sel, j, q_ent, q_edge),
    decreases j - i,
{
    if i < j {
        lemma_mentions_monotone(reg, ent, sel, i, j - 1, q_ent, q_edge);
    }
}

/// Collects the sorted, deduplicated primary keys of a parent level.
pub fn collect_parent_ids(nodes: &Vec<Node>) -> (ks: Vec<u64>)
    ensures
        strictly_sorted(ks@),
        ks@.to_set() == parent_ids(nodes_view(nodes@)),
        nodes@.len() == 0 ==> ks@.len() == 0,
{
    let ghost views = nodes_view(nodes@);
    let mut ks: Vec<u64> = Vec::new();
    let mut j: usize = 0;
    while j < nodes.len()
        invariant
            j <= nodes@.len(),
            views == nodes_view(nodes@),
            strictly_sorted(ks@),
            forall|k: u64|
                ks@.to_set().contains(k) ==> exists|j2: int|
                    0 <= j2 < j && #[trigger] views[j2].row.id == k,
            forall|j2: int| 0 <= j2 < j ==> ks@.to_set().contains(#[trigger] views[j2].row.id),
            nodes@.len() == 0 ==> ks@.len() == 0,
        decreases nodes@.len() - j,
    {
        insert_key(&mut ks, nodes[j].row.id);
        proof {
            assert(views[j as int].row.id == node_view(nodes@[j as int]).row.id);
        }
        j += 1;
    }
    proof {
        assert(ks@.to_set() =~= parent_ids(views)) by {
            assert forall|k: u64| ks@.to_set().contains(k) implies parent_ids(views).contains(
                k,
            ) by {
                let j2 = choose|j2: int|
                    0 <= j2 < nodes@.len() && #[trigger] views[j2].row.id == k;
            }
            assert forall|k: u64| parent_ids(views).contains(k) implies ks@.to_set().contains(
                k,
            ) by {
                let j2 = choose|j2: int| 0 <= j2 < views.len() && views[j2].row.id == k;
                assert(ks@.to_set().contains(views[j2].row.id));
            }
        }
    }
    ks
}

/// Adds a parent level's foreign keys from one key column into a sorted,
/// deduplicated key list; null keys contribute nothing.
pub fn add_one_keys(ks: &mut Vec<u64>, nodes: &Vec<Node>, key_col: usize)
    requires
        strictly_sorted(old(ks)@),
        forall|j: int|
            0 <= j < nodes@.len() ==> key_col < node_view(#[trigger] nodes@[j]).row.keys.len(),
    ensures
        strictly_sorted(final(ks)@),
        final(ks)@.to_set() == old(ks)@.to_set() + one_keys(nodes_view(nodes@), key_col as int),
        nodes@.len() == 0 ==> final(ks)@ == old(ks)@,
{
    let ghost views = nodes_view(nodes@);
    let ghost base = ks@.to_set();
    let mut j: usize = 0;
    while j < nodes.len()
        invariant
            j <= nodes@.len(),
            views == nodes_view(nodes@),
            forall|j2: int| 0 <= j2 < views.len() ==> key_col < #[trigger] views[j2].row.keys.len(),
            strictly_sorted(ks@),
            forall|k: u64|
                ks@.to_set().contains(k) ==> base.contains(k) || exists|j2: int|
                    0 <= j2 < j && #[trigger] views[j2].row.keys[key_col as int] == Some(k),
            forall|k: u64| base.contains(k) ==> ks@.to_set().contains(k),
            forall|j2: int, k: u64|
                #![trigger views[j2].row.keys[key_col as int], ks@.to_set().contains(k)]
                0 <= j2 < j && views[j2].row.keys[key_col as int] == Some(k)
                    ==> ks@.to_set().contains(k),
            nodes@.len() == 0 ==> ks@ == old(ks)@,
        decreases nodes@.len() - j,
    {
        proof {
            assert(views[j as int] == node_view(nodes@[j as int]));
            assert(key_col < views[j as int].row.keys.len());
            assert(node_view(nodes@[j as int]).row == row_view(nodes@[j as int].row));
            assert(row_view(nodes@[j as int].row).keys == nodes@[j as int].row.keys@);
        }
        match nodes[j].row.keys[key_col] {
            Option::Some(k) => {
                insert_key(ks, k);
                proof {
                    assert(views[j as int].row.keys[key_col as int] == Some(k));
                }
            },
            Option::None => {},
        }
        j += 1;
    }
    proof {
        assert(ks@.to_set() =~= base + one_keys(views, key_col as int)) by {
            assert forall|k: u64| ks@.to_set().contains(k) implies (base + one_keys(
                views,
                key_col as int,
            )).contains(k) by {
                if !base.contains(k) {
                    let j2 = choose|j2: int|
                        0 <= j2 < nodes@.len() && #[trigger] views[j2].row.keys[key_col as int]
                            == Some(k);
                    assert(one_keys(views, key_col as int).contains(k));
                }
            }
            assert forall|k: u64| (base + one_keys(views, key_col as int)).contains(
                k,
            ) implies ks@.to_set().contains(k) by {
                if !base.contains(k) {
                    let j2 = choose|j2: int|
                        0 <= j2 < views.len() && 0 <= key_col < views[j2].row.keys.len()
                            && views[j2].row.keys[key_col as int] == Some(k);
                }
            }
        }
    }
}

/// Keeps the fetched rows whose primary key is in the key list, in fetch
/// order.
pub fn filter_rows_by_ids(rows: &Vec<Row>, ks: &Vec<u64>) -> (r: Vec<Row>)
    ensures
        rows_view(r@) == rows_view(rows@).filter(|rv: RowV| ks@.to_set().contains(rv.id)),
{
    let ghost rv = rows_view(rows@);
    let ghost p = |r: RowV| ks@.to_set().contains(r.id);
    let mut out: Vec<Row> = Vec::new();
    let mut i: usize = 0;
    while i < rows.len()
        invariant
            i <= rows@.len(),
            rv == rows_view(rows@),
            rv.len() == rows@.len(),
            p == (|r: RowV| ks@.to_set().contains(r.id)),
            rows_view(out@) == rv.subrange(0, i as int).filter(p),
        decreases rows@.len() - i,
    {
        proof {
            lemma_filter_subrange_step(rv, p, i as int);
        }
        if crate::store::contains_key(ks, rows[i].id) {
            out.push(rows[i].duplicate());
            proof {
                assert(rows_view(out@) =~= rv.subrange(0, i + 1).filter(p));
            }
        }
        i += 1;
    }
    proof {
        lemma_filter_whole(rv, p);
    }
    out
}

/// Collects one parent's bucket: deep copies of the children whose
/// foreign-key column holds the parent's primary key, in fetch order;
/// a property `p` of every child carries over to the copies.
fn collect_bucket(
    children: &Vec<Node>,
    fk_col: usize,
    id: u64,
    Ghost(p): Ghost<spec_fn(NodeV) -> bool>,
) -> (b: Vec<Node>)
    requires
        forall|ci: int| 0 <= ci < children@.len() ==> p(node_view(#[trigger] children@[ci])),
    ensures
        rows_of(nodes_view(b@)) == rows_with_fk(
            rows_of(nodes_view(children@)),
            fk_col as int,
            id,
        ),
        forall|x: int| 0 <= x < b@.len() ==> p(node_view(#[trigger] b@[x])),
{
    let ghost cv = rows_of(nodes_view(children@));
    let ghost p2 = |r: RowV| fk_is(r, fk_col as int, id);
    let mut out: Vec<Node> = Vec::new();
    let mut i: usize = 0;
    while i < children.len()
        invariant
            i <= children@.len(),
            cv == rows_of(nodes_view(children@)),
            cv.len() == children@.len(),
            p2 == (|r: RowV| fk_is(r, fk_col as int, id)),
            rows_of(nodes_view(out@)) == cv.subrange(0, i as int).filter(p2),
            forall|ci: int| 0 <= ci < children@.len() ==> p(node_view(#[trigger] children@[ci])),
            forall|x: int| 0 <= x < out@.len() ==> p(node_view(#[trigger] out@[x])),
        decreases children@.len() - i,
    {
        proof {
            lemma_filter_subrange_step(cv, p2, i as int);
            assert(cv[i as int] == node_view(children@[i as int]).row);
        }
        if children[i].row.has_fk(fk_col, id) {
            out.push(clone_node(&children[i]));
            proof {
                assert(rows_of(nodes_view(out@)) =~= cv.subrange(0, i + 1).filter(p2));
                assert(node_view(out@[out@.len() - 1]) == node_view(children@[i as int]));
                assert(p(node_view(out@[out@.len() - 1])));
            }
        }
        i += 1;
    }
    proof {
        lemma_filter_whole(cv, p2);
    }
    out
}

/// The shape fanning a fetched child set into one parent's to-one slot
/// gives it: the first child carrying the parent's foreign key, if any.
#[verifier::opaque]
pub open spec fn fan_one_shape(crows: Seq<RowV>, fk: Option<u64>, old_s: SlotV) -> SlotShape {
    if !(old_s is Empty) {
        SlotShape::Unchanged
    } else {
        match fk {
            Option::None => SlotShape::Unchanged,
            Option::Some(k) => match direct_one(crows, k) {
                Option::None => SlotShape::Unchanged,
                Option::Some(rv) => SlotShape::OneOf(rv),
            },
        }
    }
}

/// The shape fanning a fetched child set into one parent's to-many slot
/// gives it: the children carrying the parent's primary key, in fetch
/// order, or nothing when there are none.
#[verifier::opaque]
pub open spec fn fan_many_shape(crows: Seq<RowV>, fk_col: int, id_j: u64, old_s: SlotV) -> SlotShape {
    if !(old_s is Empty) {
        SlotShape::Unchanged
    } else {
        let bucket = rows_with_fk(crows, fk_col, id_j);
        if bucket.len() == 0 {
            SlotShape::Unchanged
        } else {
            SlotShape::ManyOf(bucket)
        }
    }
}

/// A placeholder node used while an element is lifted out of the parent
/// vector.
pub(crate) fn blank_node() -> Node {
    Node { row: Row { id: 0, keys: Vec::new(), texts: Vec::new() }, slots: Vec::new() }
}

/// Fans a fetched child set into the parents' slots for one to-one edge:
/// each parent whose slot is still empty and whose foreign key matches a
/// child receives a deep copy of the first such child. Any property `p`
/// that holds of every fetched child holds of the child placed in a
/// slot.
fn fan_in_one(
    nodes: &mut Vec<Node>,
    e: usize,
    key_col: usize,
    children: &Vec<Node>,
    Ghost(p): Ghost<spec_fn(NodeV) -> bool>,
)
    requires
        forall|ci: int| 0 <= ci < children@.len() ==> p(node_view(#[trigger] children@[ci])),
        forall|j: int|
            0 <= j < old(nodes)@.len() ==> e < node_view(#[trigger] old(nodes)@[j]).slots.len(),
        forall|j: int|
            0 <= j < old(nodes)@.len() ==> key_col < node_view(
                #[trigger] old(nodes)@[j],
            ).row.keys.len(),
    ensures
        final(nodes)@.len() == old(nodes)@.len(),
        forall|j: int|
            0 <= j < old(nodes)@.len() ==> node_view(#[trigger] final(nodes)@[j]).row
                == node_view(old(nodes)@[j]).row,
        forall|j: int|
            0 <= j < old(nodes)@.len() ==> node_view(#[trigger] final(nodes)@[j]).slots.len()
                == node_view(old(nodes)@[j]).slots.len(),
        forall|j: int, e2: int|
            #![trigger node_view(final(nodes)@[j]).slots[e2]]
            0 <= j < old(nodes)@.len() && 0 <= e2 < node_view(old(nodes)@[j]).slots.len() && e2
                != e ==> node_view(final(nodes)@[j]).slots[e2] == node_view(
                old(nodes)@[j],
            ).slots[e2],
        forall|j: int|
            0 <= j < old(nodes)@.len() ==> slot_conforms(
                node_view(#[trigger] final(nodes)@[j]).slots[e as int],
                node_view(old(nodes)@[j]).slots[e as int],
                fan_one_shape(
                    rows_of(nodes_view(children@)),
                    node_view(old(nodes)@[j]).row.keys[key_col as int],
                    node_view(old(nodes)@[j]).slots[e as int],
                ),
            ),
        forall|j: int|
            #![trigger node_view(final(nodes)@[j])]
            0 <= j < old(nodes)@.len() && node_view(old(nodes)@[j]).slots[e as int] is Empty
                && node_view(final(nodes)@[j]).slots[e as int] is Filled ==> node_view(
                final(nodes)@[j],
            ).slots[e as int]->Filled_0 is One && p(
                node_view(final(nodes)@[j]).slots[e as int]->Filled_0->One_0,
            ),
{
    let ghost olds = old(nodes)@;
    let ghost crows = rows_of(nodes_view(children@));
    let mut j: usize = 0;
    while j < nodes.len()
        invariant
            nodes@.len() == olds.len(),
            crows == rows_of(nodes_view(children@)),
            j <= olds.len(),
            forall|ci: int|
                0 <= ci < children@.len() ==> p(node_view(#[trigger] children@[ci])),
            forall|j2: int|
                #![trigger node_view(nodes@[j2])]
                0 <= j2 < j && node_view(olds[j2]).slots[e as int] is Empty && node_view(
                    nodes@[j2],
                ).slots[e as int] is Filled ==> node_view(nodes@[j2]).slots[
                e as int
            ]->Filled_0 is One && p(node_view(nodes@[j2]).slots[e as int]->Filled_0->One_0),
            forall|j2: int|
                0 <= j2 < olds.len() ==> e < node_view(#[trigger] olds[j2]).slots.len(),
            forall|j2: int|
                0 <= j2 < olds.len() ==> key_col < node_view(#[trigger] olds[j2]).row.keys.len(),
            forall|j2: int| j <= j2 < olds.len() ==> #[trigger] nodes@[j2] == olds[j2],
            forall|j2: int|
                0 <= j2 < j ==> node_view(#[trigger] nodes@[j2]).row == node_view(olds[j2]).row,
            forall|j2: int|
                0 <= j2 < j ==> node_view(#[trigger] nodes@[j2]).slots.len() == node_view(
                    olds[j2],
                ).slots.len(),
            forall|j2: int, e2: int|
                #![trigger node_view(nodes@[j2]).slots[e2]]
                0 <= j2 < j && 0 <= e2 < node_view(olds[j2]).slots.len() && e2 != e ==> node_view(
                    nodes@[j2],
                ).slots[e2] == node_view(olds[j2]).slots[e2],
            forall|j2: int|
                0 <= j2 < j ==> slot_conforms(
                    node_view(#[trigger] nodes@[j2]).slots[e as int],
                    node_view(olds[j2]).slots[e as int],
                    fan_one_shape(
                        crows,
                        node_view(olds[j2]).row.keys[key_col as int],
                        node_view(olds[j2]).slots[e as int],
                    ),
                ),
        decreases olds.len() - j,
    {
        proof {
            reveal(fan_one_shape);
            crate::node::lemma_slots_view(nodes@[j as int], nodes@[j as int].slots@.len() as int);
        }
        let is_empty = match &nodes[j].slots[e] {
            Slot::Empty => true,
            _ => false,
        };
        if is_empty {
            match nodes[j].row.keys[key_col] {
                Option::Some(k) => {
                    match find_by_id(children, k) {
                        Option::Some(ci) => {
                            proof {
                                assert(crows[ci as int] == node_view(children@[ci as int]).row);
                                assert(forall|j2: int|
                                    0 <= j2 < ci ==> crows[j2] == node_view(
                                        #[trigger] children@[j2],
                                    ).row);
                                crate::seqs::lemma_filter_first(
                                    crows,
                                    |r: RowV| r.id == k,
                                    ci as int,
                                );
                            }
                            let child = clone_node(&children[ci]);
                            let ghost childv = node_view(child);
                            let mut nd = blank_node();
                            nodes.set_and_swap(j, &mut nd);
                            nd.fill_slot(e, SlotValue::One(child));
                            nodes.set(j, nd);
                            proof {
                                crate::node::lemma_slots_view(
                                    nodes@[j as int],
                                    nodes@[j as int].slots@.len() as int,
                                );
                                crate::node::lemma_slots_view(
                                    olds[j as int],
                                    olds[j as int].slots@.len() as int,
                                );
                                assert(node_view(nodes@[j as int]).slots[e as int]
                                    == SlotV::Filled(ValueV::One(childv)));
                                assert(childv == node_view(children@[ci as int]));
                                assert(p(childv));
                            }
                        },
                        Option::None => {
                            proof {
                                assert(forall|j2: int|
                                    0 <= j2 < crows.len() ==> crows[j2] == node_view(
                                        #[trigger] children@[j2],
                                    ).row);
                                crate::seqs::lemma_filter_all_dropped(crows, |r: RowV| r.id == k);
                            }
                        },
                    }
                },
                Option::None => {},
            }
        }
        j += 1;
    }
}

/// Fans a fetched child set into the parents' slots for one to-many
/// edge: each parent whose slot is still empty and whose bucket is not
/// empty receives deep copies of its children, in fetch order. Any
/// property `p` that holds of every fetched child holds of every child
/// placed in a slot.
fn fan_in_many(
    nodes: &mut Vec<Node>,
    e: usize,
    fk_col: usize,
    children: &Vec<Node>,
    Ghost(p): Ghost<spec_fn(NodeV) -> bool>,
)
    requires
        forall|ci: int| 0 <= ci < children@.len() ==> p(node_view(#[trigger] children@[ci])),
        forall|j: int|
            0 <= j < old(nodes)@.len() ==> e < node_view(#[trigger] old(nodes)@[j]).slots.len(),
    ensures
        final(nodes)@.len() == old(nodes)@.len(),
        forall|j: int|
            0 <= j < old(nodes)@.len() ==> node_view(#[trigger] final(nodes)@[j]).row
                == node_view(old(nodes)@[j]).row,
        forall|j: int|
            0 <= j < old(nodes)@.len() ==> node_view(#[trigger] final(nodes)@[j]).slots.len()
                == node_view(old(nodes)@[j]).slots.len(),
        forall|j: int, e2: int|
            #![trigger node_view(final(nodes)@[j]).slots[e2]]
            0 <= j < old(nodes)@.len() && 0 <= e2 < node_view(old(nodes)@[j]).slots.len() && e2
                != e ==> node_view(final(nodes)@[j]).slots[e2] == node_view(
                old(nodes)@[j],
            ).slots[e2],
        forall|j: int|
            0 <= j < old(nodes)@.len() ==> slot_conforms(
                node_view(#[trigger] final(nodes)@[j]).slots[e as int],
                node_view(old(nodes)@[j]).slots[e as int],
                fan_many_shape(
                    rows_of(nodes_view(children@)),
                    fk_col as int,
                    node_view(old(nodes)@[j]).row.id,
                    node_view(old(nodes)@[j]).slots[e as int],
                ),
            ),
        forall|j: int|
            #![trigger node_view(final(nodes)@[j])]
            0 <= j < old(nodes)@.len() && node_view(old(nodes)@[j]).slots[e as int] is Empty
                && node_view(final(nodes)@[j]).slots[e as int] is Filled ==> node_view(
                final(nodes)@[j],
            ).slots[e as int]->Filled_0 is Many && (forall|x: int|
                #![trigger node_view(final(nodes)@[j]).slots[e as int]->Filled_0->Many_0[x]]
                0 <= x < node_view(final(nodes)@[j]).slots[e as int]->Filled_0->Many_0.len()
                    ==> p(node_view(final(nodes)@[j]).slots[e as int]->Filled_0->Many_0[x])),
{
    let ghost olds = old(nodes)@;
    let ghost crows = rows_of(nodes_view(children@));
    let mut j: usize = 0;
    while j < nodes.len()
        invariant
            nodes@.len() == olds.len(),
            crows == rows_of(nodes_view(children@)),
            j <= olds.len(),
            forall|ci: int|
                0 <= ci < children@.len() ==> p(node_view(#[trigger] children@[ci])),
            forall|j2: int|
                #![trigger node_view(nodes@[j2])]
                0 <= j2 < j && node_view(olds[j2]).slots[e as int] is Empty && node_view(
                    nodes@[j2],
                ).slots[e as int] is Filled ==> node_view(nodes@[j2]).slots[
                e as int
            ]->Filled_0 is Many && (forall|x: int|
                #![trigger node_view(nodes@[j2]).slots[e as int]->Filled_0->Many_0[x]]
                0 <= x < node_view(nodes@[j2]).slots[e as int]->Filled_0->Many_0.len()
                    ==> p(node_view(nodes@[j2]).slots[e as int]->Filled_0->Many_0[x])),
            forall|j2: int|
                0 <= j2 < olds.len() ==> e < node_view(#[trigger] olds[j2]).slots.len(),
            forall|j2: int| j <= j2 < olds.len() ==> #[trigger] nodes@[j2] == olds[j2],
            forall|j2: int|
                0 <= j2 < j ==> node_view(#[trigger] nodes@[j2]).row == node_view(olds[j2]).row,
            forall|j2: int|
                0 <= j2 < j ==> node_view(#[trigger] nodes@[j2]).slots.len() == node_view(
                    olds[j2],
                ).slots.len(),
            forall|j2: int, e2: int|
                #![trigger node_view(nodes@[j2]).slots[e2]]
                0 <= j2 < j && 0 <= e2 < node_view(olds[j2]).slots.len() && e2 != e ==> node_view(
                    nodes@[j2],
                ).slots[e2] == node_view(olds[j2]).slots[e2],
            forall|j2: int|
                0 <= j2 < j ==> slot_conforms(
                    node_view(#[trigger] nodes@[j2]).slots[e as int],
                    node_view(olds[j2]).slots[e as int],
                    fan_many_shape(
                        crows,
                        fk_col as int,
                        node_view(olds[j2]).row.id,
                        node_view(olds[j2]).slots[e as int],
                    ),
                ),
        decreases olds.len() - j,
    {
        proof {
            reveal(fan_many_shape);
            crate::node::lemma_slots_view(nodes@[j as int], nodes@[j as int].slots@.len() as int);
        }
        let is_empty = match &nodes[j].slots[e] {
            Slot::Empty => true,
            _ => false,
        };
        if is_empty {
            let bucket = collect_bucket(children, fk_col, nodes[j].row.id, Ghost(p));
            if bucket.len() > 0 {
                let ghost bviews = nodes_view(bucket@);
                let value = SlotValue::Many(bucket);
                proof {
                    crate::node::lemma_many_view(value, value->Many_0@.len() as int);
                    assert(rows_of(many_view(value, value->Many_0@.len() as int)) =~= rows_of(
                        bviews,
                    ));
                    assert forall|x: int|
                        #![trigger value_view(value)->Many_0[x]]
                        0 <= x < value_view(value)->Many_0.len() implies p(
                        value_view(value)->Many_0[x],
                    ) by {
                        assert(value_view(value)->Many_0[x] == node_view(value->Many_0@[x]));
                        assert(nodes_view(value->Many_0@)[x] == node_view(value->Many_0@[x]));
                    }
                }
                let mut nd = blank_node();
                nodes.set_and_swap(j, &mut nd);
                nd.fill_slot(e, value);
                nodes.set(j, nd);
                proof {
                    crate::node::lemma_slots_view(
                        nodes@[j as int],
                        nodes@[j as int].slots@.len() as int,
                    );
                    crate::node::lemma_slots_view(
                        olds[j as int],
                        olds[j as int].slots@.len() as int,
                    );
                    assert(node_view(nodes@[j as int]).slots[e as int] == SlotV::Filled(
                        value_view(value),
                    ));
                    assert forall|x: int|
                        #![trigger node_view(nodes@[j as int]).slots[e as int]->Filled_0->Many_0[x]]
                        0 <= x < node_view(nodes@[j as int]).slots[
                            e as int
                        ]->Filled_0->Many_0.len() implies p(
                        node_view(nodes@[j as int]).slots[e as int]->Filled_0->Many_0[x],
                    ) by {
                        assert(node_view(nodes@[j as int]).slots[e as int]->Filled_0->Many_0[x]
                            == value_view(value)->Many_0[x]);
                    }
                }
            }
        }
        j += 1;
    }
}

/// Copies a key list.
fn dup_keys(ks: &Vec<u64>) -> (r: Vec<u64>)
    ensures
        r@ == ks@,
{
    let mut out: Vec<u64> = Vec::new();
    let mut i: usize = 0;
    while i < ks.len()
        invariant
            i <= ks@.len(),
            out@ == ks@.subrange(0, i as int),
        decreases ks@.len() - i,
    {
        out.push(ks[i]);
        proof {
            assert(out@ =~= ks@.subrange(0, i + 1));
        }
        i += 1;
    }
    proof {
        assert(out@ =~= ks@);
    }
    out
}

/// Two levels with the same rows aggregate the same keys.
proof fn lemma_level_keys(a: Seq<NodeV>, b: Seq<NodeV>)
    requires
        a.len() == b.len(),
        forall|j: int| 0 <= j < a.len() ==> #[trigger] a[j].row == b[j].row,
    ensures
        parent_ids(a) == parent_ids(b),
        forall|c: int| #[trigger] one_keys(a, c) == one_keys(b, c),
{
    assert(parent_ids(a) =~= parent_ids(b)) by {
        assert forall|k: u64| parent_ids(a).contains(k) implies parent_ids(b).contains(k) by {
            let j = choose|j: int| 0 <= j < a.len() && a[j].row.id == k;
            assert(b[j].row.id == k);
        }
        assert forall|k: u64| parent_ids(b).contains(k) implies parent_ids(a).contains(k) by {
            let j = choose|j: int| 0 <= j < b.len() && b[j].row.id == k;
            assert(a[j].row.id == k);
        }
    }
    assert forall|c: int| #[trigger] one_keys(a, c) == one_keys(b, c) by {
        assert(one_keys(a, c) =~= one_keys(b, c)) by {
            assert forall|k: u64| one_keys(a, c).contains(k) implies one_keys(b, c).contains(
                k,
            ) by {
                let j = choose|j: int|
                    0 <= j < a.len() && 0 <= c < a[j].row.keys.len() && a[j].row.keys[c] == Some(
                        k,
                    );
                assert(b[j].row.keys[c] == Some(k));
            }
            assert forall|k: u64| one_keys(b, c).contains(k) implies one_keys(a, c).contains(
                k,
            ) by {
                let j = choose|j: int|
                    0 <= j < b.len() && 0 <= c < b[j].row.keys.len() && b[j].row.keys[c] == Some(
                        k,
                    );
                assert(a[j].row.keys[c] == Some(k));
            }
        }
    }
}

/// Preloads one to-many edge for a parent level: one fetch filtered by
/// the parents' deduplicated primary keys, recursion into the fetched
/// children with the edge's nested selection, then fan-in.
fn preload_to_many(
    store: &Store,
    reg: &Registry,
    ent: usize,
    nodes: &mut Vec<Node>,
    sel: &Selection,
    Ghost(si): Ghost<int>,
    es: &EdgeSel,
    m: &HasMany,
    trace: &mut Vec<BatchRequest>,
    depth: u64,
)
    requires
        reg_wf(*reg),
        store_wf(*store, *reg),
        ent < reg.entities@.len(),
        (es.edge as int) < reg.entities@[ent as int].edges@.len(),
        edge_at(*reg, ent as int, es.edge as int) == Edge::Many(*m),
        nodes_flat_wf(*reg, ent as int, nodes_view(old(nodes)@)),
        0 <= si < sel.edges@.len(),
        sel.edges@[si] == *es,
    ensures
        final(nodes)@.len() == old(nodes)@.len(),
        forall|j: int|
            0 <= j < old(nodes)@.len() ==> node_view(#[trigger] final(nodes)@[j]).row
                == node_view(old(nodes)@[j]).row,
        forall|j: int|
            0 <= j < old(nodes)@.len() ==> node_view(#[trigger] final(nodes)@[j]).slots.len()
                == node_view(old(nodes)@[j]).slots.len(),
        forall|j: int, e2: int|
            #![trigger node_view(final(nodes)@[j]).slots[e2]]
            0 <= j < old(nodes)@.len() && 0 <= e2 < node_view(old(nodes)@[j]).slots.len() && e2
                != es.edge ==> node_view(final(nodes)@[j]).slots[e2] == node_view(
                old(nodes)@[j],
            ).slots[e2],
        forall|j: int|
            0 <= j < old(nodes)@.len() ==> slot_conforms(
                node_view(#[trigger] final(nodes)@[j]).slots[es.edge as int],
                node_view(old(nodes)@[j]).slots[es.edge as int],
                many_shape(
                    *store,
                    *m,
                    spec_limit_of(es.limit) as int,
                    spec_offset_of(es.offset) as int,
                    parent_ids(nodes_view(old(nodes)@)),
                    node_view(old(nodes)@[j]).row.id,
                    node_view(old(nodes)@[j]).slots[es.edge as int],
                ),
            ),
        final(trace)@.len() >= old(trace)@.len(),
        forall|t: int| 0 <= t < old(trace)@.len() ==> final(trace)@[t] == old(trace)@[t],
        forall|t: int|
            #![trigger final(trace)@[t]]
            old(trace)@.len() <= t < final(trace)@.len() ==> strictly_sorted(
                final(trace)@[t].keys@,
            ) && final(trace)@[t].edges@.len() > 0 && (forall|x: int|
                0 <= x < final(trace)@[t].edges@.len() ==> shape_mentions(
                    *reg,
                    ent as int,
                    *sel,
                    final(trace)@[t].parent_ent as int,
                    #[trigger] final(trace)@[t].edges@[x] as int,
                )),
        old(nodes)@.len() == 0 ==> *final(trace) == *old(trace),
        forall|t: int|
            #![trigger final(trace)@[t]]
            old(trace)@.len() <= t < final(trace)@.len() ==> final(trace)@[t].depth >= depth,
        forall|t: int|
            #![trigger final(trace)@[t]]
            old(trace)@.len() < t < final(trace)@.len() && depth < u64::MAX ==> final(trace)@[t].depth > depth,
        old(nodes)@.len() > 0 ==> final(trace)@.len() > old(trace)@.len() && final(trace)@[old(trace)@.len() as int].depth == depth && final(trace)@[old(trace)@.len() as int].parent_ent
            == ent && final(trace)@[old(trace)@.len() as int].target == m.target && final(trace)@[old(trace)@.len() as int].kind == (BatchKind::ByForeignKey {
            col: m.fk_col,
            limit: spec_limit_of(es.limit),
            offset: spec_offset_of(es.offset),
        }) && final(trace)@[old(trace)@.len() as int].edges@ == seq![es.edge] && final(trace)@[old(trace)@.len() as int].keys@.to_set() == parent_ids(nodes_view(old(nodes)@)),
    decreases *es, 1int, 0int,
{
    let ghost olds = nodes_view(old(nodes)@);
    proof {
        assert(edge_wf(*reg, ent as int, edge_at(*reg, ent as int, es.edge as int)));
    }
    let ks = collect_parent_ids(nodes);
    if ks.len() == 0 {
        proof {
            assert(old(nodes)@.len() == 0) by {
                if old(nodes)@.len() > 0 {
                    assert(parent_ids(olds).contains(olds[0].row.id));
                    assert(ks@.to_set().contains(olds[0].row.id));
                    assert(ks@.contains(olds[0].row.id));
                }
            }
        }
        return ;
    }
    let limit = crate::shape::limit_of(es.limit);
    let offset = crate::shape::offset_of(es.offset);
    let mut edges_v: Vec<usize> = Vec::new();
    edges_v.push(es.edge);
    proof {
        assert(edges_v@ =~= seq![es.edge]);
    }
    let req = BatchRequest {
        parent_ent: ent,
        depth,
        edges: edges_v,
        target: m.target,
        keys: dup_keys(&ks),
        kind: BatchKind::ByForeignKey { col: m.fk_col, limit, offset },
    };
    let ghost trace0 = trace@;
    trace.push(req);
    proof {
        let t0 = trace0.len() as int;
        lemma_mentions_at(*reg, ent as int, *sel, si, ent as int, es.edge as int);
        assert forall|x: int| 0 <= x < trace@[t0].edges@.len() implies shape_mentions(
            *reg,
            ent as int,
            *sel,
            trace@[t0].parent_ent as int,
            #[trigger] trace@[t0].edges@[x] as int,
        ) by {
            assert(trace@[t0].edges@[x] == es.edge);
        }
    }
    let fetched = match store.fetch_by_fk(m.target, m.fk_col, &ks, limit, offset) {
        Result::Ok(rows) => rows,
        Result::Err(_) => {
            proof {
                reveal(many_shape);
            }
            return ;
        },
    };
    let ghost tv = table_view(*store, m.target as int);
    let ghost fk_pred = |r: RowV| crate::store::fk_in(r, m.fk_col as int, ks@.to_set());
    let ghost paged = page(
        rows_with_fk_in(tv, m.fk_col as int, ks@.to_set()),
        limit as int,
        offset as int,
    );
    let n_child_edges = reg.entities[m.target].edges.len();
    let mut children = nodes_from_rows(fetched, n_child_edges);
    proof {
        // every fetched row is a row of the target table, so it carries
        // the declared columns
        crate::seqs::lemma_filter_membership(tv, fk_pred);
        assert forall|j: int| 0 <= j < nodes_view(children@).len() implies node_flat_wf(
            *reg,
            m.target as int,
            #[trigger] nodes_view(children@)[j],
        ) by {
            assert(nodes_view(children@)[j] == node_view(children@[j]));
            assert(rows_of(nodes_view(children@))[j] == node_view(children@[j]).row);
            let filtered = rows_with_fk_in(tv, m.fk_col as int, ks@.to_set());
            assert(paged.len() == rows_view(fetched@).len());
            assert(0 <= j < paged.len());
            assert(node_view(children@[j]).row == paged[j]);
            assert(paged[j] == filtered[offset + j]);
            assert(tv.contains(filtered[offset + j]));
            let w = choose|w: int| 0 <= w < tv.len() && tv[w] == filtered[offset + j];
            assert(row_wf(reg.entities@[m.target as int], tv[w]));
        }
    }
    let next_depth = if depth == u64::MAX {
        depth
    } else {
        depth + 1
    };
    let ghost trace_mid = trace@;
    preload_children(store, reg, m.target, &mut children, &es.sub, trace, next_depth);
    proof {
        assert forall|t: int, x: int|
            trace_mid.len() <= t < trace@.len() && 0 <= x
                < trace@[t].edges@.len() implies shape_mentions(
            *reg,
            ent as int,
            *sel,
            trace@[t].parent_ent as int,
            #[trigger] trace@[t].edges@[x] as int,
        ) by {
            assert(shape_mentions(
                *reg,
                m.target as int,
                es.sub,
                trace@[t].parent_ent as int,
                trace@[t].edges@[x] as int,
            ));
            assert(edge_at(*reg, ent as int, es.edge as int).spec_target() == m.target);
            lemma_mentions_at(
                *reg,
                ent as int,
                *sel,
                si,
                trace@[t].parent_ent as int,
                trace@[t].edges@[x] as int,
            );
        }
    }
    proof {
        assert(rows_of(nodes_view(children@)) =~= paged);
        assert forall|j: int| 0 <= j < nodes@.len() implies es.edge < node_view(
            #[trigger] nodes@[j],
        ).slots.len() by {
            assert(node_flat_wf(*reg, ent as int, olds[j]));
            assert(olds[j] == node_view(nodes@[j]));
        }
    }
    // no property of the fetched children is tracked through this
    // fan-in beyond their rows
    let ghost childp = |nv: NodeV| true;
    fan_in_many(nodes, es.edge, m.fk_col, &children, Ghost(childp));
    proof {
        reveal(many_shape);
        reveal(fan_many_shape);
        let crows = rows_of(nodes_view(children@));
        assert forall|j: int| 0 <= j < olds.len() implies slot_conforms(
            node_view(#[trigger] nodes@[j]).slots[es.edge as int],
            olds[j].slots[es.edge as int],
            many_shape(
                *store,
                *m,
                limit as int,
                offset as int,
                parent_ids(olds),
                olds[j].row.id,
                olds[j].slots[es.edge as int],
            ),
        ) by {
            assert(fan_many_shape(crows, m.fk_col as int, olds[j].row.id, olds[j].slots[es.edge as int])
                == many_shape(
                *store,
                *m,
                limit as int,
                offset as int,
                parent_ids(olds),
                olds[j].row.id,
                olds[j].slots[es.edge as int],
            ));
        }
    }
}

/// The key column of a to-one edge.
fn one_key_col(reg: &Registry, ent: usize, e: usize) -> (c: usize)
    requires
        ent < reg.entities@.len(),
        (e as int) < reg.entities@[ent as int].edges@.len(),
        edge_at(*reg, ent as int, e as int) is One,
    ensures
        c == edge_at(*reg, ent as int, e as int)->One_0.key_col,
{
    match &reg.entities[ent].edges[e] {
        Edge::One(o) => o.key_col,
        Edge::Many(_) => {
            proof {
                assert(false);
            }
            0
        },
    }
}

/// Whether the group already serves this edge.
fn contains_edge(group: &Vec<usize>, sel: &Selection, e: usize) -> (r: bool)
    requires
        forall|g: int| 0 <= g < group@.len() ==> #[trigger] group@[g] < sel.edges@.len(),
    ensures
        r == exists|g: int|
            0 <= g < group@.len() && sel.edges@[#[trigger] group@[g] as int].edge == e,
{
    let mut g: usize = 0;
    while g < group.len()
        invariant
            forall|g2: int| 0 <= g2 < group@.len() ==> #[trigger] group@[g2] < sel.edges@.len(),
            g <= group@.len(),
            forall|g2: int|
                0 <= g2 < g ==> sel.edges@[#[trigger] group@[g2] as int].edge != e,
        decreases group@.len() - g,
    {
        if sel.edges[group[g]].edge == e {
            return true;
        }
        g += 1;
    }
    false
}

/// Preloads a group of to-one edges that share a target type: one fetch
/// by primary key over the union of the group's foreign keys, then, for
/// each edge, recursion into its own children with its own nested
/// selection, and fan-in.
/// The union of the foreign keys a parent level stores in the key
/// columns of the first `g` group members.
spec fn group_fk_union(
    reg: Registry,
    ent: int,
    sel: Selection,
    group: Seq<usize>,
    olds: Seq<NodeV>,
    g: int,
) -> Set<u64>
    decreases g,
{
    if g <= 0 || g > group.len() {
        Set::empty()
    } else {
        group_fk_union(reg, ent, sel, group, olds, g - 1) + one_keys(
            olds,
            edge_at(reg, ent, sel.edges@[group[g - 1] as int].edge as int)->One_0.key_col as int,
        )
    }
}

/// An edge list drawn from a member list, one for one, aggregates the
/// same foreign-key union.
proof fn lemma_union_bridge(
    reg: Registry,
    ent: int,
    sel: Selection,
    group: Seq<usize>,
    olds: Seq<NodeV>,
    edges: Seq<usize>,
    g: int,
)
    requires
        edges.len() == group.len(),
        forall|x: int| 0 <= x < group.len() ==> #[trigger] edges[x] == sel.edges@[group[x] as int].edge,
        0 <= g <= group.len(),
    ensures
        edges_fk_union(reg, ent, olds, edges, g) == group_fk_union(reg, ent, sel, group, olds, g),
    decreases g,
{
    if g > 0 {
        lemma_union_bridge(reg, ent, sel, group, olds, edges, g - 1);
    }
}

/// Two levels with the same rows aggregate the same group union.
proof fn lemma_group_union_cong(
    reg: Registry,
    ent: int,
    sel: Selection,
    group: Seq<usize>,
    a: Seq<NodeV>,
    b: Seq<NodeV>,
    g: int,
)
    requires
        forall|c: int| #[trigger] one_keys(a, c) == one_keys(b, c),
        0 <= g <= group.len(),
    ensures
        group_fk_union(reg, ent, sel, group, a, g) == group_fk_union(reg, ent, sel, group, b, g),
    decreases g,
{
    if g > 0 {
        lemma_group_union_cong(reg, ent, sel, group, a, b, g - 1);
    }
}

/// Two levels with the same rows aggregate the same group union, at
/// every prefix length.
proof fn lemma_level_keys_unions(
    reg: Registry,
    ent: int,
    sel: Selection,
    group: Seq<usize>,
    a: Seq<NodeV>,
    b: Seq<NodeV>,
)
    requires
        a.len() == b.len(),
        forall|j: int| 0 <= j < a.len() ==> #[trigger] a[j].row == b[j].row,
    ensures
        forall|g: int|
            0 <= g <= group.len() ==> #[trigger] group_fk_union(reg, ent, sel, group, a, g)
                == group_fk_union(reg, ent, sel, group, b, g),
{
    lemma_level_keys(a, b);
    assert forall|g: int| 0 <= g <= group.len() implies #[trigger] group_fk_union(
        reg,
        ent,
        sel,
        group,
        a,
        g,
    ) == group_fk_union(reg, ent, sel, group, b, g) by {
        lemma_group_union_cong(reg, ent, sel, group, a, b, g);
    }
}

#[verifier::rlimit(100)]
#[verifier::spinoff_prover]
fn preload_one_group(
    store: &Store,
    reg: &Registry,
    ent: usize,
    nodes: &mut Vec<Node>,
    sel: &Selection,
    group: &Vec<usize>,
    target: usize,
    trace: &mut Vec<BatchRequest>,
    depth: u64,
)
    requires
        reg_wf(*reg),
        store_wf(*store, *reg),
        ent < reg.entities@.len(),
        target < reg.entities@.len(),
        nodes_flat_wf(*reg, ent as int, nodes_view(old(nodes)@)),
        group@.len() > 0,
        forall|g: int| 0 <= g < group@.len() ==> #[trigger] group@[g] < sel.edges@.len(),
        forall|g: int|
            0 <= g < group@.len() ==> valid_edge(
                *reg,
                ent as int,
                sel.edges@[#[trigger] group@[g] as int].edge as int,
            ),
        forall|g: int|
            0 <= g < group@.len() ==> edge_at(
                *reg,
                ent as int,
                sel.edges@[#[trigger] group@[g] as int].edge as int,
            ) is One,
        forall|g: int|
            0 <= g < group@.len() ==> edge_at(
                *reg,
                ent as int,
                sel.edges@[#[trigger] group@[g] as int].edge as int,
            )->One_0.target == target,
        forall|g1: int, g2: int|
            #![trigger group@[g1], group@[g2]]
            0 <= g1 < g2 < group@.len() ==> sel.edges@[group@[g1] as int].edge
                != sel.edges@[group@[g2] as int].edge,
    ensures
        final(nodes)@.len() == old(nodes)@.len(),
        forall|j: int|
            0 <= j < old(nodes)@.len() ==> node_view(#[trigger] final(nodes)@[j]).row
                == node_view(old(nodes)@[j]).row,
        forall|j: int|
            0 <= j < old(nodes)@.len() ==> node_view(#[trigger] final(nodes)@[j]).slots.len()
                == node_view(old(nodes)@[j]).slots.len(),
        forall|j: int, e2: int|
            #![trigger node_view(final(nodes)@[j]).slots[e2]]
            0 <= j < old(nodes)@.len() && 0 <= e2 < node_view(old(nodes)@[j]).slots.len() && (
            forall|g: int|
                0 <= g < group@.len() ==> sel.edges@[#[trigger] group@[g] as int].edge as int
                    != e2) ==> node_view(final(nodes)@[j]).slots[e2] == node_view(
                old(nodes)@[j],
            ).slots[e2],
        forall|g: int, j: int|
            #![trigger group@[g], node_view(final(nodes)@[j])]
            0 <= g < group@.len() && 0 <= j < old(nodes)@.len() ==> slot_conforms(
                node_view(final(nodes)@[j]).slots[sel.edges@[group@[g] as int].edge as int],
                node_view(old(nodes)@[j]).slots[sel.edges@[group@[g] as int].edge as int],
                one_shape(
                    *store,
                    edge_at(
                        *reg,
                        ent as int,
                        sel.edges@[group@[g] as int].edge as int,
                    )->One_0,
                    node_view(old(nodes)@[j]).row.keys[edge_at(
                        *reg,
                        ent as int,
                        sel.edges@[group@[g] as int].edge as int,
                    )->One_0.key_col as int],
                    node_view(old(nodes)@[j]).slots[sel.edges@[group@[g] as int].edge as int],
                ),
            ),
        final(trace)@.len() >= old(trace)@.len(),
        forall|t: int| 0 <= t < old(trace)@.len() ==> final(trace)@[t] == old(trace)@[t],
        forall|t: int|
            #![trigger final(trace)@[t]]
            old(trace)@.len() <= t < final(trace)@.len() ==> strictly_sorted(
                final(trace)@[t].keys@,
            ) && final(trace)@[t].edges@.len() > 0 && (forall|x: int|
                0 <= x < final(trace)@[t].edges@.len() ==> shape_mentions(
                    *reg,
                    ent as int,
                    *sel,
                    final(trace)@[t].parent_ent as int,
                    #[trigger] final(trace)@[t].edges@[x] as int,
                )),
        old(nodes)@.len() == 0 ==> *final(trace) == *old(trace),
        forall|t: int|
            #![trigger final(trace)@[t]]
            old(trace)@.len() <= t < final(trace)@.len() ==> final(trace)@[t].depth >= depth,
        forall|t: int|
            #![trigger final(trace)@[t]]
            old(trace)@.len() < t < final(trace)@.len() && depth < u64::MAX ==> final(trace)@[t].depth > depth,
        group_fk_union(*reg, ent as int, *sel, group@, nodes_view(old(nodes)@), group@.len() as int)
            == Set::<u64>::empty() ==> *final(trace) == *old(trace),
        group_fk_union(*reg, ent as int, *sel, group@, nodes_view(old(nodes)@), group@.len() as int)
            != Set::<u64>::empty() ==> final(trace)@.len() > old(trace)@.len() && final(trace)@[old(trace)@.len() as int].depth == depth && final(trace)@[old(trace)@.len() as int].parent_ent
            == ent && final(trace)@[old(trace)@.len() as int].target == target && final(trace)@[old(trace)@.len() as int].kind == BatchKind::ByIds && final(trace)@[old(trace)@.len() as int].edges@.len() == group@.len() && (forall|x: int|
            0 <= x < group@.len() ==> final(trace)@[old(trace)@.len() as int].edges@[x]
                == sel.edges@[#[trigger] group@[x] as int].edge) && final(trace)@[old(trace)@.len() as int].keys@.to_set() == group_fk_union(
            *reg,
            ent as int,
            *sel,
            group@,
            nodes_view(old(nodes)@),
            group@.len() as int,
        ),
    decreases *sel, 0int, 0int,
{
    let ghost olds = nodes_view(old(nodes)@);
    proof {
        assert forall|g: int| 0 <= g < group@.len() implies edge_wf(
            *reg,
            ent as int,
            edge_at(*reg, ent as int, sel.edges@[#[trigger] group@[g] as int].edge as int),
        ) by {
            assert(valid_edge(*reg, ent as int, sel.edges@[group@[g] as int].edge as int));
        }
    }
    // aggregate the shared key set over the whole group
    let mut ks: Vec<u64> = Vec::new();
    let mut g: usize = 0;
    while g < group.len()
        invariant
            reg_wf(*reg),
            ent < reg.entities@.len(),
            olds == nodes_view(nodes@),
            nodes_flat_wf(*reg, ent as int, olds),
            group@.len() > 0,
            forall|g2: int| 0 <= g2 < group@.len() ==> #[trigger] group@[g2] < sel.edges@.len(),
            forall|g2: int|
                0 <= g2 < group@.len() ==> valid_edge(
                    *reg,
                    ent as int,
                    sel.edges@[#[trigger] group@[g2] as int].edge as int,
                ),
            forall|g2: int|
                0 <= g2 < group@.len() ==> edge_at(
                    *reg,
                    ent as int,
                    sel.edges@[#[trigger] group@[g2] as int].edge as int,
                ) is One,
            forall|g2: int|
                0 <= g2 < group@.len() ==> edge_wf(
                    *reg,
                    ent as int,
                    edge_at(*reg, ent as int, sel.edges@[#[trigger] group@[g2] as int].edge as int),
                ),
            g <= group@.len(),
            strictly_sorted(ks@),
            nodes@.len() == 0 ==> ks@.len() == 0,
            ks@.to_set() == group_fk_union(*reg, ent as int, *sel, group@, olds, g as int),
            forall|g2: int, k: u64|
                #![trigger one_keys(olds, edge_at(*reg, ent as int, sel.edges@[group@[g2] as int].edge as int)->One_0.key_col as int).contains(k)]
                0 <= g2 < g && one_keys(
                    olds,
                    edge_at(
                        *reg,
                        ent as int,
                        sel.edges@[group@[g2] as int].edge as int,
                    )->One_0.key_col as int,
                ).contains(k) ==> ks@.to_set().contains(k),
        decreases group@.len() - g,
    {
        let e = sel.edges[group[g]].edge;
        let kc = one_key_col(reg, ent, e);
        proof {
            assert forall|j: int| 0 <= j < nodes@.len() implies kc < node_view(
                #[trigger] nodes@[j],
            ).row.keys.len() by {
                assert(node_flat_wf(*reg, ent as int, olds[j]));
                assert(olds[j] == node_view(nodes@[j]));
            }
        }
        add_one_keys(&mut ks, nodes, kc);
        g += 1;
    }
    if ks.len() == 0 {
        proof {
            assert(ks@.to_set() =~= Set::<u64>::empty()) by {
                assert forall|k: u64| !ks@.to_set().contains(k) by {
                    if ks@.contains(k) {
                        let w = choose|w: int| 0 <= w < ks@.len() && ks@[w] == k;
                    }
                }
            }
            reveal(one_shape);
            assert forall|g2: int, j: int|
                #![trigger group@[g2], node_view(nodes@[j])]
                0 <= g2 < group@.len() && 0 <= j < olds.len() implies olds[j].row.keys[edge_at(
                *reg,
                ent as int,
                sel.edges@[group@[g2] as int].edge as int,
            )->One_0.key_col as int] is None by {
                let kc = edge_at(
                    *reg,
                    ent as int,
                    sel.edges@[group@[g2] as int].edge as int,
                )->One_0.key_col as int;
                assert(node_flat_wf(*reg, ent as int, olds[j]));
                if olds[j].row.keys[kc] is Some {
                    let k = olds[j].row.keys[kc]->0;
                    assert(one_keys(olds, kc).contains(k));
                    assert(ks@.to_set().contains(k));
                    assert(ks@.contains(k));
                }
            }
        }
        return ;
    }
    // record the shared request
    let mut edges_v: Vec<usize> = Vec::new();
    let mut g2: usize = 0;
    while g2 < group.len()
        invariant
            forall|g3: int| 0 <= g3 < group@.len() ==> #[trigger] group@[g3] < sel.edges@.len(),
            g2 <= group@.len(),
            edges_v@.len() == g2,
            forall|x: int|
                0 <= x < g2 ==> #[trigger] edges_v@[x] == sel.edges@[group@[x] as int].edge,
        decreases group@.len() - g2,
    {
        edges_v.push(sel.edges[group[g2]].edge);
        g2 += 1;
    }
    proof {
        assert(ks@.to_set().contains(ks@[0]));
    }
    trace.push(
        BatchRequest {
            parent_ent: ent,
            depth,
            edges: edges_v,
            target,
            keys: dup_keys(&ks),
            kind: BatchKind::ByIds,
        },
    );
    let ghost trace1 = trace@;
    proof {
        let t0 = old(trace)@.len() as int;
        assert forall|x: int| 0 <= x < trace@[t0].edges@.len() implies shape_mentions(
            *reg,
            ent as int,
            *sel,
            trace@[t0].parent_ent as int,
            #[trigger] trace@[t0].edges@[x] as int,
        ) by {
            assert(trace@[t0].edges@[x] == sel.edges@[group@[x] as int].edge);
            lemma_mentions_at(
                *reg,
                ent as int,
                *sel,
                group@[x] as int,
                ent as int,
                trace@[t0].edges@[x] as int,
            );
        }
    }
    let fetched = match store.fetch_by_keys(target, &ks) {
        Result::Ok(rows) => rows,
        Result::Err(_) => {
            proof {
                reveal(one_shape);
            }
            return ;
        },
    };
    let ghost tv = table_view(*store, target as int);
    let ghost p_ks = |r: RowV| ks@.to_set().contains(r.id);
    // per member: that member's children, its recursion, its fan-in
    let mut g: usize = 0;
    while g < group.len()
        invariant
            reg_wf(*reg),
            store_wf(*store, *reg),
            ent < reg.entities@.len(),
            target < reg.entities@.len(),
            olds == nodes_view(old(nodes)@),
            nodes_flat_wf(*reg, ent as int, olds),
            group@.len() > 0,
            forall|g2: int| 0 <= g2 < group@.len() ==> #[trigger] group@[g2] < sel.edges@.len(),
            forall|g2: int|
                0 <= g2 < group@.len() ==> valid_edge(
                    *reg,
                    ent as int,
                    sel.edges@[#[trigger] group@[g2] as int].edge as int,
                ),
            forall|g2: int|
                0 <= g2 < group@.len() ==> edge_at(
                    *reg,
                    ent as int,
                    sel.edges@[#[trigger] group@[g2] as int].edge as int,
                ) is One,
            forall|g2: int|
                0 <= g2 < group@.len() ==> edge_at(
                    *reg,
                    ent as int,
                    sel.edges@[#[trigger] group@[g2] as int].edge as int,
                )->One_0.target == target,
            forall|g2: int|
                0 <= g2 < group@.len() ==> edge_wf(
                    *reg,
                    ent as int,
                    edge_at(*reg, ent as int, sel.edges@[#[trigger] group@[g2] as int].edge as int),
                ),
            forall|g1: int, g2: int|
                #![trigger group@[g1], group@[g2]]
                0 <= g1 < g2 < group@.len() ==> sel.edges@[group@[g1] as int].edge
                    != sel.edges@[group@[g2] as int].edge,
            g <= group@.len(),
            strictly_sorted(ks@),
            forall|g2: int, k: u64|
                #![trigger one_keys(olds, edge_at(*reg, ent as int, sel.edges@[group@[g2] as int].edge as int)->One_0.key_col as int).contains(k)]
                0 <= g2 < group@.len() && one_keys(
                    olds,
                    edge_at(
                        *reg,
                        ent as int,
                        sel.edges@[group@[g2] as int].edge as int,
                    )->One_0.key_col as int,
                ).contains(k) ==> ks@.to_set().contains(k),
            tv == table_view(*store, target as int),
            p_ks == (|r: RowV| ks@.to_set().contains(r.id)),
            !failing(*store, target as int),
            rows_view(fetched@) == tv.filter(p_ks),
            // nodes: rows and lengths as at entry
            nodes@.len() == olds.len(),
            forall|j: int|
                0 <= j < olds.len() ==> node_view(#[trigger] nodes@[j]).row == olds[j].row,
            forall|j: int|
                0 <= j < olds.len() ==> node_view(#[trigger] nodes@[j]).slots.len()
                    == olds[j].slots.len(),
            // columns not yet processed are untouched
            forall|j: int, e2: int|
                #![trigger node_view(nodes@[j]).slots[e2]]
                0 <= j < olds.len() && 0 <= e2 < olds[j].slots.len() && (forall|g2: int|
                    0 <= g2 < g ==> sel.edges@[#[trigger] group@[g2] as int].edge as int != e2)
                    ==> node_view(nodes@[j]).slots[e2] == olds[j].slots[e2],
            // processed members conform
            forall|g2: int, j: int|
                #![trigger group@[g2], node_view(nodes@[j])]
                0 <= g2 < g && 0 <= j < olds.len() ==> slot_conforms(
                    node_view(nodes@[j]).slots[sel.edges@[group@[g2] as int].edge as int],
                    olds[j].slots[sel.edges@[group@[g2] as int].edge as int],
                    one_shape(
                        *store,
                        edge_at(
                            *reg,
                            ent as int,
                            sel.edges@[group@[g2] as int].edge as int,
                        )->One_0,
                        olds[j].row.keys[edge_at(
                            *reg,
                            ent as int,
                            sel.edges@[group@[g2] as int].edge as int,
                        )->One_0.key_col as int],
                        olds[j].slots[sel.edges@[group@[g2] as int].edge as int],
                    ),
                ),
            // trace
            trace@.len() >= trace1.len(),
            trace1.len() == old(trace)@.len() + 1,
            forall|t: int| 0 <= t < trace1.len() ==> trace@[t] == trace1[t],
            forall|t: int| 0 <= t < old(trace)@.len() ==> trace1[t] == old(trace)@[t],
            strictly_sorted(trace1[old(trace)@.len() as int].keys@),
            trace1[old(trace)@.len() as int].parent_ent == ent,
            trace1[old(trace)@.len() as int].edges@.len() == group@.len(),
            forall|x: int|
                0 <= x < group@.len() ==> #[trigger] trace1[old(trace)@.len() as int].edges@[x]
                    == sel.edges@[group@[x] as int].edge,
            forall|t: int|
                #![trigger trace@[t]]
                old(trace)@.len() <= t < trace@.len() ==> strictly_sorted(trace@[t].keys@)
                    && trace@[t].edges@.len() > 0 && (forall|x: int|
                    0 <= x < trace@[t].edges@.len() ==> shape_mentions(
                        *reg,
                        ent as int,
                        *sel,
                        trace@[t].parent_ent as int,
                        #[trigger] trace@[t].edges@[x] as int,
                    )),
            forall|t: int|
                #![trigger trace@[t].depth]
                old(trace)@.len() <= t < trace@.len() ==> trace@[t].depth >= depth,
            forall|t: int|
                #![trigger trace@[t].depth]
                old(trace)@.len() < t < trace@.len() && depth < u64::MAX ==> trace@[t].depth
                    > depth,
        decreases group@.len() - g,
    {
        let e = sel.edges[group[g]].edge;
        let kc = one_key_col(reg, ent, e);
        proof {
            assert forall|j: int| 0 <= j < nodes@.len() implies kc < node_view(
                #[trigger] nodes@[j],
            ).row.keys.len() by {
                assert(node_flat_wf(*reg, ent as int, olds[j]));
            }
        }
        let mut ks_g: Vec<u64> = Vec::new();
        add_one_keys(&mut ks_g, nodes, kc);
        let ghost cur_views = nodes_view(nodes@);
        proof {
            lemma_level_keys(cur_views, olds);
            assert(Seq::<u64>::empty().to_set() =~= Set::<u64>::empty());
            assert(ks_g@.to_set() =~= one_keys(olds, kc as int));
        }
        let member_rows = filter_rows_by_ids(&fetched, &ks_g);
        let ghost p_g = |r: RowV| ks_g@.to_set().contains(r.id);
        proof {
            assert(forall|x: RowV| #[trigger] p_g(x) ==> p_ks(x));
            crate::seqs::lemma_filter_implied(tv, p_ks, p_g);
            assert(rows_view(member_rows@) == tv.filter(p_g));
        }
        let mut children = nodes_from_rows(member_rows, reg.entities[target].edges.len());
        proof {
            crate::seqs::lemma_filter_membership(tv, p_g);
            assert forall|j: int| 0 <= j < nodes_view(children@).len() implies node_flat_wf(
                *reg,
                target as int,
                #[trigger] nodes_view(children@)[j],
            ) by {
                assert(nodes_view(children@)[j] == node_view(children@[j]));
                assert(rows_of(nodes_view(children@))[j] == node_view(children@[j]).row);
                assert(node_view(children@[j]).row == tv.filter(p_g)[j]);
                assert(tv.contains(tv.filter(p_g)[j]));
                let w = choose|w: int| 0 <= w < tv.len() && tv[w] == tv.filter(p_g)[j];
                assert(row_wf(reg.entities@[target as int], tv[w]));
            }
        }
        let next_depth = if depth == u64::MAX {
            depth
        } else {
            depth + 1
        };
        let ghost trace_pre = trace@;
        preload_children(
            store,
            reg,
            target,
            &mut children,
            &sel.edges[group[g]].sub,
            trace,
            next_depth,
        );
        proof {
            assert(rows_of(nodes_view(children@)) =~= tv.filter(p_g));
            assert forall|t: int, x: int|
                trace_pre.len() <= t < trace@.len() && 0 <= x
                    < trace@[t].edges@.len() implies shape_mentions(
                *reg,
                ent as int,
                *sel,
                trace@[t].parent_ent as int,
                #[trigger] trace@[t].edges@[x] as int,
            ) by {
                assert(shape_mentions(
                    *reg,
                    target as int,
                    sel.edges@[group@[g as int] as int].sub,
                    trace@[t].parent_ent as int,
                    trace@[t].edges@[x] as int,
                ));
                assert(edge_at(
                    *reg,
                    ent as int,
                    sel.edges@[group@[g as int] as int].edge as int,
                ).spec_target() == target);
                lemma_mentions_at(
                    *reg,
                    ent as int,
                    *sel,
                    group@[g as int] as int,
                    trace@[t].parent_ent as int,
                    trace@[t].edges@[x] as int,
                );
            }
        }
        proof {
            assert forall|j: int| 0 <= j < nodes@.len() implies e < node_view(
                #[trigger] nodes@[j],
            ).slots.len() && kc < node_view(nodes@[j]).row.keys.len() by {
                assert(node_flat_wf(*reg, ent as int, olds[j]));
                assert(valid_edge(*reg, ent as int, e as int));
            }
        }
        // no property of the fetched children is tracked through this
        // fan-in beyond their rows
        let ghost childp = |nv: NodeV| true;
        let ghost pre_fan = nodes_view(nodes@);
        fan_in_one(nodes, e, kc, &children, Ghost(childp));
        proof {
            reveal(one_shape);
            reveal(fan_one_shape);
            let crows = rows_of(nodes_view(children@));
            let o = edge_at(*reg, ent as int, e as int)->One_0;
            // a member key resolves identically through the member's
            // children and through the whole target table
            assert forall|k: u64| ks_g@.to_set().contains(k) implies direct_one(crows, k)
                == direct_one(tv, k) by {
                let p_k = |r: RowV| r.id == k;
                assert(forall|x: RowV| #[trigger] p_k(x) ==> p_g(x));
                crate::seqs::lemma_filter_implied(tv, p_g, p_k);
                assert(crows.filter(p_k) == tv.filter(p_g).filter(p_k));
            }
            assert forall|j: int| 0 <= j < olds.len() implies slot_conforms(
                node_view(#[trigger] nodes@[j]).slots[e as int],
                olds[j].slots[e as int],
                one_shape(*store, o, olds[j].row.keys[o.key_col as int], olds[j].slots[e as int]),
            ) by {
                assert(pre_fan[j].row == olds[j].row);
                assert(pre_fan[j].slots[e as int] == olds[j].slots[e as int]) by {
                    assert forall|g2: int| 0 <= g2 < g implies sel.edges@[
                        #[trigger] group@[g2] as int
                    ].edge as int != e as int by {
                        if sel.edges@[group@[g2] as int].edge == e {
                            assert(group@[g2] != group@[g as int] ==> false);
                        }
                    }
                }
                let fk = olds[j].row.keys[o.key_col as int];
                match fk {
                    Option::Some(k) => {
                        if olds[j].slots[e as int] is Empty {
                            assert(one_keys(olds, kc as int).contains(k));
                            assert(ks_g@.to_set().contains(k));
                            assert(direct_one(crows, k) == direct_one(tv, k));
                        }
                    },
                    Option::None => {},
                }
                assert(fan_one_shape(crows, fk, olds[j].slots[e as int]) == one_shape(
                    *store,
                    o,
                    fk,
                    olds[j].slots[e as int],
                ));
            }
        }
        g += 1;
    }
    proof {
        assert forall|t: int| 0 <= t < old(trace)@.len() implies trace@[t] == old(trace)@[t] by {
            assert(trace@[t] == trace1[t]);
        }
    }
}

/// Preloads one depth level: for every edge the shape selects, one batch
/// fetch (to-many edges one each, to-one edges one per shared target
/// type), recursion into the fetched children with their own nested
/// selections, and fan-in of the results into the parents' slots. An
/// edge the shape does not select causes no fetch and no slot change; a
/// fetch failure aborts preloading for that edge's subtree only, leaving
/// its slots empty so the affected resolvers fall back.
/// One to-many fetch extends a level's request record correctly: the
/// new level entry serves the processed edge with the level's parent
/// keys, every other new entry belongs to a deeper level, and the
/// level's entries stay pairwise distinct.
proof fn lemma_level_trace_step_many(
    reg: Registry,
    ent: int,
    sel: Selection,
    olds: Seq<NodeV>,
    pre: Seq<NodeV>,
    depth: u64,
    old_len: int,
    tb: Seq<BatchRequest>,
    tn: Seq<BatchRequest>,
    done_b: Seq<bool>,
    done_n: Seq<bool>,
    si: int,
    e: usize,
    m: HasMany,
    es: EdgeSel,
)
    requires
        depth < u64::MAX,
        0 <= old_len <= tb.len() <= tn.len(),
        forall|t: int| 0 <= t < tb.len() ==> #[trigger] tn[t] == tb[t],
        forall|t: int| tb.len() < t < tn.len() ==> #[trigger] tn[t].depth > depth,
        forall|t: int| tb.len() <= t < tn.len() ==> #[trigger] tn[t].depth >= depth,
        pre.len() > 0 ==> tn.len() > tb.len() && tn[tb.len() as int].depth == depth
            && tn[tb.len() as int].parent_ent == ent && tn[tb.len() as int].target == m.target
            && tn[tb.len() as int].kind == (BatchKind::ByForeignKey {
            col: m.fk_col,
            limit: spec_limit_of(es.limit),
            offset: spec_offset_of(es.offset),
        }) && tn[tb.len() as int].edges@ == seq![e as usize]
            && tn[tb.len() as int].keys@.to_set() == parent_ids(pre),
        pre.len() == 0 ==> tn == tb,
        forall|t: int|
            #![trigger tn[t]]
            old_len <= t < tb.len() && tn[t].depth == depth ==> level_request(
                reg,
                ent,
                sel,
                olds,
                tn[t],
            ) && tn[t].kind is ByForeignKey && tn[t].edges@.len() == 1 && done_b[tn[t].edges@[0] as int],
        forall|t1: int, t2: int|
            #![trigger tn[t1], tn[t2]]
            old_len <= t1 < t2 < tb.len() && tn[t1].depth == depth && tn[t2].depth == depth
                ==> distinct_level_requests(tn[t1], tn[t2]),
        done_n.len() == done_b.len(),
        done_b.len() == reg.entities@[ent].edges@.len(),
        (e as int) < done_b.len(),
        !done_b[e as int],
        forall|x: int|
            0 <= x < done_n.len() ==> #[trigger] done_n[x] == (done_b[x] || x == e as int),
        valid_edge(reg, ent, e as int),
        edge_at(reg, ent, e as int) == Edge::Many(m),
        sel.selects(e as usize),
        0 <= si < sel.edges@.len(),
        sel.first_sel(e as usize) == si,
        sel.edges@[si] == es,
        es.edge == e,
        parent_ids(pre) == parent_ids(olds),
    ensures
        forall|t: int|
            #![trigger tn[t].depth]
            old_len <= t < tn.len() && tn[t].depth == depth ==> level_request(
                reg,
                ent,
                sel,
                olds,
                tn[t],
            ) && tn[t].kind is ByForeignKey && tn[t].edges@.len() == 1 && done_n[tn[t].edges@[0] as int],
        forall|t1: int, t2: int|
            #![trigger tn[t1].depth, tn[t2].depth]
            old_len <= t1 < t2 < tn.len() && tn[t1].depth == depth && tn[t2].depth == depth
                ==> distinct_level_requests(tn[t1], tn[t2]),
{
    reveal(level_request);
    assert forall|t: int|
        old_len <= t < tn.len() && #[trigger] tn[t].depth == depth implies level_request(
        reg,
        ent,
        sel,
        olds,
        tn[t],
    ) && tn[t].kind is ByForeignKey && tn[t].edges@.len() == 1 && done_n[tn[t].edges@[0] as int] by {
        if t >= tb.len() {
            assert(t == tb.len() as int);
            assert(pre.len() > 0);
            assert(tn[t].edges@.len() == 1);
            assert(tn[t].edges@[0] == e);
            assert(done_n[e as int]);
            assert(tn[t].kind == (BatchKind::ByForeignKey {
                col: m.fk_col,
                limit: spec_limit_of(es.limit),
                offset: spec_offset_of(es.offset),
            }));
            assert(tn[t].keys@.to_set() == parent_ids(olds));
            assert(level_request(reg, ent, sel, olds, tn[t]));
        } else {
            assert(tn[t] == tb[t]);
            assert(level_request(reg, ent, sel, olds, tn[t]));
            assert(done_b[tn[t].edges@[0] as int]);
            assert(done_n[tn[t].edges@[0] as int]);
        }
    }
    assert forall|t1: int, t2: int|
        old_len <= t1 < t2 < tn.len() && #[trigger] tn[t1].depth == depth && #[trigger] tn[t2].depth
            == depth implies distinct_level_requests(tn[t1], tn[t2]) by {
        if t2 >= tb.len() {
            assert(t2 == tb.len() as int);
            assert(tn[t1] == tb[t1]);
            assert(tn[t1].kind is ByForeignKey);
            assert(done_b[tn[t1].edges@[0] as int]);
            assert(tn[t2].edges@.len() == 1);
            assert(tn[t2].edges@[0] == e);
            assert(tn[t2].kind is ByForeignKey);
            assert(tn[t1].edges@[0] != e);
        } else {
            assert(tn[t1] == tb[t1]);
            assert(tn[t2] == tb[t2]);
        }
    }
}

/// One shared to-one fetch extends a level's request record correctly:
/// the new level entry serves the whole group of selected to-one edges
/// with this target and carries exactly their aggregated foreign keys,
/// every other new entry belongs to a deeper level, and the level's
/// entries stay pairwise distinct.
#[verifier::rlimit(100)]
#[verifier::spinoff_prover]
proof fn lemma_level_trace_step_one(
    reg: Registry,
    ent: int,
    sel: Selection,
    olds: Seq<NodeV>,
    pre: Seq<NodeV>,
    depth: u64,
    old_len: int,
    tb: Seq<BatchRequest>,
    tn: Seq<BatchRequest>,
    done_b: Seq<bool>,
    done_n: Seq<bool>,
    group: Seq<usize>,
    target: usize,
    e: usize,
    n_edges: int,
)
    requires
        depth < u64::MAX,
        0 <= old_len <= tb.len() <= tn.len(),
        n_edges == reg.entities@[ent].edges@.len(),
        forall|t: int| 0 <= t < tb.len() ==> #[trigger] tn[t] == tb[t],
        forall|t: int| tb.len() < t < tn.len() ==> #[trigger] tn[t].depth > depth,
        forall|t: int| tb.len() <= t < tn.len() ==> #[trigger] tn[t].depth >= depth,
        group_fk_union(reg, ent, sel, group, pre, group.len() as int) == Set::<u64>::empty()
            ==> tn == tb,
        group_fk_union(reg, ent, sel, group, pre, group.len() as int) != Set::<u64>::empty()
            ==> tn.len() > tb.len() && tn[tb.len() as int].depth == depth
            && tn[tb.len() as int].parent_ent == ent && tn[tb.len() as int].target == target
            && tn[tb.len() as int].kind == BatchKind::ByIds && tn[tb.len() as int].edges@.len()
            == group.len() && (forall|x: int|
            0 <= x < group.len() ==> tn[tb.len() as int].edges@[x] == sel.edges@[
                #[trigger] group[x] as int
            ].edge) && tn[tb.len() as int].keys@.to_set() == group_fk_union(
            reg,
            ent,
            sel,
            group,
            pre,
            group.len() as int,
        ),
        forall|g: int| 0 <= g < group.len() ==> #[trigger] group[g] < sel.edges@.len(),
        forall|g: int|
            0 <= g < group.len() ==> valid_edge(
                reg,
                ent,
                sel.edges@[#[trigger] group[g] as int].edge as int,
            ),
        forall|g: int|
            0 <= g < group.len() ==> edge_at(
                reg,
                ent,
                sel.edges@[#[trigger] group[g] as int].edge as int,
            ) is One,
        forall|g: int|
            0 <= g < group.len() ==> edge_at(
                reg,
                ent,
                sel.edges@[#[trigger] group[g] as int].edge as int,
            )->One_0.target == target,
        forall|g: int|
            0 <= g < group.len() ==> sel.selects(sel.edges@[#[trigger] group[g] as int].edge),
        forall|e3: int|
            #![trigger edge_at(reg, ent, e3)]
            0 <= e3 < n_edges && edge_at(reg, ent, e3) is One && edge_at(
                reg,
                ent,
                e3,
            )->One_0.target == target && sel.selects(e3 as usize) ==> exists|g: int|
                0 <= g < group.len() && (sel.edges@[#[trigger] group[g] as int].edge as int) == e3,
        forall|t: int|
            #![trigger tn[t]]
            old_len <= t < tb.len() && tn[t].depth == depth ==> level_request(
                reg,
                ent,
                sel,
                olds,
                tn[t],
            ) && (tn[t].kind is ByForeignKey ==> tn[t].edges@.len() == 1 && done_b[tn[t].edges@[0] as int])
                && (tn[t].kind is ByIds ==> forall|e3: int|
                #![trigger done_b[e3]]
                0 <= e3 < n_edges && edge_at(reg, ent, e3) is One && edge_at(
                    reg,
                    ent,
                    e3,
                )->One_0.target == tn[t].target && sel.selects(e3 as usize) ==> done_b[e3]),
        forall|t1: int, t2: int|
            #![trigger tn[t1], tn[t2]]
            old_len <= t1 < t2 < tb.len() && tn[t1].depth == depth && tn[t2].depth == depth
                ==> distinct_level_requests(tn[t1], tn[t2]),
        done_n.len() == n_edges,
        done_b.len() == n_edges,
        (e as int) < n_edges,
        !done_b[e as int],
        edge_at(reg, ent, e as int) is One,
        edge_at(reg, ent, e as int)->One_0.target == target,
        sel.selects(e),
        forall|x: int|
            0 <= x < done_n.len() ==> #[trigger] done_n[x] == (done_b[x] || exists|g: int|
                0 <= g < group.len() && sel.edges@[#[trigger] group[g] as int].edge == x),
        pre.len() == olds.len(),
        forall|c: int| #[trigger] one_keys(pre, c) == one_keys(olds, c),
    ensures
        forall|t: int|
            #![trigger tn[t].depth]
            old_len <= t < tn.len() && tn[t].depth == depth ==> level_request(
                reg,
                ent,
                sel,
                olds,
                tn[t],
            ) && (tn[t].kind is ByForeignKey ==> tn[t].edges@.len() == 1 && done_n[tn[t].edges@[0] as int])
                && (tn[t].kind is ByIds ==> forall|e3: int|
                #![trigger done_n[e3]]
                0 <= e3 < n_edges && edge_at(reg, ent, e3) is One && edge_at(
                    reg,
                    ent,
                    e3,
                )->One_0.target == tn[t].target && sel.selects(e3 as usize) ==> done_n[e3]),
        forall|t1: int, t2: int|
            #![trigger tn[t1].depth, tn[t2].depth]
            old_len <= t1 < t2 < tn.len() && tn[t1].depth == depth && tn[t2].depth == depth
                ==> distinct_level_requests(tn[t1], tn[t2]),
{
    reveal(level_request);
    assert forall|t: int|
        old_len <= t < tn.len() && #[trigger] tn[t].depth == depth implies level_request(
        reg,
        ent,
        sel,
        olds,
        tn[t],
    ) && (tn[t].kind is ByForeignKey ==> tn[t].edges@.len() == 1 && done_n[tn[t].edges@[0] as int])
        && (tn[t].kind is ByIds ==> forall|e3: int|
        #![trigger done_n[e3]]
        0 <= e3 < n_edges && edge_at(reg, ent, e3) is One && edge_at(reg, ent, e3)->One_0.target
            == tn[t].target && sel.selects(e3 as usize) ==> done_n[e3]) by {
        if t >= tb.len() {
            assert(t == tb.len() as int);
            let req = tn[t];
            assert(group_fk_union(reg, ent, sel, group, pre, group.len() as int)
                != Set::<u64>::empty());
            assert(req.edges@.len() == group.len());
            assert forall|x: int| 0 <= x < req.edges@.len() implies (#[trigger] req.edges@[x])
                == sel.edges@[group[x] as int].edge by {}
            assert forall|x: int| 0 <= x < req.edges@.len() implies valid_edge(
                reg,
                ent,
                #[trigger] req.edges@[x] as int,
            ) && edge_at(reg, ent, req.edges@[x] as int) is One && edge_at(
                reg,
                ent,
                req.edges@[x] as int,
            )->One_0.target == req.target && sel.selects(req.edges@[x]) by {
                assert(req.edges@[x] == sel.edges@[group[x] as int].edge);
            }
            assert forall|e3: int|
                #![trigger edge_at(reg, ent, e3)]
                0 <= e3 < n_edges && edge_at(reg, ent, e3) is One && edge_at(
                    reg,
                    ent,
                    e3,
                )->One_0.target == req.target && sel.selects(e3 as usize) implies (exists|x: int|
                0 <= x < req.edges@.len() && #[trigger] req.edges@[x] as int == e3) by {
                let g = choose|g: int|
                    0 <= g < group.len() && (sel.edges@[#[trigger] group[g] as int].edge as int)
                        == e3;
                assert(req.edges@[g] as int == e3);
            }
            assert(req.keys@.to_set() == edges_fk_union(
                reg,
                ent,
                olds,
                req.edges@,
                req.edges@.len() as int,
            )) by {
                lemma_group_union_cong(reg, ent, sel, group, pre, olds, group.len() as int);
                lemma_union_bridge(reg, ent, sel, group, olds, req.edges@, group.len() as int);
            }
            assert forall|e3: int|
                #![trigger done_n[e3]]
                0 <= e3 < n_edges && edge_at(reg, ent, e3) is One && edge_at(
                    reg,
                    ent,
                    e3,
                )->One_0.target == req.target && sel.selects(e3 as usize) implies done_n[e3] by {
                let g = choose|g: int|
                    0 <= g < group.len() && (sel.edges@[#[trigger] group[g] as int].edge as int)
                        == e3;
                assert(sel.edges@[group[g] as int].edge == e3);
            }
            assert(level_request(reg, ent, sel, olds, req));
        } else {
            assert(tn[t] == tb[t]);
            if tn[t].kind is ByIds {
                assert forall|e3: int|
                    #![trigger done_n[e3]]
                    0 <= e3 < n_edges && edge_at(reg, ent, e3) is One && edge_at(
                        reg,
                        ent,
                        e3,
                    )->One_0.target == tn[t].target && sel.selects(e3 as usize) implies done_n[
                e3] by {
                    assert(done_b[e3]);
                }
            }
        }
    }
    assert forall|t1: int, t2: int|
        old_len <= t1 < t2 < tn.len() && #[trigger] tn[t1].depth == depth && #[trigger] tn[t2].depth
            == depth implies distinct_level_requests(tn[t1], tn[t2]) by {
        if t2 >= tb.len() {
            assert(t2 == tb.len() as int);
            assert(tn[t1] == tb[t1]);
            if tn[t1].kind is ByIds && tn[t2].kind is ByIds {
                if tn[t1].target == target {
                    assert(done_b[e as int]);
                    assert(false);
                }
            }
        } else {
            assert(tn[t1] == tb[t1]);
            assert(tn[t2] == tb[t2]);
        }
    }
}

#[verifier::rlimit(100)]
#[verifier::spinoff_prover]
pub fn preload_children(
    store: &Store,
    reg: &Registry,
    ent: usize,
    nodes: &mut Vec<Node>,
    sel: &Selection,
    trace: &mut Vec<BatchRequest>,
    depth: u64,
)
    requires
        reg_wf(*reg),
        store_wf(*store, *reg),
        ent < reg.entities@.len(),
        nodes_flat_wf(*reg, ent as int, nodes_view(old(nodes)@)),
    ensures
        final(nodes)@.len() == old(nodes)@.len(),
        forall|j: int|
            0 <= j < old(nodes)@.len() ==> node_view(#[trigger] final(nodes)@[j]).row
                == node_view(old(nodes)@[j]).row,
        forall|j: int|
            0 <= j < old(nodes)@.len() ==> node_view(#[trigger] final(nodes)@[j]).slots.len()
                == node_view(old(nodes)@[j]).slots.len(),
        forall|j: int, e: int|
            #![trigger node_view(final(nodes)@[j]).slots[e]]
            0 <= j < old(nodes)@.len() && 0 <= e < node_view(old(nodes)@[j]).slots.len()
                ==> slot_conforms(
                node_view(final(nodes)@[j]).slots[e],
                node_view(old(nodes)@[j]).slots[e],
                expected_slot(*reg, *store, ent as int, *sel, nodes_view(old(nodes)@), j, e),
            ),
        final(trace)@.len() >= old(trace)@.len(),
        forall|t: int| 0 <= t < old(trace)@.len() ==> final(trace)@[t] == old(trace)@[t],
        forall|t: int|
            #![trigger final(trace)@[t]]
            old(trace)@.len() <= t < final(trace)@.len() ==> strictly_sorted(
                final(trace)@[t].keys@,
            ) && final(trace)@[t].edges@.len() > 0 && (forall|x: int|
                0 <= x < final(trace)@[t].edges@.len() ==> shape_mentions(
                    *reg,
                    ent as int,
                    *sel,
                    final(trace)@[t].parent_ent as int,
                    #[trigger] final(trace)@[t].edges@[x] as int,
                )),
        old(nodes)@.len() == 0 ==> *final(trace) == *old(trace),
        forall|t: int|
            #![trigger final(trace)@[t]]
            old(trace)@.len() <= t < final(trace)@.len() ==> final(trace)@[t].depth >= depth,
        forall|t: int|
            #![trigger final(trace)@[t]]
            old(trace)@.len() <= t < final(trace)@.len() && depth < u64::MAX && final(trace)@[t].depth == depth ==> level_request(
                *reg,
                ent as int,
                *sel,
                nodes_view(old(nodes)@),
                final(trace)@[t],
            ),
        forall|t1: int, t2: int|
            #![trigger final(trace)@[t1], final(trace)@[t2]]
            old(trace)@.len() <= t1 < t2 < final(trace)@.len() && depth < u64::MAX && final(trace)@[t1].depth == depth && final(trace)@[t2].depth == depth ==> distinct_level_requests(
                final(trace)@[t1],
                final(trace)@[t2],
            ),
    decreases *sel, 2int, 0int,
{
    let ghost olds = nodes_view(old(nodes)@);
    let n_edges = reg.entities[ent].edges.len();
    let mut done: Vec<bool> = Vec::new();
    let mut di: usize = 0;
    while di < n_edges
        invariant
            di <= n_edges,
            done@.len() == di,
            forall|e2: int| 0 <= e2 < di ==> !(#[trigger] done@[e2]),
        decreases n_edges - di,
    {
        done.push(false);
        di += 1;
    }
    // first pass: one fetch per selected to-many edge
    let mut e: usize = 0;
    while e < n_edges
        invariant
            reg_wf(*reg),
            store_wf(*store, *reg),
            ent < reg.entities@.len(),
            n_edges == reg.entities@[ent as int].edges@.len(),
            olds == nodes_view(old(nodes)@),
            nodes_flat_wf(*reg, ent as int, olds),
            done@.len() == n_edges,
            e <= n_edges,
            nodes@.len() == olds.len(),
            forall|j: int|
                0 <= j < olds.len() ==> node_view(#[trigger] nodes@[j]).row == olds[j].row,
            forall|j: int|
                0 <= j < olds.len() ==> node_view(#[trigger] nodes@[j]).slots.len()
                    == olds[j].slots.len(),
            forall|j: int, e2: int|
                #![trigger node_view(nodes@[j]).slots[e2]]
                0 <= j < olds.len() && 0 <= e2 < n_edges && !done@[e2] ==> node_view(
                    nodes@[j],
                ).slots[e2] == olds[j].slots[e2],
            forall|j: int, e2: int|
                #![trigger node_view(nodes@[j]).slots[e2]]
                0 <= j < olds.len() && 0 <= e2 < n_edges && done@[e2] ==> slot_conforms(
                    node_view(nodes@[j]).slots[e2],
                    olds[j].slots[e2],
                    expected_slot(*reg, *store, ent as int, *sel, olds, j, e2),
                ),
            forall|e2: int|
                0 <= e2 < n_edges && #[trigger] done@[e2] ==> edge_at(*reg, ent as int, e2) is Many
                    && sel.selects(e2 as usize),
            forall|t: int|
                #![trigger trace@[t].depth]
                old(trace)@.len() <= t < trace@.len() ==> trace@[t].depth >= depth,
            forall|t: int|
                #![trigger trace@[t].depth]
                old(trace)@.len() <= t < trace@.len() && depth < u64::MAX && trace@[t].depth
                    == depth ==> level_request(*reg, ent as int, *sel, olds, trace@[t])
                    && trace@[t].kind is ByForeignKey && trace@[t].edges@.len() == 1 && done@[trace@[t].edges@[0] as int],
            forall|t1: int, t2: int|
                #![trigger trace@[t1].depth, trace@[t2].depth]
                old(trace)@.len() <= t1 < t2 < trace@.len() && depth < u64::MAX && trace@[t1].depth
                    == depth && trace@[t2].depth == depth ==> distinct_level_requests(
                    trace@[t1],
                    trace@[t2],
                ),
            forall|e2: int|
                #![trigger done@[e2]]
                0 <= e2 < e && edge_at(*reg, ent as int, e2) is Many && sel.selects(
                    e2 as usize,
                ) ==> done@[e2],
            trace@.len() >= old(trace)@.len(),
            forall|t: int| 0 <= t < old(trace)@.len() ==> trace@[t] == old(trace)@[t],
            forall|t: int|
                #![trigger trace@[t]]
                old(trace)@.len() <= t < trace@.len() ==> strictly_sorted(trace@[t].keys@)
                    && trace@[t].edges@.len() > 0 && (forall|x: int|
                    0 <= x < trace@[t].edges@.len() ==> shape_mentions(
                        *reg,
                        ent as int,
                        *sel,
                        trace@[t].parent_ent as int,
                        #[trigger] trace@[t].edges@[x] as int,
                    )),
            olds.len() == 0 ==> *trace == *old(trace),
        decreases n_edges - e,
    {
        if !done[e] {
            match &reg.entities[ent].edges[e] {
                Edge::Many(m) => {
                    match sel.find_first(e) {
                        Option::Some(si) => {
                            let es = &sel.edges[si];
                            let ghost pre = nodes_view(nodes@);
                            let ghost done_before = done@;
                            let ghost trace_before = trace@;
                            done.set(e, true);
                            preload_to_many(
                                store,
                                reg,
                                ent,
                                nodes,
                                sel,
                                Ghost(si as int),
                                es,
                                m,
                                trace,
                                depth,
                            );
                            proof {
                                reveal(expected_slot);
                                lemma_level_keys(pre, olds);
                                if depth < u64::MAX {
                                    assert forall|x: int|
                                        0 <= x < done@.len() implies #[trigger] done@[x] == (
                                    done_before[x] || x == e as int) by {}
                                    lemma_level_trace_step_many(
                                        *reg,
                                        ent as int,
                                        *sel,
                                        olds,
                                        pre,
                                        depth,
                                        old(trace)@.len() as int,
                                        trace_before,
                                        trace@,
                                        done_before,
                                        done@,
                                        si as int,
                                        e,
                                        *m,
                                        *es,
                                    );
                                }
                                assert forall|j: int| 0 <= j < olds.len() implies slot_conforms(
                                    node_view(#[trigger] nodes@[j]).slots[e as int],
                                    olds[j].slots[e as int],
                                    expected_slot(
                                        *reg,
                                        *store,
                                        ent as int,
                                        *sel,
                                        olds,
                                        j,
                                        e as int,
                                    ),
                                ) by {
                                    assert(pre[j].slots[e as int] == olds[j].slots[e as int]);
                                    assert(pre[j].row == olds[j].row);
                                    assert(sel.first_sel(e) == si as int);
                                    assert(expected_slot(
                                        *reg,
                                        *store,
                                        ent as int,
                                        *sel,
                                        olds,
                                        j,
                                        e as int,
                                    ) == many_shape(
                                        *store,
                                        *m,
                                        spec_limit_of(es.limit) as int,
                                        spec_offset_of(es.offset) as int,
                                        parent_ids(olds),
                                        olds[j].row.id,
                                        olds[j].slots[e as int],
                                    ));
                                }
                            }
                        },
                        Option::None => {},
                    }
                },
                Edge::One(_) => {},
            }
        }
        e += 1;
    }
    // second pass: one fetch per target type shared by the selected
    // to-one edges
    let mut e: usize = 0;
    while e < n_edges
        invariant
            reg_wf(*reg),
            store_wf(*store, *reg),
            ent < reg.entities@.len(),
            n_edges == reg.entities@[ent as int].edges@.len(),
            olds == nodes_view(old(nodes)@),
            nodes_flat_wf(*reg, ent as int, olds),
            done@.len() == n_edges,
            e <= n_edges,
            nodes@.len() == olds.len(),
            forall|j: int|
                0 <= j < olds.len() ==> node_view(#[trigger] nodes@[j]).row == olds[j].row,
            forall|j: int|
                0 <= j < olds.len() ==> node_view(#[trigger] nodes@[j]).slots.len()
                    == olds[j].slots.len(),
            forall|j: int, e2: int|
                #![trigger node_view(nodes@[j]).slots[e2]]
                0 <= j < olds.len() && 0 <= e2 < n_edges && !done@[e2] ==> node_view(
                    nodes@[j],
                ).slots[e2] == olds[j].slots[e2],
            forall|j: int, e2: int|
                #![trigger node_view(nodes@[j]).slots[e2]]
                0 <= j < olds.len() && 0 <= e2 < n_edges && done@[e2] ==> slot_conforms(
                    node_view(nodes@[j]).slots[e2],
                    olds[j].slots[e2],
                    expected_slot(*reg, *store, ent as int, *sel, olds, j, e2),
                ),
            forall|e2: int|
                0 <= e2 < n_edges && #[trigger] done@[e2] ==> sel.selects(e2 as usize),
            forall|t: int|
                #![trigger trace@[t].depth]
                old(trace)@.len() <= t < trace@.len() ==> trace@[t].depth >= depth,
            forall|t: int|
                #![trigger trace@[t].depth]
                old(trace)@.len() <= t < trace@.len() && depth < u64::MAX && trace@[t].depth
                    == depth ==> level_request(*reg, ent as int, *sel, olds, trace@[t]) && (
                trace@[t].kind is ByForeignKey ==> trace@[t].edges@.len() == 1 && done@[trace@[t].edges@[0] as int])
                    && (trace@[t].kind is ByIds ==> forall|e3: int|
                    #![trigger done@[e3]]
                    0 <= e3 < n_edges && edge_at(*reg, ent as int, e3) is One && edge_at(
                        *reg,
                        ent as int,
                        e3,
                    )->One_0.target == trace@[t].target && sel.selects(e3 as usize) ==> done@[e3]),
            forall|t1: int, t2: int|
                #![trigger trace@[t1].depth, trace@[t2].depth]
                old(trace)@.len() <= t1 < t2 < trace@.len() && depth < u64::MAX && trace@[t1].depth
                    == depth && trace@[t2].depth == depth ==> distinct_level_requests(
                    trace@[t1],
                    trace@[t2],
                ),
            forall|e2: int|
                #![trigger done@[e2]]
                0 <= e2 < n_edges && edge_at(*reg, ent as int, e2) is Many
                    && sel.selects(e2 as usize) ==> done@[e2],
            forall|e2: int|
                #![trigger done@[e2]]
                0 <= e2 < e && sel.selects(e2 as usize) ==> done@[e2],
            forall|e1: int, e2: int|
                #![trigger done@[e1], done@[e2]]
                0 <= e1 < n_edges && 0 <= e2 < n_edges && done@[e1] && edge_at(
                    *reg,
                    ent as int,
                    e1,
                ) is One && edge_at(*reg, ent as int, e2) is One && edge_at(
                    *reg,
                    ent as int,
                    e2,
                )->One_0.target == edge_at(*reg, ent as int, e1)->One_0.target && sel.selects(
                    e2 as usize,
                ) ==> done@[e2],
            trace@.len() >= old(trace)@.len(),
            forall|t: int| 0 <= t < old(trace)@.len() ==> trace@[t] == old(trace)@[t],
            forall|t: int|
                #![trigger trace@[t]]
                old(trace)@.len() <= t < trace@.len() ==> strictly_sorted(trace@[t].keys@)
                    && trace@[t].edges@.len() > 0 && (forall|x: int|
                    0 <= x < trace@[t].edges@.len() ==> shape_mentions(
                        *reg,
                        ent as int,
                        *sel,
                        trace@[t].parent_ent as int,
                        #[trigger] trace@[t].edges@[x] as int,
                    )),
            olds.len() == 0 ==> *trace == *old(trace),
        decreases n_edges - e,
    {
        let mut selected = false;
        if !done[e] {
            match &reg.entities[ent].edges[e] {
                Edge::One(_) => {
                    selected = match sel.find_first(e) {
                        Option::Some(_) => true,
                        Option::None => false,
                    };
                },
                Edge::Many(_) => {},
            }
        }
        if selected {
            let target = match &reg.entities[ent].edges[e] {
                Edge::One(o) => o.target,
                Edge::Many(_) => {
                    proof {
                        assert(false);
                    }
                    0
                },
            };
            proof {
                assert(valid_edge(*reg, ent as int, e as int));
                assert(edge_wf(*reg, ent as int, edge_at(*reg, ent as int, e as int)));
            }
            // collect the group: every not-yet-done selected to-one edge
            // with this target, by its first selected occurrence, in
            // edge order
            let mut group: Vec<usize> = Vec::new();
            let mut e2: usize = e;
            while e2 < n_edges
                invariant
                    reg_wf(*reg),
                    ent < reg.entities@.len(),
                    n_edges == reg.entities@[ent as int].edges@.len(),
                    done@.len() == n_edges,
                    e <= e2 <= n_edges,
                    (e as int) < n_edges,
                    target < reg.entities@.len(),
                    !done@[e as int],
                    edge_at(*reg, ent as int, e as int) is One,
                    edge_at(*reg, ent as int, e as int)->One_0.target == target,
                    sel.selects(e),
                    forall|g: int|
                        0 <= g < group@.len() ==> #[trigger] group@[g] < sel.edges@.len(),
                    forall|g: int|
                        0 <= g < group@.len() ==> (e as int) <= sel.edges@[
                            #[trigger] group@[g] as int
                        ].edge as int,
                    forall|g: int|
                        0 <= g < group@.len() ==> (sel.edges@[
                            #[trigger] group@[g] as int
                        ].edge as int) < e2,
                    forall|g: int|
                        0 <= g < group@.len() ==> valid_edge(
                            *reg,
                            ent as int,
                            sel.edges@[#[trigger] group@[g] as int].edge as int,
                        ),
                    forall|g: int|
                        0 <= g < group@.len() ==> edge_at(
                            *reg,
                            ent as int,
                            sel.edges@[#[trigger] group@[g] as int].edge as int,
                        ) is One,
                    forall|g: int|
                        0 <= g < group@.len() ==> edge_at(
                            *reg,
                            ent as int,
                            sel.edges@[#[trigger] group@[g] as int].edge as int,
                        )->One_0.target == target,
                    forall|g: int|
                        0 <= g < group@.len() ==> !done@[sel.edges@[
                            #[trigger] group@[g] as int
                        ].edge as int],
                    forall|g: int|
                        0 <= g < group@.len() ==> sel.selects(
                            sel.edges@[#[trigger] group@[g] as int].edge,
                        ),
                    forall|g: int|
                        0 <= g < group@.len() ==> #[trigger] group@[g] as int == sel.first_sel(
                            sel.edges@[group@[g] as int].edge,
                        ),
                    forall|g1: int, g2: int|
                        #![trigger group@[g1], group@[g2]]
                        0 <= g1 < g2 < group@.len() ==> (sel.edges@[group@[g1] as int].edge as int)
                            < sel.edges@[group@[g2] as int].edge as int,
                    forall|e3: int|
                        #![trigger done@[e3]]
                        (e as int) <= e3 < e2 && !done@[e3] && edge_at(
                            *reg,
                            ent as int,
                            e3,
                        ) is One && edge_at(*reg, ent as int, e3)->One_0.target == target
                            && sel.selects(e3 as usize) ==> exists|g: int|
                            0 <= g < group@.len() && sel.edges@[
                                #[trigger] group@[g] as int
                            ].edge as int == e3,
                    e2 > e ==> group@.len() > 0,
                decreases n_edges - e2,
            {
                if !done[e2] {
                    match &reg.entities[ent].edges[e2] {
                        Edge::One(o2) => {
                            if o2.target == target {
                                let ghost group_pre = group@;
                                match sel.find_first(e2) {
                                    Option::Some(si2) => {
                                        group.push(si2);
                                        proof {
                                            assert forall|e3: int|
                                                #![trigger done@[e3]]
                                                (e as int) <= e3 <= e2 && !done@[e3] && edge_at(
                                                    *reg,
                                                    ent as int,
                                                    e3,
                                                ) is One && edge_at(
                                                    *reg,
                                                    ent as int,
                                                    e3,
                                                )->One_0.target == target && sel.selects(
                                                    e3 as usize,
                                                ) implies exists|g: int|
                                                0 <= g < group@.len() && (sel.edges@[
                                                    #[trigger] group@[g] as int
                                                ].edge as int) == e3 by {
                                                if e3 == e2 as int {
                                                    assert(sel.edges@[
                                                        group@[group@.len() - 1] as int
                                                    ].edge as int == e2 as int);
                                                } else {
                                                    let g0 = choose|g0: int|
                                                        0 <= g0 < group_pre.len() && (sel.edges@[
                                                            #[trigger] group_pre[g0] as int
                                                        ].edge as int) == e3;
                                                    assert(group@[g0] == group_pre[g0]);
                                                    assert((sel.edges@[
                                                        group@[g0] as int
                                                    ].edge as int) == e3);
                                                }
                                            }
                                        }
                                    },
                                    Option::None => {},
                                }
                            }
                        },
                        Edge::Many(_) => {},
                    }
                }
                proof {
                    if e2 == e && group@.len() == 0 {
                        assert(sel.selects(e));
                        assert(false);
                    }
                }
                e2 += 1;
            }
            let ghost pre = nodes_view(nodes@);
            let ghost done_pre = done@;
            let ghost trace_before = trace@;
            preload_one_group(store, reg, ent, nodes, sel, &group, target, trace, depth);
            // mark the whole group done
            let mut gi: usize = 0;
            while gi < group.len()
                invariant
                    gi <= group@.len(),
                    done@.len() == done_pre.len(),
                    forall|g: int|
                        0 <= g < group@.len() ==> #[trigger] group@[g] < sel.edges@.len(),
                    forall|g: int|
                        0 <= g < group@.len() ==> sel.edges@[
                            #[trigger] group@[g] as int
                        ].edge < done_pre.len(),
                    forall|e3: int|
                        0 <= e3 < done@.len() ==> #[trigger] done@[e3] == (done_pre[e3]
                            || exists|g: int|
                            0 <= g < gi && sel.edges@[#[trigger] group@[g] as int].edge == e3),
                decreases group@.len() - gi,
            {
                let ge = sel.edges[group[gi]].edge;
                done.set(ge, true);
                proof {
                    assert forall|e3: int| 0 <= e3 < done@.len() implies #[trigger] done@[e3]
                        == (done_pre[e3] || exists|g: int|
                        0 <= g < gi + 1 && sel.edges@[#[trigger] group@[g] as int].edge
                            == e3) by {
                        if e3 == ge {
                            assert(sel.edges@[group@[gi as int] as int].edge == e3);
                        }
                    }
                }
                gi += 1;
            }
            proof {
                reveal(expected_slot);
                lemma_level_keys(pre, olds);
                if depth < u64::MAX {
                    // the group serves every selected to-one edge with
                    // this target, none left out
                    assert forall|e3: int|
                        #![trigger edge_at(*reg, ent as int, e3)]
                        0 <= e3 < n_edges && edge_at(*reg, ent as int, e3) is One && edge_at(
                            *reg,
                            ent as int,
                            e3,
                        )->One_0.target == target && sel.selects(e3 as usize) implies (exists|
                        g2: int,
                    |
                        0 <= g2 < group@.len() && (sel.edges@[#[trigger] group@[g2] as int].edge
                            as int) == e3) by {
                        if done_pre[e3] {
                            assert(done_pre[e as int]);
                            assert(false);
                        }
                        if e3 < e as int {
                            assert(done_pre[e3]);
                            assert(false);
                        }
                    }
                    lemma_level_trace_step_one(
                        *reg,
                        ent as int,
                        *sel,
                        olds,
                        pre,
                        depth,
                        old(trace)@.len() as int,
                        trace_before,
                        trace@,
                        done_pre,
                        done@,
                        group@,
                        target,
                        e,
                        n_edges as int,
                    );
                }
                assert forall|j: int, e3: int|
                    #![trigger node_view(nodes@[j]).slots[e3]]
                    0 <= j < olds.len() && 0 <= e3 < n_edges && done@[e3]
                        && !done_pre[e3] implies slot_conforms(
                    node_view(nodes@[j]).slots[e3],
                    olds[j].slots[e3],
                    expected_slot(*reg, *store, ent as int, *sel, olds, j, e3),
                ) by {
                    let g = choose|g: int|
                        0 <= g < group@.len() && sel.edges@[#[trigger] group@[g] as int].edge
                            == e3;
                    assert(pre[j].slots[e3] == olds[j].slots[e3]);
                    assert(pre[j].row == olds[j].row);
                    assert(sel.selects(e3 as usize)) by {
                        assert(sel.edges@[group@[g] as int].edge == e3);
                    }
                    assert(expected_slot(*reg, *store, ent as int, *sel, olds, j, e3)
                        == one_shape(
                        *store,
                        edge_at(*reg, ent as int, e3)->One_0,
                        olds[j].row.keys[edge_at(*reg, ent as int, e3)->One_0.key_col as int],
                        olds[j].slots[e3],
                    ));
                }
                assert forall|j: int, e3: int|
                    #![trigger node_view(nodes@[j]).slots[e3]]
                    0 <= j < olds.len() && 0 <= e3 < n_edges && !done@[e3] implies node_view(
                    nodes@[j],
                ).slots[e3] == olds[j].slots[e3] by {
                    assert(!done_pre[e3]);
                    assert(pre[j].slots[e3] == olds[j].slots[e3]);
                    assert forall|g: int| 0 <= g < group@.len() implies sel.edges@[
                        #[trigger] group@[g] as int
                    ].edge as int != e3 by {
                        if sel.edges@[group@[g] as int].edge as int == e3 {
                            assert(done@[e3]);
                        }
                    }
                }
                assert(done@[e as int]) by {
                    assert(exists|g: int|
                        0 <= g < group@.len() && sel.edges@[#[trigger] group@[g] as int].edge
                            as int == e as int);
                }
            }
        }
        e += 1;
    }
    proof {
        reveal(expected_slot);
        assert forall|j: int, e: int|
            #![trigger node_view(nodes@[j]).slots[e]]
            0 <= j < olds.len() && 0 <= e < olds[j].slots.len() implies slot_conforms(
            node_view(nodes@[j]).slots[e],
            olds[j].slots[e],
            expected_slot(*reg, *store, ent as int, *sel, olds, j, e),
        ) by {
            assert(olds[j].slots.len() == n_edges);
            if !done@[e] {
                if valid_edge(*reg, ent as int, e) && sel.selects(e as usize) {
                    assert(done@[e]);
                }
            }
        }
    }
}

/// A selected edge, and everything its nested selection mentions, is
/// mentioned by the whole shape.
pub proof fn lemma_mentions_at(
    reg: Registry,
    ent: int,
    sel: Selection,
    si: int,
    q_ent: int,
    q_edge: int,
)
    requires
        0 <= si < sel.edges@.len(),
        valid_edge(reg, ent, sel.edges@[si].edge as int),
        ((q_ent == ent && sel.edges@[si].edge as int == q_edge) || shape_mentions(
            reg,
            edge_at(reg, ent, sel.edges@[si].edge as int).spec_target() as int,
            sel.edges@[si].sub,
            q_ent,
            q_edge,
        )),
    ensures
        shape_mentions(reg, ent, sel, q_ent, q_edge),
{
    assert(mentions_upto(reg, ent, sel, si + 1, q_ent, q_edge));
    lemma_mentions_monotone(reg, ent, sel, si + 1, sel.edges@.len() as int, q_ent, q_edge);
}

} // verus!
