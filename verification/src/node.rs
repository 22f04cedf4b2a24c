//! Graph nodes: their mathematical model and the helpers that build,
//! copy and search them.

use vstd::prelude::*;
use vstd::pervasive::VecAdditionalExecFns;

use crate::row::row_view;
use crate::row::rows_view;
use crate::row::RowV;
use crate::slot::Node;
use crate::slot::Slot;
use crate::slot::SlotValue;
use crate::Row;

verus! {

broadcast use vstd::std_specs::vec::group_vec_axioms, vstd::seq::axiom_seq_index_decreases;

/// Mathematical model of a preloaded value.
pub ghost enum ValueV {
    One(NodeV),
    Many(Seq<NodeV>),
}

/// Mathematical model of a slot.
pub ghost enum SlotV {
    Empty,
    Filled(ValueV),
    Taken,
}

/// Mathematical model of a node: its row and one slot per declared
/// edge.
pub ghost struct NodeV {
    pub row: RowV,
    pub slots: Seq<SlotV>,
}

/// The model of a node.
pub open spec fn node_view(n: Node) -> NodeV
    decreases n, 3int, 0int,
{
    NodeV { row: row_view(n.row), slots: slots_view(n, n.slots@.len() as int) }
}

/// The models of the first `i` slots of a node.
pub open spec fn slots_view(n: Node, i: int) -> Seq<SlotV>
    decreases n, 2int, i,
{
    if i <= 0 || i > n.slots@.len() {
        Seq::empty()
    } else {
        slots_view(n, i - 1).push(slot_view(n.slots@[i - 1]))
    }
}

/// The model of a slot.
pub open spec fn slot_view(s: Slot) -> SlotV
    decreases s, 3int, 0int,
{
    match s {
        Slot::Empty => SlotV::Empty,
        Slot::Taken => SlotV::Taken,
        Slot::Filled(v) => SlotV::Filled(value_view(v)),
    }
}

/// The model of a preloaded value.
pub open spec fn value_view(v: SlotValue) -> ValueV
    decreases v, 3int, 0int,
{
    match v {
        SlotValue::One(n) => ValueV::One(node_view(n)),
        SlotValue::Many(_) => ValueV::Many(many_view(v, v->Many_0@.len() as int)),
    }
}

/// The models of the first `i` nodes held by a to-many value.
pub open spec fn many_view(v: SlotValue, i: int) -> Seq<NodeV>
    decreases v, 2int, i,
{
    if i <= 0 || !(v is Many) || i > v->Many_0@.len() {
        Seq::empty()
    } else {
        many_view(v, i - 1).push(node_view(v->Many_0@[i - 1]))
    }
}

/// The models of a sequence of nodes.
pub open spec fn nodes_view(ns: Seq<Node>) -> Seq<NodeV> {
    ns.map_values(|n: Node| node_view(n))
}

/// The rows of a sequence of node models.
pub open spec fn rows_of(ns: Seq<NodeV>) -> Seq<RowV> {
    ns.map_values(|n: NodeV| n.row)
}

/// A node's slot models line up with its slots, one each.
pub proof fn lemma_slots_view(n: Node, i: int)
    requires
        0 <= i <= n.slots@.len(),
    ensures
        slots_view(n, i).len() == i,
        forall|j: int| 0 <= j < i ==> slots_view(n, i)[j] == slot_view(n.slots@[j]),
    decreases i,
{
    if i > 0 {
        lemma_slots_view(n, i - 1);
    }
}

/// A to-many value's node models line up with the nodes it holds.
pub proof fn lemma_many_view(v: SlotValue, i: int)
    requires
        v is Many,
        0 <= i <= v->Many_0@.len(),
    ensures
        many_view(v, i).len() == i,
        forall|j: int| 0 <= j < i ==> many_view(v, i)[j] == node_view(v->Many_0@[j]),
    decreases i,
{
    if i > 0 {
        lemma_many_view(v, i - 1);
    }
}

/// Wraps a fetched row into a node with one empty slot per declared
/// edge.
pub fn node_from_row(row: Row, n_edges: usize) -> (r: Node)
    ensures
        node_view(r).row == row_view(row),
        node_view(r).slots.len() == n_edges,
        forall|e: int| 0 <= e < n_edges ==> node_view(r).slots[e] == SlotV::Empty,
{
    let mut slots: Vec<Slot> = Vec::new();
    let mut i: usize = 0;
    while i < n_edges
        invariant
            i <= n_edges,
            slots@.len() == i,
            forall|e: int| 0 <= e < i ==> slots@[e] is Empty,
        decreases n_edges - i,
    {
        slots.push(Slot::Empty);
        i += 1;
    }
    let r = Node { row, slots };
    proof {
        lemma_slots_view(r, r.slots@.len() as int);
        assert(forall|e: int|
            0 <= e < n_edges ==> node_view(r).slots[e] == slot_view(r.slots@[e]));
    }
    r
}

/// Wraps fetched rows into nodes, in fetch order, each with empty
/// slots.
pub fn nodes_from_rows(rows: Vec<Row>, n_edges: usize) -> (r: Vec<Node>)
    ensures
        r@.len() == rows@.len(),
        rows_of(nodes_view(r@)) == rows_view(rows@),
        forall|j: int|
            0 <= j < r@.len() ==> node_view(#[trigger] r@[j]).slots.len() == n_edges,
        forall|j: int, e: int|
            #![trigger node_view(r@[j]).slots[e]]
            0 <= j < r@.len() && 0 <= e < n_edges ==> node_view(r@[j]).slots[e]
                == SlotV::Empty,
{
    let mut out: Vec<Node> = Vec::new();
    let mut rows = rows;
    let ghost orig = rows@;
    while rows.len() > 0
        invariant
            rows@.len() + out@.len() == orig.len(),
            rows@ == orig.subrange(out@.len() as int, orig.len() as int),
            forall|j: int|
                0 <= j < out@.len() ==> node_view(#[trigger] out@[j]).row == row_view(orig[j]),
            forall|j: int|
                0 <= j < out@.len() ==> node_view(#[trigger] out@[j]).slots.len() == n_edges,
            forall|j: int, e: int|
                #![trigger node_view(out@[j]).slots[e]]
                0 <= j < out@.len() && 0 <= e < n_edges ==> node_view(
                    out@[j],
                ).slots[e] == SlotV::Empty,
        decreases rows@.len(),
    {
        let ghost done = out@.len() as int;
        let row = rows.remove(0);
        proof {
            assert(row == orig[done]);
            assert(rows@ =~= orig.subrange(done + 1, orig.len() as int));
        }
        out.push(node_from_row(row, n_edges));
    }
    proof {
        assert(rows_of(nodes_view(out@)) =~= rows_view(orig));
    }
    out
}

/// Deep-copies a node; the copy models the same node.
pub fn clone_node(n: &Node) -> (r: Node)
    ensures
        node_view(r) == node_view(*n),
    decreases *n, 3int, 0int,
{
    let row = n.row.duplicate();
    let mut slots: Vec<Slot> = Vec::new();
    let mut i: usize = 0;
    while i < n.slots.len()
        invariant
            i <= n.slots@.len(),
            slots@.len() == i,
            forall|e: int|
                0 <= e < i ==> slot_view(#[trigger] slots@[e]) == slot_view(n.slots@[e]),
        decreases n.slots@.len() - i,
    {
        slots.push(clone_slot(&n.slots[i]));
        i += 1;
    }
    let r = Node { row, slots };
    proof {
        lemma_slots_view(r, r.slots@.len() as int);
        lemma_slots_view(*n, n.slots@.len() as int);
        assert(node_view(r).slots =~= node_view(*n).slots);
    }
    r
}

/// Deep-copies a slot; the copy models the same slot.
pub fn clone_slot(s: &Slot) -> (r: Slot)
    ensures
        slot_view(r) == slot_view(*s),
    decreases *s, 3int, 0int,
{
    match s {
        Slot::Empty => Slot::Empty,
        Slot::Taken => Slot::Taken,
        Slot::Filled(v) => Slot::Filled(clone_value(v)),
    }
}

/// Deep-copies a preloaded value; the copy models the same value.
pub fn clone_value(v: &SlotValue) -> (r: SlotValue)
    ensures
        value_view(r) == value_view(*v),
    decreases *v, 3int, 0int,
{
    match v {
        SlotValue::One(n) => SlotValue::One(clone_node(n)),
        SlotValue::Many(ns) => {
            let mut out: Vec<Node> = Vec::new();
            let mut i: usize = 0;
            while i < ns.len()
                invariant
                    v is Many,
                    ns == &v->Many_0,
                    i <= ns@.len(),
                    out@.len() == i,
                    forall|j: int|
                        0 <= j < i ==> node_view(#[trigger] out@[j]) == node_view(ns@[j]),
                decreases ns@.len() - i,
            {
                out.push(clone_node(&ns[i]));
                i += 1;
            }
            let r = SlotValue::Many(out);
            proof {
                lemma_many_view(r, r->Many_0@.len() as int);
                lemma_many_view(*v, v->Many_0@.len() as int);
                assert(many_view(r, r->Many_0@.len() as int) =~= many_view(
                    *v,
                    v->Many_0@.len() as int,
                ));
            }
            r
        },
    }
}

/// The model of a slot after one take.
pub open spec fn slot_after_take(s: SlotV) -> SlotV {
    match s {
        SlotV::Filled(_) => SlotV::Taken,
        _ => s,
    }
}

/// The model of the value one take returns.
pub open spec fn slot_take_result(s: SlotV) -> Option<ValueV> {
    match s {
        SlotV::Filled(v) => Some(v),
        _ => None,
    }
}

impl Node {
    /// Drains the slot of one edge: removes and returns the preloaded
    /// value, leaving the slot consumed; an empty or consumed slot
    /// yields nothing and is left as it was.
    pub fn take_slot(&mut self, e: usize) -> (r: Option<SlotValue>)
        requires
            e < old(self).slots@.len(),
        ensures
            final(self).row == old(self).row,
            final(self).slots@.len() == old(self).slots@.len(),
            forall|e2: int|
                0 <= e2 < old(self).slots@.len() && e2 != e ==> final(self).slots@[e2] == old(
                    self,
                ).slots@[e2],
            slot_view(final(self).slots@[e as int]) == slot_after_take(
                slot_view(old(self).slots@[e as int]),
            ),
            match r {
                Option::Some(v) => slot_take_result(slot_view(old(self).slots@[e as int]))
                    == Some(value_view(v)),
                Option::None => slot_take_result(slot_view(old(self).slots@[e as int])) is None,
            },
    {
        let mut s = Slot::Taken;
        self.slots.set_and_swap(e, &mut s);
        match s {
            Slot::Empty => {
                self.slots.set(e, Slot::Empty);
                None
            },
            Slot::Filled(v) => Some(v),
            Slot::Taken => None,
        }
    }

    /// Writes a preloaded value into the slot of one edge; only an empty
    /// slot accepts the write, so a consumed slot is never re-armed.
    pub fn fill_slot(&mut self, e: usize, v: SlotValue)
        requires
            e < old(self).slots@.len(),
        ensures
            final(self).row == old(self).row,
            final(self).slots@.len() == old(self).slots@.len(),
            forall|e2: int|
                0 <= e2 < old(self).slots@.len() && e2 != e ==> final(self).slots@[e2] == old(
                    self,
                ).slots@[e2],
            old(self).slots@[e as int] is Empty ==> slot_view(final(self).slots@[e as int])
                == SlotV::Filled(value_view(v)),
            !(old(self).slots@[e as int] is Empty) ==> final(self).slots@[e as int] == old(
                self,
            ).slots@[e as int],
    {
        let is_empty = match &self.slots[e] {
            Slot::Empty => true,
            _ => false,
        };
        if is_empty {
            self.slots.set(e, Slot::Filled(v));
        }
    }
}

/// Finds the first node whose row has the given primary key.
pub fn find_by_id(ns: &Vec<Node>, k: u64) -> (r: Option<usize>)
    ensures
        match r {
            Option::Some(i) => i < ns@.len() && node_view(ns@[i as int]).row.id == k && (forall|
                j: int,
            |
                0 <= j < i ==> node_view(#[trigger] ns@[j]).row.id != k),
            Option::None => forall|j: int|
                0 <= j < ns@.len() ==> node_view(#[trigger] ns@[j]).row.id != k,
        },
{
    let mut i: usize = 0;
    while i < ns.len()
        invariant
            i <= ns@.len(),
            forall|j: int| 0 <= j < i ==> node_view(#[trigger] ns@[j]).row.id != k,
        decreases ns@.len() - i,
    {
        if ns[i].row.id == k {
            return Some(i);
        }
        i += 1;
    }
    None
}

} // verus!
