//! The relationship descriptor registry.
//!
//! One entry per entity type describes its columns and its edges. The
//! registry is built once, up front, and the orchestrator consults it
//! generically; nothing else knows the concrete entity types.

use vstd::prelude::*;

verus! {

/// A to-one edge: the parent stores the target's primary key in one of
/// its own key columns.
pub struct HasOne {
    /// Index of the target entity type in the registry.
    pub target: usize,
    /// Parent key column holding the target's primary key.
    pub key_col: usize,
}

/// A to-many edge: each child stores the parent's primary key in one of
/// the child's key columns. Pagination applies to this kind of edge.
pub struct HasMany {
    /// Index of the target entity type in the registry.
    pub target: usize,
    /// Child key column holding the parent's primary key.
    pub fk_col: usize,
}

/// A declared relationship of an entity type.
pub enum Edge {
    One(HasOne),
    Many(HasMany),
}

impl Edge {
    /// Index of the entity type this edge points at.
    pub open spec fn spec_target(self) -> usize {
        match self {
            Edge::One(o) => o.target,
            Edge::Many(m) => m.target,
        }
    }

    /// Index of the entity type this edge points at.
    pub fn target(&self) -> (t: usize)
        ensures
            t == self.spec_target(),
    {
        match self {
            Edge::One(o) => o.target,
            Edge::Many(m) => m.target,
        }
    }
}

/// Static description of one entity type: how many key and text columns
/// its rows carry, and its declared edges.
pub struct EntityDesc {
    pub key_cols: usize,
    pub text_cols: usize,
    pub edges: Vec<Edge>,
}

/// The descriptor table, one entry per entity type.
pub struct Registry {
    pub entities: Vec<EntityDesc>,
}

/// An edge declared by entity `ent` is well formed: its target exists,
/// and its key column exists on the row that carries it (the parent row
/// for a to-one edge, the child row for a to-many edge).
pub open spec fn edge_wf(reg: Registry, ent: int, e: Edge) -> bool {
    match e {
        Edge::One(o) => {
            &&& o.target < reg.entities@.len()
            &&& o.key_col < reg.entities@[ent].key_cols
        },
        Edge::Many(m) => {
            &&& m.target < reg.entities@.len()
            &&& m.fk_col < reg.entities@[m.target as int].key_cols
        },
    }
}

/// The edge index exists on the entity type.
pub open spec fn valid_edge(reg: Registry, ent: int, e: int) -> bool {
    0 <= ent < reg.entities@.len() && 0 <= e < reg.entities@[ent].edges@.len()
}

/// The declared edge at this index.
pub open spec fn edge_at(reg: Registry, ent: int, e: int) -> Edge {
    reg.entities@[ent].edges@[e]
}

/// Every edge of every entity type is well formed.
pub open spec fn reg_wf(reg: Registry) -> bool {
    forall|ent: int, k: int|
        0 <= ent < reg.entities@.len() && 0 <= k < reg.entities@[ent].edges@.len() ==> edge_wf(
            reg,
            ent,
            #[trigger] reg.entities@[ent].edges@[k],
        )
}

impl Registry {
    /// Checks the registry invariant: every declared edge points at an
    /// entity type that exists and names a key column that exists.
    pub fn is_well_formed(&self) -> (b: bool)
        ensures
            b == reg_wf(*self),
    {
        let mut ent: usize = 0;
        while ent < self.entities.len()
            invariant
                ent <= self.entities@.len(),
                forall|e: int, k: int|
                    0 <= e < ent && 0 <= k < self.entities@[e].edges@.len() ==> edge_wf(
                        *self,
                        e,
                        #[trigger] self.entities@[e].edges@[k],
                    ),
            decreases self.entities@.len() - ent,
        {
            let edges = &self.entities[ent].edges;
            let mut k: usize = 0;
            while k < edges.len()
                invariant
                    k <= edges@.len(),
                    edges == &self.entities@[ent as int].edges,
                    ent < self.entities@.len(),
                    forall|j: int|
                        0 <= j < k ==> edge_wf(*self, ent as int, #[trigger] edges@[j]),
                decreases edges@.len() - k,
            {
                let ok = match &edges[k] {
                    Edge::One(o) => o.target < self.entities.len() && o.key_col
                        < self.entities[ent].key_cols,
                    Edge::Many(m) => m.target < self.entities.len() && m.fk_col
                        < self.entities[m.target].key_cols,
                };
                if !ok {
                    return false;
                }
                k += 1;
            }
            ent += 1;
        }
        true
    }
}

} // verus!
