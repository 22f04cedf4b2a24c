//! The requested query shape.
//!
//! A [`Selection`] lists the edges a query actually asked for, each with
//! its pagination arguments and its own nested selection. Only selected
//! edges are preloaded; an edge index that does not exist on the entity
//! type is an introspection inconsistency and is treated as not
//! selected.

use vstd::prelude::*;

verus! {

/// One selected edge: the edge index on the parent entity type, the
/// pagination arguments supplied by the query (if any), and the nested
/// selection to preload on the fetched children.
pub struct EdgeSel {
    pub edge: usize,
    pub limit: Option<usize>,
    pub offset: Option<usize>,
    pub sub: Selection,
}

/// The edges requested on one entity type.
pub struct Selection {
    pub edges: Vec<EdgeSel>,
}

/// Pagination default: a to-many fetch without an explicit limit returns
/// at most this many rows.
pub const DEFAULT_LIMIT: usize = 10;

/// Pagination default: a to-many fetch without an explicit offset skips
/// no rows.
pub const DEFAULT_OFFSET: usize = 0;

/// The limit a to-many fetch uses: the explicit argument, or the
/// default.
pub open spec fn spec_limit_of(limit: Option<usize>) -> usize {
    match limit {
        Some(l) => l,
        None => DEFAULT_LIMIT,
    }
}

/// The offset a to-many fetch uses: the explicit argument, or the
/// default.
pub open spec fn spec_offset_of(offset: Option<usize>) -> usize {
    match offset {
        Some(o) => o,
        None => DEFAULT_OFFSET,
    }
}

/// The limit a to-many fetch uses: the explicit argument, or the
/// default.
pub fn limit_of(limit: Option<usize>) -> (r: usize)
    ensures
        r == spec_limit_of(limit),
{
    match limit {
        Some(l) => l,
        None => DEFAULT_LIMIT,
    }
}

/// The offset a to-many fetch uses: the explicit argument, or the
/// default.
pub fn offset_of(offset: Option<usize>) -> (r: usize)
    ensures
        r == spec_offset_of(offset),
{
    match offset {
        Some(o) => o,
        None => DEFAULT_OFFSET,
    }
}

impl Selection {
    /// An empty shape: nothing is preloaded.
    pub fn none() -> (r: Selection)
        ensures
            r.edges@.len() == 0,
    {
        Selection { edges: Vec::new() }
    }

    /// Whether edge `e` occurs among the selected edges.
    #[verifier::opaque]
    pub open spec fn selects(self, e: usize) -> bool {
        exists|si: int| 0 <= si < self.edges@.len() && self.edges@[si].edge == e
    }

    /// The position of the first selected occurrence of edge `e`.
    #[verifier::opaque]
    pub open spec fn first_sel(self, e: usize) -> int {
        choose|si: int|
            0 <= si < self.edges@.len() && self.edges@[si].edge == e && forall|sj: int|
                0 <= sj < si ==> self.edges@[sj].edge != e
    }
}

impl Selection {
    /// Finds the first selected occurrence of edge `e`, if any.
    pub fn find_first(&self, e: usize) -> (r: Option<usize>)
        ensures
            match r {
                Option::Some(si) => (si as int) < self.edges@.len() && self.edges@[si as int].edge
                    == e && (forall|sj: int| 0 <= sj < si ==> self.edges@[sj].edge != e)
                    && self.selects(e) && self.first_sel(e) == si as int,
                Option::None => !self.selects(e),
            },
    {
        let mut si: usize = 0;
        while si < self.edges.len()
            invariant
                si <= self.edges@.len(),
                forall|sj: int| 0 <= sj < si ==> self.edges@[sj].edge != e,
            decreases self.edges@.len() - si,
        {
            if self.edges[si].edge == e {
                proof {
                    reveal(Selection::selects);
                    assert(self.selects(e));
                    lemma_first_sel(*self, e);
                }
                return Some(si);
            }
            si += 1;
        }
        proof {
            reveal(Selection::selects);
        }
        None
    }
}

/// The first occurrence of an edge in a selection exists, is the edge,
/// and nothing before it selects the same edge.
pub proof fn lemma_first_sel(sel: Selection, e: usize)
    requires
        sel.selects(e),
    ensures
        0 <= sel.first_sel(e) < sel.edges@.len(),
        sel.edges@[sel.first_sel(e)].edge == e,
        forall|sj: int| 0 <= sj < sel.first_sel(e) ==> sel.edges@[sj].edge != e,
    decreases sel.edges@.len(),
{
    reveal(Selection::selects);
    reveal(Selection::first_sel);
    let si = choose|si: int| 0 <= si < sel.edges@.len() && sel.edges@[si].edge == e;
    lemma_first_index(sel.edges@, e, si);
    let fi = choose|fi: int|
        0 <= fi < sel.edges@.len() && sel.edges@[fi].edge == e && forall|sj: int|
            0 <= sj < fi ==> sel.edges@[sj].edge != e;
    assert(0 <= sel.first_sel(e) < sel.edges@.len() && sel.edges@[sel.first_sel(e)].edge == e);
}

proof fn lemma_first_index(es: Seq<EdgeSel>, e: usize, si: int)
    requires
        0 <= si < es.len(),
        es[si].edge == e,
    ensures
        exists|fi: int|
            0 <= fi < es.len() && es[fi].edge == e && (forall|sj: int|
                0 <= sj < fi ==> es[sj].edge != e),
    decreases si,
{
    if forall|sj: int| 0 <= sj < si ==> es[sj].edge != e {
        assert(0 <= si < es.len() && es[si].edge == e && (forall|sj: int|
            0 <= sj < si ==> es[sj].edge != e));
    } else {
        let sj = choose|sj: int| 0 <= sj < si && es[sj].edge == e;
        lemma_first_index(es, e, sj);
    }
}

} // verus!
