//! A relationship-preloading engine for graph-shaped queries over a
//! relational store.
//!
//! Given a root set of entities and the shape a query actually requested,
//! the engine batches the fetches needed for each relationship (one fetch
//! per edge per depth level), deduplicates lookup keys, fans the fetched
//! children back to their parents, and leaves each parent a one-shot slot
//! that a later field resolver drains exactly once, falling back to a
//! direct per-row fetch when no batch result exists.

use vstd::prelude::*;

pub mod descriptor;
pub mod keys;
pub mod laws;
pub mod node;
pub mod preload;
pub mod resolve;
pub mod row;
pub mod seqs;
pub mod shape;
pub mod slot;
pub mod store;
pub mod text;

pub use descriptor::Edge;
pub use descriptor::EntityDesc;
pub use descriptor::HasMany;
pub use descriptor::HasOne;
pub use descriptor::Registry;
pub use preload::BatchKind;
pub use preload::BatchRequest;
pub use resolve::FieldError;
pub use shape::EdgeSel;
pub use shape::Selection;
pub use slot::Node;
pub use slot::Slot;
pub use slot::SlotValue;
pub use store::Filter;
pub use store::RepoError;
pub use store::Store;
pub use store::Table;
pub use text::lower_first;
pub use text::position;
pub use text::Position;

verus! {

/// A materialized entity row: a primary key, one optional key value per
/// declared key column, and one text value per declared text column.
#[derive(Debug)]
pub struct Row {
    pub id: u64,
    pub keys: Vec<Option<u64>>,
    pub texts: Vec<String>,
}

/// A request-scoped context: it hands the engine the connection the
/// fetches of one resolution go through.
pub trait Context {
    /// The backend the connection speaks to.
    type DB;

    /// The connection fetches are served from.
    type Connection;

    /// Borrows the connection for the current resolution.
    fn get_connection(&self) -> &Self::Connection;
}

/// A context whose connection is the in-memory store itself.
pub struct MemContext {
    pub store: Store,
}

impl Context for MemContext {
    type DB = ();

    type Connection = Store;

    fn get_connection(&self) -> &Store {
        &self.store
    }
}

} // verus!
