//! One-shot preload slots.
//!
//! Each graph node carries one slot per declared edge. The orchestrator
//! fills a slot at most once per resolution; the field resolver drains it
//! with [`Slot::take`], after which every further take observes the
//! explicit `Taken` state and returns nothing. The tri-state value is
//! owned by the node and mutated only through these accessors, so a
//! resolution pass never re-arms a consumed slot.

use vstd::prelude::*;

use crate::Row;

verus! {

/// A preloaded value: a single child node for a to-one edge, or an
/// ordered sequence of child nodes for a to-many edge.
#[derive(Debug)]
pub enum SlotValue {
    One(Node),
    Many(Vec<Node>),
}

/// The holding cell for one (node, edge) pair.
#[derive(Debug)]
pub enum Slot {
    Empty,
    Filled(SlotValue),
    Taken,
}

/// A materialized entity together with one preload slot per declared
/// edge of its entity type.
#[derive(Debug)]
pub struct Node {
    pub row: Row,
    pub slots: Vec<Slot>,
}

/// Mathematical model of a slot after one `take`.
pub open spec fn spec_after_take(s: Slot) -> Slot {
    match s {
        Slot::Empty => Slot::Empty,
        Slot::Filled(_) => Slot::Taken,
        Slot::Taken => Slot::Taken,
    }
}

/// Mathematical model of the value one `take` returns.
pub open spec fn spec_take_result(s: Slot) -> Option<SlotValue> {
    match s {
        Slot::Filled(v) => Some(v),
        _ => None,
    }
}

impl Slot {
    /// Removes and returns the preloaded value. A slot yields a value at
    /// most once: after a successful take the slot is `Taken`, and every
    /// later take returns `None`.
    pub fn take(&mut self) -> (r: Option<SlotValue>)
        ensures
            *final(self) == spec_after_take(*old(self)),
            r == spec_take_result(*old(self)),
    {
        let mut prev = Slot::Taken;
        core::mem::swap(self, &mut prev);
        match prev {
            Slot::Empty => {
                *self = Slot::Empty;
                None
            }
            Slot::Filled(v) => Some(v),
            Slot::Taken => None,
        }
    }

    /// Writes a value into the slot. Only an empty slot accepts a write;
    /// on a filled or consumed slot the attempt degrades to a no-op, so a
    /// duplicate write can never resurrect a drained value.
    pub fn fill(&mut self, v: SlotValue)
        ensures
            *old(self) is Empty ==> *final(self) == Slot::Filled(v),
            !(*old(self) is Empty) ==> *final(self) == *old(self),
    {
        if let Slot::Empty = self {
            *self = Slot::Filled(v);
        }
    }
}

/// A slot, once taken, returns empty on every subsequent take within the
/// same resolution: after any take the slot state is a fixed point of
/// taking, and a take in that state yields nothing.
pub proof fn lemma_take_exhausts(s: Slot)
    ensures
        spec_take_result(spec_after_take(s)) is None,
        spec_after_take(spec_after_take(s)) == spec_after_take(s),
{
}

} // verus!
