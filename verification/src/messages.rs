//! Protocol message types of the entry screen.
use vstd::prelude::*;

verus! {

/// One row of the type-level meta-graph: a label (or relationship type) and
/// how many members it has.
#[derive(Debug, Clone, PartialEq, Eq)]
pub struct TypeCount {
    pub name: String,
    pub count: u32,
}

/// The entry screen's payload: what types exist and how big they are.
#[derive(Debug, Clone, PartialEq, Eq)]
pub struct MetaGraphSummary {
    pub node_types: Vec<TypeCount>,
    pub relationship_types: Vec<TypeCount>,
    /// True when a response bound clipped the lists above.
    pub truncated: bool,
}

} // verus!
