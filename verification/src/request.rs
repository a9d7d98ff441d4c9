//! The parts of a caller's request this library decides on.
use vstd::prelude::*;

use crate::calculations::CalculateRequest;

verus! {

/// Which way an expansion walks.
#[derive(Debug, Clone, Copy, PartialEq, Eq, Structural)]
pub enum EdgeDirection {
    /// Follow edges pointing away from the seed.
    Out,
    /// Follow edges pointing at the seed.
    In,
    /// Both, deduplicated by node.
    Both,
}

impl EdgeDirection {
    /// The wire name of a direction.
    pub fn as_str(self) -> (s: &'static str)
        ensures
            self == EdgeDirection::Out ==> s@ == "out"@,
            self == EdgeDirection::In ==> s@ == "in"@,
            self == EdgeDirection::Both ==> s@ == "both"@,
    {
        match self {
            EdgeDirection::Out => "out",
            EdgeDirection::In => "in",
            EdgeDirection::Both => "both",
        }
    }
}

impl Default for EdgeDirection {
    /// A caller who has not said which way an edge runs wants the whole
    /// neighbourhood.
    fn default() -> (d: Self)
        ensures
            d == EdgeDirection::Both,
    {
        EdgeDirection::Both
    }
}

/// Which layout computes positions.
#[derive(Debug, Clone, Copy, PartialEq, Eq, Structural)]
pub enum LayoutKernel {
    Auto,
    Simulation,
    Radial,
    Islands,
    Force,
    Geo,
}

/// The wire name of a layout kernel.
pub open spec fn kernel_name(k: LayoutKernel) -> Seq<char> {
    match k {
        LayoutKernel::Auto => "auto"@,
        LayoutKernel::Simulation => "simulation"@,
        LayoutKernel::Radial => "radial"@,
        LayoutKernel::Islands => "islands"@,
        LayoutKernel::Force => "force"@,
        LayoutKernel::Geo => "geo"@,
    }
}

impl LayoutKernel {
    /// The wire name of this kernel.
    pub fn as_str(self) -> (s: &'static str)
        ensures
            s@ == kernel_name(self),
    {
        match self {
            LayoutKernel::Auto => "auto",
            LayoutKernel::Simulation => "simulation",
            LayoutKernel::Radial => "radial",
            LayoutKernel::Islands => "islands",
            LayoutKernel::Force => "force",
            LayoutKernel::Geo => "geo",
        }
    }
}

/// A Cypher query to run: its text, an optional row limit, and whether the
/// result is to be read as a graph.
#[derive(Debug, Clone)]
pub struct CypherRequest {
    pub query: String,
    pub limit: Option<u32>,
    pub as_graph: bool,
}

/// What a caller asks of a view, with what the change history records of
/// it.
#[derive(Debug, Clone)]
pub enum Request {
    Focus,
    Highlight,
    Fit,
    References,
    BrowseType { node_type: String },
    LoadNodes,
    LoadEntities,
    Reset,
    Expand { slot: u32, relationship: Option<String>, direction: EdgeDirection },
    Collapse { slot: u32 },
    Cypher { query: String },
    Layout { kernel: LayoutKernel, seed_slot: Option<u32> },
    Calculate(CalculateRequest),
    Subset,
    Appearance,
    Presentation,
    Style,
    Caption,
}

} // verus!
