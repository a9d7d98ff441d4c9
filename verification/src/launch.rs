//! What a started server tells its caller: the one line a harness parses.
use vstd::prelude::*;

verus! {

/// The launch contract. Field names are the wire contract, parsed by name.
#[derive(Debug, Clone, PartialEq, Eq)]
pub struct LaunchInfo {
    /// Fully-qualified URL to open, e.g. `http://127.0.0.1:8731/`.
    pub url: String,
    /// The bound port, resolved, never the requested `0`.
    pub port: u16,
    /// PID of the process owning the server.
    pub pid: u32,
    /// The graph being served, as the caller named it.
    pub graph: String,
}

} // verus!
