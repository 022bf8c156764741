//! The failures that route computation reports.

use vstd::prelude::*;

verus! {

/// Why a request could not be answered.
#[derive(Clone, Copy, Debug, PartialEq, Eq, Structural)]
pub enum RouteError {
    /// The request itself is malformed or too short.
    InvalidInput,
    /// No node of the network lies near the waypoint with this index.
    NotFound { waypoint: usize },
    /// The store failed while the waypoint with this index was resolved.
    StoreError { waypoint: usize },
    /// No path connects the two ends of the segment with this index.
    NoPathFound { segment: usize },
    /// A distance on the route segment with this index could not be
    /// measured.
    Unmeasured { segment: usize },
    /// The line with this index of an edge list holds a word that is no
    /// number.
    MalformedLine { line: usize },
}

} // verus!
