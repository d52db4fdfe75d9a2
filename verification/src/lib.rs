//! Council: a dependency-graph coordinator.
//!
//! Workers submit dependency DAGs of attribute-value nodes, scoped to a
//! change set.  The coordinator merges overlapping submissions, decides
//! which nodes are safe to compute next, hands each ready node to exactly
//! one worker, and notifies every other interested worker when a node's
//! value becomes available.

use vstd::prelude::*;

pub mod codec;
pub mod coordinator;
pub mod graph;
pub mod laws;
pub mod node;
pub mod queue;

verus! {

/// Opaque identifier for change sets and attribute-value nodes.
pub type Id = u128;

/// A dependency graph as submitted by a worker: each entry maps a node to
/// the list of nodes it depends on (which must be computed first).
pub type DepGraph = Vec<(Id, Vec<Id>)>;

/// Protocol errors.  Each is local to the offending request; the
/// coordinator's state is left unchanged when one is returned.
#[derive(Clone, Copy, Debug, PartialEq, Eq, Structural)]
pub enum Error {
    /// `finished_processing` was invoked by a channel that does not hold
    /// the value-creation slot.
    UnexpectedJobId,
    /// `ValueProcessed` arrived from a channel that is not the node's
    /// current processor.
    ShouldNotBeProcessingByJob,
    /// `ValueProcessed` named a node that is absent (likely stale after a
    /// failure cascade).
    UnknownNodeId,
}

/// `s` with every occurrence of `x` removed, the order of the rest kept.
pub open spec fn remove_all<A>(s: Seq<A>, x: A) -> Seq<A>
    decreases s.len(),
{
    if s.len() == 0 {
        s
    } else if s.last() == x {
        remove_all(s.drop_last(), x)
    } else {
        remove_all(s.drop_last(), x).push(s.last())
    }
}

} // verus!
