//! Ancestry-to-geography path resolution over a pedigree graph.
//!
//! The crate answers two families of questions about a genealogical
//! pedigree (nodes linked by directed parent -> child edges) that carries a
//! geospatial layer (time-stamped attachments binding edges to region
//! cells, and pairwise migration-flux measurements between cells):
//!
//! * which geographic path did a lineage edge, or the whole ancestry of an
//!   individual, take through time (`paths`), and
//! * how strong is the average migration between two cells over a flux
//!   time series (`flux`).
//!
//! Storage, transport and serialization are left to the caller: every
//! function here works on plain in-memory values handed in by whatever
//! store the surrounding program uses.

use vstd::prelude::*;

pub mod attach;
pub mod flux;
pub mod graph;
pub mod paths;
pub mod seqs;

verus! {

/// Failures a resolver query can report.
///
/// Empty results are not failures: a seed with no ancestry or a cell with
/// no originating edges yields an empty result, never an `Error`.
#[derive(Clone, Copy, PartialEq, Eq, Structural, Debug)]
pub enum Error {
    /// A query id was structurally invalid: negative where an unsigned id
    /// is expected. Rejected before any traversal begins.
    MalformedInput,
    /// The ancestor traversal hit its configured visit cap: the ancestry
    /// holds more nodes than the caller allowed, so the result would have
    /// been truncated. Reported distinctly from an empty result so callers
    /// can warn rather than present an incomplete path as complete.
    TraversalBoundExceeded,
}

} // verus!
