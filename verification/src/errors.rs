//! Error taxonomy of the pipeline.
//!
//! Every failure carries the offending vertex id, bone or morph name, or
//! source line, so a caller can report exactly what was wrong.  Errors of
//! one avatar's pipeline never touch the shared immutable tables.

use vstd::prelude::*;

verus! {

/// Malformed asset or morph text: the (zero-based) line that could not
/// be understood.
#[derive(Clone, PartialEq, Eq, Structural, Debug)]
pub struct ParseError {
    pub line: usize,
}

/// A failure while matching canonical vertices against render vertices.
#[derive(Clone, PartialEq, Eq, Structural, Debug)]
pub enum CorrespondenceError {
    /// The render vertex is claimed by more than one canonical vertex.
    DuplicateVertex { render: u16 },
    /// The render vertex matches no canonical vertex at all.
    UnmatchedVertex { render: u16 },
}

/// A broken rig or character configuration.
#[derive(Clone, Debug)]
pub enum ConfigError {
    /// A bone names a placement strategy the builder does not know.
    UnknownStrategy { bone: String },
    /// A bone placement refers to a vertex group or index that the
    /// tables do not provide.
    MissingPlacement { bone: String },
    /// The parent chain of a bone never reaches a root.
    BrokenHierarchy { bone: String },
    /// The rig has no unparented bone, or more than one.
    RootCount { roots: usize },
    /// A character references a morph target the library does not hold.
    MissingMorph { name: String },
}

/// Corrupt loaded data discovered while computing.
#[derive(Clone, PartialEq, Eq, Structural, Debug)]
pub enum DataConsistencyError {
    /// A vertex ends with zero total incident skin weight.
    ZeroWeightVertex { vertex: u16 },
}

} // verus!
