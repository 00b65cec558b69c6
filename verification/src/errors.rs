//! Error taxonomy of the pipeline core.
//!
//! Authoring and structural errors are recoverable `Result` failures that
//! leave the graph in its last valid state; a scheduling deadlock indicates a
//! broken invariant and aborts the run.

use vstd::prelude::*;

verus! {

/// Everything that can go wrong while building or scheduling the graph.
#[derive(Clone, Copy, Debug, PartialEq, Eq, Structural)]
pub enum BuildError {
    /// A mandatory attribute (`name` or `script`) is absent.
    MissingAttribute,
    /// A mandatory attribute is present but not a string.
    BadAttributeValue,
    /// A script has no fragments, or no lines remain after the reserved
    /// first line.
    EmptyScript,
    /// Inserting the node would leave the edge set cyclic, or one of its
    /// dependency hashes is unknown to the graph.
    CycleDetected,
    /// The requested derivation hash is not a node of the graph.
    UnknownDerivation,
    /// No runnable node remains although unrun nodes exist; the graph was
    /// not acyclic, which the insertion invariant should have prevented.
    Deadlock,
}

impl BuildError {
    /// A human-readable description of the error.
    pub fn message(&self) -> (r: &'static str)
        ensures
            r@ == self.spec_message(),
    {
        match self {
            BuildError::MissingAttribute => "a mandatory attribute does not exist",
            BuildError::BadAttributeValue => "a mandatory attribute is not a string",
            BuildError::EmptyScript => "the script is empty",
            BuildError::CycleDetected => "adding the process node would create a cycle",
            BuildError::UnknownDerivation => "the derivation is not in the process graph",
            BuildError::Deadlock => "no runnable node remains; the graph was not acyclic",
        }
    }

    /// The text `message` returns for each variant.
    pub open spec fn spec_message(&self) -> Seq<char> {
        match self {
            BuildError::MissingAttribute => "a mandatory attribute does not exist"@,
            BuildError::BadAttributeValue => "a mandatory attribute is not a string"@,
            BuildError::EmptyScript => "the script is empty"@,
            BuildError::CycleDetected => "adding the process node would create a cycle"@,
            BuildError::UnknownDerivation => "the derivation is not in the process graph"@,
            BuildError::Deadlock => "no runnable node remains; the graph was not acyclic"@,
        }
    }
}

} // verus!
