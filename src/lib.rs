//! A command parser and dispatcher core: an input scanner, argument types,
//! suggestion ranges and a command tree with merging and redirects.
pub mod ambiguity;
pub mod arguments;
pub mod builder;
pub mod context;
pub mod errors;
pub mod string_reader;
pub mod suggestion;
pub mod text;
pub mod tree;

use vstd::prelude::*;

use crate::tree::RequirementId;

verus! {

/// Decides, for the host, whether a command source meets a node's
/// requirement.
pub trait CommandRequirement<CS> {
    /// Whether `source` meets `requirement`.
    spec fn spec_test(&self, requirement: RequirementId, source: CS) -> bool;

    fn test(&self, requirement: RequirementId, source: &CS) -> (r: bool)
        ensures
            r == self.spec_test(requirement, *source),
    ;
}

/// Lets every source meet every requirement.
#[derive(Debug, Clone, Copy, PartialEq, Eq)]
pub struct Unrestricted;

impl<CS> CommandRequirement<CS> for Unrestricted {
    open spec fn spec_test(&self, requirement: RequirementId, source: CS) -> bool {
        true
    }

    fn test(&self, requirement: RequirementId, source: &CS) -> (r: bool) {
        true
    }
}

} // verus!
