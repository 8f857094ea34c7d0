//! A declarative task runner: a tree of named targets read from a
//! configuration document, where each target is either a group (a pure
//! namespace) or a callable (a list of shell command lines).  The library
//! flattens the nested target tree into a dot-qualified lookup table,
//! resolves each callable target's direct dependencies, merges environment
//! variables along the ancestor chain with a rejection rule for reserved
//! variable names, and computes the ordered command plan for a requested
//! target.  Reading documents from disk and spawning the commands are left
//! to the surrounding program.

use vstd::prelude::*;

pub mod deps;
pub mod env;
pub mod laws;
pub mod plan;
pub mod model;
pub mod yake;

verus! {

} // verus!
