//! Lowering of surface `when`/`match` branches into decision trees and
//! deciders, together with the numeric-width lattice and small collection
//! helpers used around the compiler.

pub mod branching;
pub mod decider;
pub mod decision_tree;
pub mod ir;
pub mod laws;
pub mod num;
pub mod utils;

use vstd::prelude::*;

verus! {

/// A goal label: the integer identifier of a branch body.
pub type Label = u64;

} // verus!
