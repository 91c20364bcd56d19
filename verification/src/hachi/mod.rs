//! The Hachi polynomial commitment scheme: public parameters and the commitment.

pub mod setup;
pub mod common;
pub mod prove;
pub mod verify;
pub mod commit;
pub mod prover_utils;
pub mod evaluate;
pub mod reduction;

use vstd::prelude::*;

verus! {

/// Marker type on which the scheme's operations are implemented; it carries no state.
pub struct Hachi {}

} // verus!
