//! The tool's modes of operation.

use vstd::prelude::*;

verus! {

/// A mode that runs the tool until it is stopped.
pub trait ModeProgram {
    fn enter(&self);
}

/// The mode that sends one command and stops.
pub struct OneShot;

} // verus!
