use vstd::prelude::*;

verus! {

/// Whether a node is still to run or has completed.
#[derive(Debug, Clone, Copy, PartialEq, Eq, Structural)]
pub enum Status {
    Ready,
    Complete,
}

} // verus!
