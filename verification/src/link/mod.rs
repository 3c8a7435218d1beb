use vstd::prelude::*;
use crate::graph::flow::Flow;

verus! {

/// A directed link between two identifiers.
pub struct Link<Identifier> {
    pub from: Identifier,
    pub to: Identifier,
    pub flow: Flow,
}

impl<T> Link<T> {
    /// A link from `from` to `to` that costs nothing to follow.
    pub fn free(from: T, to: T) -> (link: Self)
        ensures
            link.from == from,
            link.to == to,
            link.flow == Flow::Free,
    {
        Link { from, to, flow: Flow::Free }
    }

    /// A link from `from` to `to` with the given cost.
    pub fn new(from: T, to: T, flow: Flow) -> (link: Self)
        ensures
            link.from == from,
            link.to == to,
            link.flow == flow,
    {
        Link { from, to, flow }
    }
}

} // verus!
