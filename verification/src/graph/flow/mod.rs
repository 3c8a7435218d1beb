use vstd::prelude::*;

verus! {

/// How much a link costs to follow.
pub enum Flow {
    Free,
    Custom(usize),
}

impl Flow {
    /// Normalises a flow to its explicit form: a free flow costs nothing.
    pub fn into(self) -> (flow: Flow)
        ensures
            flow == (match self {
                Flow::Free => Flow::Custom(0),
                Flow::Custom(c) => Flow::Custom(c),
            }),
    {
        match self {
            Flow::Free => Flow::Custom(0),
            Flow::Custom(c) => Flow::Custom(c),
        }
    }
}

} // verus!
