use vstd::prelude::*;

verus! {

/// The dimension a chunk belongs to.
#[derive(Clone, Copy, Debug, PartialEq, Eq, Hash, Structural)]
pub enum Dimension {
    Overworld,
    Nether,
    End,
}

} // verus!
