use vstd::prelude::*;

verus! {

/// Which construction strategy a caller asks for on the command line.
#[derive(Debug, Clone, Copy, PartialEq, Eq, Structural)]
pub enum ParseMethod {
    Overlap,
    Tiled,
}

} // verus!
