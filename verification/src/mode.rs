use vstd::prelude::*;

verus! {

/// How the tile catalog was built: by sliding an overlapping window over
/// the source, or by partitioning the source into a non-overlapping grid.
#[derive(Debug, Clone, Copy, PartialEq, Eq, Structural)]
pub enum Mode {
    Overlap,
    Tile,
}

} // verus!
