use vstd::prelude::*;

verus! {

/// Why a model could not be built or a solve could not finish. Every error
/// is fatal to the run: the engine does not backtrack and never hands out a
/// partially resolved grid as a result.
#[derive(Debug, Clone, Copy, PartialEq, Eq, Structural)]
pub enum WfcError {
    /// The inputs cannot describe a solve: a tile size that does not evenly
    /// divide the source, an empty tile catalog, or a zero output dimension.
    Configuration,
    /// A cell's domain became empty during propagation: the adjacency
    /// relation admits no assignment along the chosen collapse order.
    Contradiction,
    /// A collapse step was asked to sample from an empty or all-zero-weight
    /// candidate list: the frequency hints do not match the catalog.
    Sampling,
}

impl WfcError {
    /// A short description of the failure.
    pub fn message(&self) -> &'static str {
        match self {
            WfcError::Configuration => "configuration error: the inputs cannot describe a solve",
            WfcError::Contradiction => "contradiction: a cell domain became empty",
            WfcError::Sampling => "sampling error: no candidate carries positive weight",
        }
    }
}

} // verus!
