use vstd::prelude::*;

verus! {

/// Dense integer handle for a distinct tile (or distinct color).
/// Identifiers are assigned from 0 upward during catalog construction and
/// are stable for the lifetime of a run.
pub type Id = usize;

} // verus!
