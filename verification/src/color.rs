use vstd::prelude::*;

verus! {

/// A color sample: red, green and blue channels.
pub type RGB = [u8; 3];

/// The half-sum of two channel values, rounded down.
pub open spec fn blend_channel(a: u8, b: u8) -> u8 {
    (((a + b) / 2) as u8)
}

/// A value that can be averaged with another of its kind, channel by
/// channel; used to render a cell whose domain still holds several
/// candidates.
pub trait Color {
    /// What it means for `r` to be the blend of `self` and `other`.
    spec fn blended(&self, other: &Self, r: &Self) -> bool;

    /// Blend `self` with `other`.
    fn blend(&self, other: &Self) -> (r: Self) where Self: core::marker::Sized
        ensures
            self.blended(other, &r),
    ;
}

impl Color for RGB {
    open spec fn blended(&self, other: &RGB, r: &RGB) -> bool {
        forall|i: int| 0 <= i < 3 ==> r@[i] == blend_channel(self@[i], other@[i])
    }

    fn blend(&self, other: &RGB) -> (r: RGB)
        ensures
            self.blended(other, &r),
    {
        let r0 = (((self[0] as u16) + (other[0] as u16)) / 2) as u8;
        let r1 = (((self[1] as u16) + (other[1] as u16)) / 2) as u8;
        let r2 = (((self[2] as u16) + (other[2] as u16)) / 2) as u8;
        let out: RGB = [r0, r1, r2];
        assert(out@[0] == r0 && out@[1] == r1 && out@[2] == r2);
        out
    }
}

} // verus!
