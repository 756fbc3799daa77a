use vstd::prelude::*;

use crate::color::RGB;
use crate::vector2::Vector2;

verus! {

/// A 2-D array of color samples with explicit width and height, stored
/// row-major. How such an array is decoded from or encoded to a raster
/// file is a collaborator's business; here it is only data.
pub struct Image {
    pub width: u32,
    pub height: u32,
    pub pixels: Vec<RGB>,
}

impl Image {
    /// The pixel buffer holds exactly one sample per coordinate.
    pub open spec fn wf(&self) -> bool {
        self.pixels@.len() == self.width * self.height
    }

    /// The sample at column `x` of row `y`.
    pub open spec fn spec_at(&self, x: int, y: int) -> RGB {
        self.pixels@[y * self.width + x]
    }

    /// An all-black image of the given size.
    pub fn new(width: u32, height: u32) -> (r: Image)
        requires
            width * height <= usize::MAX,
        ensures
            r.width == width,
            r.height == height,
            r.wf(),
            forall|i: int, c: int| 0 <= i < r.pixels@.len() && 0 <= c < 3 ==> r.pixels@[i]@[c] == 0,
    {
        let n = (width as usize) * (height as usize);
        let mut pixels: Vec<RGB> = Vec::new();
        let mut i: usize = 0;
        while i < n
            invariant
                i <= n,
                pixels@.len() == i,
                forall|k: int, c: int| 0 <= k < i && 0 <= c < 3 ==> pixels@[k]@[c] == 0,
            decreases n - i,
        {
            let p: RGB = [0, 0, 0];
            assert(p@[0] == 0 && p@[1] == 0 && p@[2] == 0);
            pixels.push(p);
            i += 1;
        }
        Image { width, height, pixels }
    }

    /// Index of the sample at coordinate `at`.
    fn get_idx(&self, at: Vector2) -> (idx: usize)
        requires
            self.wf(),
            0 <= at.x < self.width,
            0 <= at.y < self.height,
        ensures
            idx == at.y * self.width + at.x,
            idx < self.pixels@.len(),
    {
        proof {
            crate::tile::lemma_rowmajor_bound(
                self.width as int,
                self.height as int,
                at.x as int,
                at.y as int,
            );
            assert(self.width * at.y == at.y * self.width) by (nonlinear_arith);
            assert(self.pixels.len() == self.pixels@.len());
            assert(self.width * self.height <= usize::MAX);
        }
        (at.y as usize) * (self.width as usize) + (at.x as usize)
    }

    /// Overwrite the sample at coordinate `at`.
    pub fn set_color(&mut self, at: Vector2, color: RGB)
        requires
            old(self).wf(),
            0 <= at.x < old(self).width,
            0 <= at.y < old(self).height,
        ensures
            final(self).width == old(self).width,
            final(self).height == old(self).height,
            final(self).wf(),
            final(self).pixels@ == old(self).pixels@.update(
                at.y * old(self).width + at.x,
                color,
            ),
            final(self).spec_at(at.x as int, at.y as int) == color,
    {
        let idx = self.get_idx(at);
        self.pixels[idx] = color;
    }

    /// The sample at coordinate `at`.
    pub fn at(&self, at: Vector2) -> (r: RGB)
        requires
            self.wf(),
            0 <= at.x < self.width,
            0 <= at.y < self.height,
        ensures
            r == self.spec_at(at.x as int, at.y as int),
    {
        let idx = self.get_idx(at);
        self.pixels[idx]
    }
}

/// Byte offset of the sample at `(pos_x, pos_y)` in a raster stream whose
/// rows are `width` samples of `bytes_per_color` bytes each.
pub fn get_position(pos_x: u32, pos_y: u32, width: u32, bytes_per_color: u32) -> (r: usize)
    requires
        bytes_per_color >= 1,
        (pos_y * width + pos_x) * bytes_per_color <= usize::MAX,
    ensures
        r == (pos_y * width + pos_x) * bytes_per_color,
{
    proof {
        assert((pos_y * width + pos_x) <= (pos_y * width + pos_x) * bytes_per_color)
            by (nonlinear_arith)
            requires bytes_per_color >= 1, pos_y * width + pos_x >= 0;
    }
    ((pos_y as usize) * (width as usize) + (pos_x as usize)) * (bytes_per_color as usize)
}

} // verus!
