use vstd::prelude::*;

use crate::color::RGB;
use crate::direction::Direction;
use crate::mode::Mode;

verus! {

/// An immutable rectangular block of color samples, stored row-major.
/// Two occurrences of the same pattern in a source compare equal pixel by
/// pixel, so they map to the same tile identifier.
#[derive(Debug)]
pub struct Tile {
    pub width: u32,
    pub height: u32,
    pub pixels: Vec<RGB>,
}

impl Tile {
    /// The pixel buffer holds exactly one sample per coordinate.
    pub open spec fn wf(&self) -> bool {
        self.pixels@.len() == self.width * self.height
    }

    /// The sample at column `x` of row `y`.
    pub open spec fn spec_at(&self, x: int, y: int) -> RGB {
        self.pixels@[y * self.width + x]
    }

    /// Two tiles hold the same dimensions and the same samples.
    pub open spec fn same_content(&self, other: &Tile) -> bool {
        self.width == other.width && self.height == other.height && self.pixels@
            == other.pixels@
    }
}

/// Row-major indices stay within the buffer.
#[verifier::nonlinear]
pub proof fn lemma_rowmajor_bound(w: int, h: int, x: int, y: int)
    requires
        0 <= x < w,
        0 <= y < h,
    ensures
        0 <= y * w + x < w * h,
{
}

/// Row-major indexing is injective over in-range coordinates.
#[verifier::nonlinear]
pub proof fn lemma_rowmajor_inj(w: int, x1: int, y1: int, x2: int, y2: int)
    requires
        0 <= x1 < w,
        0 <= x2 < w,
        0 <= y1,
        0 <= y2,
        y1 * w + x1 == y2 * w + x2,
    ensures
        x1 == x2 && y1 == y2,
{
}

impl Tile {
    /// Index of the sample at column `x` of row `y`.
    fn get_idx(&self, x: u32, y: u32) -> (idx: usize)
        requires
            self.wf(),
            x < self.width,
            y < self.height,
        ensures
            idx == y * self.width + x,
            idx < self.pixels@.len(),
    {
        proof {
            lemma_rowmajor_bound(self.width as int, self.height as int, x as int, y as int);
            assert(self.width * y == y * self.width) by (nonlinear_arith);
            assert(self.pixels.len() == self.pixels@.len());
            assert(self.width * self.height <= usize::MAX);
        }
        (self.width as usize) * (y as usize) + (x as usize)
    }

    /// The sample at column `x` of row `y`.
    pub fn at(&self, x: u32, y: u32) -> (r: RGB)
        requires
            self.wf(),
            x < self.width,
            y < self.height,
        ensures
            r == self.spec_at(x as int, y as int),
    {
        let idx = self.get_idx(x, y);
        self.pixels[idx]
    }
}

/// Whether two color samples agree on every channel.
fn rgb_eq(a: &RGB, b: &RGB) -> (r: bool)
    ensures
        r == (*a == *b),
{
    broadcast use vstd::array::group_array_axioms;

    let r = a[0] == b[0] && a[1] == b[1] && a[2] == b[2];
    proof {
        if r {
            assert(*a =~= *b);
        } else {
            assert(*a != *b);
        }
    }
    r
}

/// The pixel offset a direction stands for: which sample of `a` must agree
/// with the sample of `b` at the same place once `a` is slid one step the
/// other way.
pub open spec fn direction_offset(d: Direction) -> (int, int) {
    match d {
        Direction::UP => (0int, -1int),
        Direction::DOWN => (0int, 1int),
        Direction::LEFT => (-1int, 0int),
        Direction::RIGHT => (1int, 0int),
    }
}

/// Whether `a`, slid by `(dx, dy)`, agrees with `b` wherever the two tiles
/// still overlap.
pub open spec fn spec_shifted_match(a: &Tile, b: &Tile, dx: int, dy: int) -> bool {
    forall|x: int, y: int|
        0 <= x < a.width && 0 <= y < a.height && 0 <= x + dx < a.width && 0 <= y + dy < a.height
            ==> a.spec_at(x + dx, y + dy) == #[trigger] b.spec_at(x, y)
}

/// The overlap rule: `b` may sit in direction `d` from `a` when the shared
/// (all-but-one-row-or-column) region of the two windows agrees.
pub open spec fn spec_compare_overlap(a: &Tile, d: Direction, b: &Tile) -> bool {
    spec_shifted_match(a, b, direction_offset(d).0, direction_offset(d).1)
}

/// The tiled rule: `b` may sit in direction `d` from `a` when the touching
/// one-pixel-thick edges agree.
pub open spec fn spec_compare_tile(a: &Tile, d: Direction, b: &Tile) -> bool {
    match d {
        Direction::UP => forall|x: int|
            0 <= x < a.width ==> a.spec_at(x, 0) == #[trigger] b.spec_at(x, b.height - 1),
        Direction::DOWN => forall|x: int|
            0 <= x < a.width ==> a.spec_at(x, a.height - 1) == #[trigger] b.spec_at(x, 0),
        Direction::LEFT => forall|y: int|
            0 <= y < a.height ==> a.spec_at(0, y) == #[trigger] b.spec_at(b.width - 1, y),
        Direction::RIGHT => forall|y: int|
            0 <= y < a.height ==> a.spec_at(a.width - 1, y) == #[trigger] b.spec_at(0, y),
    }
}

/// Which comparison a construction mode uses.
pub open spec fn spec_overlaps(a: &Tile, b: &Tile, d: Direction, mode: Mode) -> bool {
    match mode {
        Mode::Tile => spec_compare_tile(a, d, b),
        Mode::Overlap => spec_compare_overlap(a, d, b),
    }
}

/// The overlap rule read one way equals the overlap rule read the other
/// way round: `b` fits in direction `d` from `a` exactly when `a` fits in
/// the flipped direction from `b`.
pub proof fn lemma_compare_overlap_symmetry(a: &Tile, b: &Tile, d: Direction)
    requires
        a.width == b.width,
        a.height == b.height,
    ensures
        spec_compare_overlap(a, d, b) == spec_compare_overlap(b, d.spec_flip(), a),
{
    let (dx, dy) = direction_offset(d);
    lemma_shifted_match_symmetry(a, b, dx, dy);
}

/// Sliding `a` against `b` checks the same pairs of samples as sliding `b`
/// the opposite way against `a`.
pub proof fn lemma_shifted_match_symmetry(a: &Tile, b: &Tile, dx: int, dy: int)
    requires
        a.width == b.width,
        a.height == b.height,
    ensures
        spec_shifted_match(a, b, dx, dy) == spec_shifted_match(b, a, -dx, -dy),
{
    if spec_shifted_match(a, b, dx, dy) {
        assert forall|x: int, y: int|
            0 <= x < b.width && 0 <= y < b.height && 0 <= x + -dx < b.width && 0 <= y + -dy
                < b.height implies b.spec_at(x + -dx, y + -dy) == #[trigger] a.spec_at(x, y) by {
            assert(b.spec_at(x - dx, y - dy) == a.spec_at((x - dx) + dx, (y - dy) + dy));
        }
    }
    if spec_shifted_match(b, a, -dx, -dy) {
        assert forall|x: int, y: int|
            0 <= x < a.width && 0 <= y < a.height && 0 <= x + dx < a.width && 0 <= y + dy
                < a.height implies a.spec_at(x + dx, y + dy) == #[trigger] b.spec_at(x, y) by {
            assert(a.spec_at(x + dx, y + dy) == b.spec_at((x + dx) + -dx, (y + dy) + -dy));
        }
    }
}

/// The tiled rule is symmetric in the same sense: two touching edges agree
/// whichever side is read first.
pub proof fn lemma_compare_tile_symmetry(a: &Tile, b: &Tile, d: Direction)
    requires
        a.width == b.width,
        a.height == b.height,
    ensures
        spec_compare_tile(a, d, b) == spec_compare_tile(b, d.spec_flip(), a),
{
}

impl Tile {
    /// Whether `other` may sit in direction `dir` from `self`, under the
    /// comparison the given construction mode uses.
    pub fn overlaps(&self, other: &Tile, dir: Direction, mode: Mode) -> (r: bool)
        requires
            self.wf(),
            other.wf(),
            self.width == other.width,
            self.height == other.height,
            self.width >= 1,
            self.height >= 1,
        ensures
            r == spec_overlaps(self, other, dir, mode),
    {
        match mode {
            Mode::Tile => self.compare_tile(dir, other),
            Mode::Overlap => self.compare_overlap(dir, other),
        }
    }

    /// Whether `self`, slid one step against `dir`, agrees with `other` on
    /// the region the two windows share.
    fn compare_overlap(&self, dir: Direction, other: &Tile) -> (r: bool)
        requires
            self.wf(),
            other.wf(),
            self.width == other.width,
            self.height == other.height,
        ensures
            r == spec_compare_overlap(self, dir, other),
    {
        let (dx, dy): (i32, i32) = match dir {
            Direction::UP => (0, -1),
            Direction::DOWN => (0, 1),
            Direction::LEFT => (-1, 0),
            Direction::RIGHT => (1, 0),
        };
        let w = self.width;
        let h = self.height;
        let mut y: u32 = 0;
        while y < h
            invariant
                y <= h,
                w == self.width == other.width,
                h == self.height == other.height,
                self.wf(),
                other.wf(),
                -1 <= dx <= 1,
                -1 <= dy <= 1,
                dx == direction_offset(dir).0,
                dy == direction_offset(dir).1,
                forall|xx: int, yy: int|
                    0 <= xx < w && 0 <= yy < y && 0 <= xx + dx < w && 0 <= yy + dy < h
                        ==> self.spec_at(xx + dx, yy + dy) == #[trigger] other.spec_at(xx, yy),
            decreases h - y,
        {
            let mut x: u32 = 0;
            while x < w
                invariant
                    x <= w,
                    y < h,
                    w == self.width == other.width,
                    h == self.height == other.height,
                    self.wf(),
                    other.wf(),
                    -1 <= dx <= 1,
                    -1 <= dy <= 1,
                    dx == direction_offset(dir).0,
                dy == direction_offset(dir).1,
                    forall|xx: int, yy: int|
                        0 <= xx < w && 0 <= yy < y && 0 <= xx + dx < w && 0 <= yy + dy < h
                            ==> self.spec_at(xx + dx, yy + dy) == #[trigger] other.spec_at(xx, yy),
                    forall|xx: int|
                        0 <= xx < x && 0 <= xx + dx < w && 0 <= y + dy < h ==> self.spec_at(
                            xx + dx,
                            y + dy,
                        ) == #[trigger] other.spec_at(xx, y as int),
                decreases w - x,
            {
                let sx = x as i64 + dx as i64;
                let sy = y as i64 + dy as i64;
                if 0 <= sx && sx < w as i64 && 0 <= sy && sy < h as i64 {
                    let pa = self.at(sx as u32, sy as u32);
                    let pb = other.at(x, y);
                    if !rgb_eq(&pa, &pb) {
                        return false;
                    }
                }
                x += 1;
            }
            y += 1;
        }
        true
    }

    /// Whether the edge of `self` facing `dir` agrees with the opposite
    /// edge of `other`, pixel by pixel.
    fn compare_tile(&self, dir: Direction, other: &Tile) -> (r: bool)
        requires
            self.wf(),
            other.wf(),
            self.width == other.width,
            self.height == other.height,
            self.width >= 1,
            self.height >= 1,
        ensures
            r == spec_compare_tile(self, dir, other),
    {
        let w = self.width;
        let h = self.height;
        match dir {
            Direction::UP => {
                let mut x: u32 = 0;
                while x < w
                    invariant
                        x <= w,
                        w == self.width == other.width,
                        h == self.height == other.height,
                        w >= 1,
                        h >= 1,
                        self.wf(),
                        other.wf(),
                        dir == Direction::UP,
                        forall|xx: int|
                            0 <= xx < x ==> self.spec_at(xx, 0) == #[trigger] other.spec_at(
                                xx,
                                h - 1,
                            ),
                    decreases w - x,
                {
                    let pa = self.at(x, 0);
                    let pb = other.at(x, h - 1);
                    if !rgb_eq(&pa, &pb) {
                        return false;
                    }
                    x += 1;
                }
                true
            }
            Direction::DOWN => {
                let mut x: u32 = 0;
                while x < w
                    invariant
                        x <= w,
                        w == self.width == other.width,
                        h == self.height == other.height,
                        w >= 1,
                        h >= 1,
                        self.wf(),
                        other.wf(),
                        dir == Direction::DOWN,
                        forall|xx: int|
                            0 <= xx < x ==> self.spec_at(xx, h - 1) == #[trigger] other.spec_at(
                                xx,
                                0,
                            ),
                    decreases w - x,
                {
                    let pa = self.at(x, h - 1);
                    let pb = other.at(x, 0);
                    if !rgb_eq(&pa, &pb) {
                        return false;
                    }
                    x += 1;
                }
                true
            }
            Direction::LEFT => {
                let mut y: u32 = 0;
                while y < h
                    invariant
                        y <= h,
                        w == self.width == other.width,
                        h == self.height == other.height,
                        w >= 1,
                        h >= 1,
                        self.wf(),
                        other.wf(),
                        dir == Direction::LEFT,
                        forall|yy: int|
                            0 <= yy < y ==> self.spec_at(0, yy) == #[trigger] other.spec_at(
                                w - 1,
                                yy,
                            ),
                    decreases h - y,
                {
                    let pa = self.at(0, y);
                    let pb = other.at(w - 1, y);
                    if !rgb_eq(&pa, &pb) {
                        return false;
                    }
                    y += 1;
                }
                true
            }
            Direction::RIGHT => {
                let mut y: u32 = 0;
                while y < h
                    invariant
                        y <= h,
                        w == self.width == other.width,
                        h == self.height == other.height,
                        w >= 1,
                        h >= 1,
                        self.wf(),
                        other.wf(),
                        dir == Direction::RIGHT,
                        forall|yy: int|
                            0 <= yy < y ==> self.spec_at(w - 1, yy) == #[trigger] other.spec_at(
                                0,
                                yy,
                            ),
                    decreases h - y,
                {
                    let pa = self.at(w - 1, y);
                    let pb = other.at(0, y);
                    if !rgb_eq(&pa, &pb) {
                        return false;
                    }
                    y += 1;
                }
                true
            }
        }
    }
}

/// An exact copy of a tile.
pub(crate) fn copy_tile(t: &Tile) -> (r: Tile)
    ensures
        r.same_content(t),
{
    let mut pixels: Vec<RGB> = Vec::new();
    let mut i: usize = 0;
    while i < t.pixels.len()
        invariant
            i <= t.pixels.len(),
            pixels@ =~= t.pixels@.subrange(0, i as int),
        decreases t.pixels.len() - i,
    {
        pixels.push(t.pixels[i]);
        i += 1;
    }
    proof {
        assert(pixels@ =~= t.pixels@);
    }
    Tile { width: t.width, height: t.height, pixels }
}

/// A sample of an earlier row sits strictly below the start of row `y2`.
#[verifier::nonlinear]
pub proof fn lemma_row_lt(w: int, x1: int, y1: int, y2: int)
    requires
        0 <= x1 < w,
        0 <= y1 < y2,
    ensures
        0 <= y1 * w + x1 < y2 * w,
{
}

/// `r` is `t` turned a quarter turn clockwise (square tiles).
pub open spec fn is_rotation_90(t: Tile, r: Tile) -> bool {
    &&& r.width == t.width
    &&& r.height == t.height
    &&& r.wf()
    &&& forall|x: int, y: int|
        0 <= x < t.width && 0 <= y < t.height ==> #[trigger] r.spec_at(x, y) == t.spec_at(
            y,
            t.height - 1 - x,
        )
}

/// `r` is `t` turned a half turn.
pub open spec fn is_rotation_180(t: Tile, r: Tile) -> bool {
    &&& r.width == t.width
    &&& r.height == t.height
    &&& r.wf()
    &&& forall|x: int, y: int|
        0 <= x < t.width && 0 <= y < t.height ==> #[trigger] r.spec_at(x, y) == t.spec_at(
            t.width - 1 - x,
            t.height - 1 - y,
        )
}

/// `r` is `t` turned a quarter turn counterclockwise (square tiles).
pub open spec fn is_rotation_270(t: Tile, r: Tile) -> bool {
    &&& r.width == t.width
    &&& r.height == t.height
    &&& r.wf()
    &&& forall|x: int, y: int|
        0 <= x < t.width && 0 <= y < t.height ==> #[trigger] r.spec_at(x, y) == t.spec_at(
            t.width - 1 - y,
            x,
        )
}

/// `r` is `t` mirrored left-to-right.
pub open spec fn is_flip_horizontal(t: Tile, r: Tile) -> bool {
    &&& r.width == t.width
    &&& r.height == t.height
    &&& r.wf()
    &&& forall|x: int, y: int|
        0 <= x < t.width && 0 <= y < t.height ==> #[trigger] r.spec_at(x, y) == t.spec_at(
            t.width - 1 - x,
            y,
        )
}

/// `r` is `t` mirrored top-to-bottom.
pub open spec fn is_flip_vertical(t: Tile, r: Tile) -> bool {
    &&& r.width == t.width
    &&& r.height == t.height
    &&& r.wf()
    &&& forall|x: int, y: int|
        0 <= x < t.width && 0 <= y < t.height ==> #[trigger] r.spec_at(x, y) == t.spec_at(
            x,
            t.height - 1 - y,
        )
}

/// `tile` turned a quarter turn clockwise; the tile must be square.
pub fn rotate_90(tile: Tile) -> (r: Tile)
    requires
        tile.wf(),
        tile.width == tile.height,
    ensures
        is_rotation_90(tile, r),
{
    let w = tile.width;
    let h = tile.height;
    let mut pixels: Vec<RGB> = Vec::new();
    let mut y: u32 = 0;
    while y < h
        invariant
            y <= h,
            w == tile.width,
            h == tile.height,
            w == h,
            tile.wf(),
            pixels@.len() == y * w,
            forall|xx: int, yy: int|
                0 <= xx < w && 0 <= yy < y ==> #[trigger] pixels@[yy * w + xx] == tile.spec_at(
                    yy,
                    h - 1 - xx,
                ),
        decreases h - y,
    {
        let mut x: u32 = 0;
        while x < w
            invariant
                x <= w,
                y < h,
                w == tile.width,
                h == tile.height,
                w == h,
                tile.wf(),
                pixels@.len() == y * w + x,
                forall|xx: int, yy: int|
                    0 <= xx < w && 0 <= yy < y ==> #[trigger] pixels@[yy * w + xx] == tile.spec_at(
                        yy,
                        h - 1 - xx,
                    ),
                forall|xx: int|
                    0 <= xx < x ==> #[trigger] pixels@[y * w + xx] == tile.spec_at(
                        y as int,
                        h - 1 - xx,
                    ),
            decreases w - x,
        {
            pixels.push(tile.at(y, h - 1 - x));
            proof {
                assert forall|xx: int, yy: int|
                    0 <= xx < w && 0 <= yy < y implies #[trigger] pixels@[yy * w + xx]
                    == tile.spec_at(yy, h - 1 - xx) by {
                    lemma_row_lt(w as int, xx, yy, y as int);
                }
            }
            x += 1;
        }
        proof {
            assert((y + 1) * w == y * w + w) by (nonlinear_arith);
        }
        y += 1;
    }
    let r = Tile { width: w, height: h, pixels };
    proof {
        assert(h * w == w * h) by (nonlinear_arith);
    }
    r
}

/// `tile` turned a half turn.
pub fn rotate_180(tile: Tile) -> (r: Tile)
    requires
        tile.wf(),
    ensures
        is_rotation_180(tile, r),
{
    let w = tile.width;
    let h = tile.height;
    let mut pixels: Vec<RGB> = Vec::new();
    let mut y: u32 = 0;
    while y < h
        invariant
            y <= h,
            w == tile.width,
            h == tile.height,
            tile.wf(),
            pixels@.len() == y * w,
            forall|xx: int, yy: int|
                0 <= xx < w && 0 <= yy < y ==> #[trigger] pixels@[yy * w + xx] == tile.spec_at(
                    w - 1 - xx,
                    h - 1 - yy,
                ),
        decreases h - y,
    {
        let mut x: u32 = 0;
        while x < w
            invariant
                x <= w,
                y < h,
                w == tile.width,
                h == tile.height,
                tile.wf(),
                pixels@.len() == y * w + x,
                forall|xx: int, yy: int|
                    0 <= xx < w && 0 <= yy < y ==> #[trigger] pixels@[yy * w + xx] == tile.spec_at(
                        w - 1 - xx,
                        h - 1 - yy,
                    ),
                forall|xx: int|
                    0 <= xx < x ==> #[trigger] pixels@[y * w + xx] == tile.spec_at(
                        w - 1 - xx,
                        h - 1 - y,
                    ),
            decreases w - x,
        {
            pixels.push(tile.at(w - 1 - x, h - 1 - y));
            proof {
                assert forall|xx: int, yy: int|
                    0 <= xx < w && 0 <= yy < y implies #[trigger] pixels@[yy * w + xx]
                    == tile.spec_at(w - 1 - xx, h - 1 - yy) by {
                    lemma_row_lt(w as int, xx, yy, y as int);
                }
            }
            x += 1;
        }
        proof {
            assert((y + 1) * w == y * w + w) by (nonlinear_arith);
        }
        y += 1;
    }
    let r = Tile { width: w, height: h, pixels };
    proof {
        assert(h * w == w * h) by (nonlinear_arith);
    }
    r
}

/// `tile` turned a quarter turn counterclockwise; the tile must be square.
pub fn rotate_270(tile: Tile) -> (r: Tile)
    requires
        tile.wf(),
        tile.width == tile.height,
    ensures
        is_rotation_270(tile, r),
{
    let w = tile.width;
    let h = tile.height;
    let mut pixels: Vec<RGB> = Vec::new();
    let mut y: u32 = 0;
    while y < h
        invariant
            y <= h,
            w == tile.width,
            h == tile.height,
            w == h,
            tile.wf(),
            pixels@.len() == y * w,
            forall|xx: int, yy: int|
                0 <= xx < w && 0 <= yy < y ==> #[trigger] pixels@[yy * w + xx] == tile.spec_at(
                    w - 1 - yy,
                    xx,
                ),
        decreases h - y,
    {
        let mut x: u32 = 0;
        while x < w
            invariant
                x <= w,
                y < h,
                w == tile.width,
                h == tile.height,
                w == h,
                tile.wf(),
                pixels@.len() == y * w + x,
                forall|xx: int, yy: int|
                    0 <= xx < w && 0 <= yy < y ==> #[trigger] pixels@[yy * w + xx] == tile.spec_at(
                        w - 1 - yy,
                        xx,
                    ),
                forall|xx: int|
                    0 <= xx < x ==> #[trigger] pixels@[y * w + xx] == tile.spec_at(
                        w - 1 - y,
                        xx,
                    ),
            decreases w - x,
        {
            pixels.push(tile.at(w - 1 - y, x));
            proof {
                assert forall|xx: int, yy: int|
                    0 <= xx < w && 0 <= yy < y implies #[trigger] pixels@[yy * w + xx]
                    == tile.spec_at(w - 1 - yy, xx) by {
                    lemma_row_lt(w as int, xx, yy, y as int);
                }
            }
            x += 1;
        }
        proof {
            assert((y + 1) * w == y * w + w) by (nonlinear_arith);
        }
        y += 1;
    }
    let r = Tile { width: w, height: h, pixels };
    proof {
        assert(h * w == w * h) by (nonlinear_arith);
    }
    r
}

/// `tile` mirrored left-to-right.
pub fn flip_horizontal(tile: Tile) -> (r: Tile)
    requires
        tile.wf(),
    ensures
        is_flip_horizontal(tile, r),
{
    let w = tile.width;
    let h = tile.height;
    let mut pixels: Vec<RGB> = Vec::new();
    let mut y: u32 = 0;
    while y < h
        invariant
            y <= h,
            w == tile.width,
            h == tile.height,
            tile.wf(),
            pixels@.len() == y * w,
            forall|xx: int, yy: int|
                0 <= xx < w && 0 <= yy < y ==> #[trigger] pixels@[yy * w + xx] == tile.spec_at(
                    w - 1 - xx,
                    yy,
                ),
        decreases h - y,
    {
        let mut x: u32 = 0;
        while x < w
            invariant
                x <= w,
                y < h,
                w == tile.width,
                h == tile.height,
                tile.wf(),
                pixels@.len() == y * w + x,
                forall|xx: int, yy: int|
                    0 <= xx < w && 0 <= yy < y ==> #[trigger] pixels@[yy * w + xx] == tile.spec_at(
                        w - 1 - xx,
                        yy,
                    ),
                forall|xx: int|
                    0 <= xx < x ==> #[trigger] pixels@[y * w + xx] == tile.spec_at(
                        w - 1 - xx,
                        y as int,
                    ),
            decreases w - x,
        {
            pixels.push(tile.at(w - 1 - x, y));
            proof {
                assert forall|xx: int, yy: int|
                    0 <= xx < w && 0 <= yy < y implies #[trigger] pixels@[yy * w + xx]
                    == tile.spec_at(w - 1 - xx, yy) by {
                    lemma_row_lt(w as int, xx, yy, y as int);
                }
            }
            x += 1;
        }
        proof {
            assert((y + 1) * w == y * w + w) by (nonlinear_arith);
        }
        y += 1;
    }
    let r = Tile { width: w, height: h, pixels };
    proof {
        assert(h * w == w * h) by (nonlinear_arith);
    }
    r
}

/// `tile` mirrored top-to-bottom.
pub fn flip_vertical(tile: Tile) -> (r: Tile)
    requires
        tile.wf(),
    ensures
        is_flip_vertical(tile, r),
{
    let w = tile.width;
    let h = tile.height;
    let mut pixels: Vec<RGB> = Vec::new();
    let mut y: u32 = 0;
    while y < h
        invariant
            y <= h,
            w == tile.width,
            h == tile.height,
            tile.wf(),
            pixels@.len() == y * w,
            forall|xx: int, yy: int|
                0 <= xx < w && 0 <= yy < y ==> #[trigger] pixels@[yy * w + xx] == tile.spec_at(
                    xx,
                    h - 1 - yy,
                ),
        decreases h - y,
    {
        let mut x: u32 = 0;
        while x < w
            invariant
                x <= w,
                y < h,
                w == tile.width,
                h == tile.height,
                tile.wf(),
                pixels@.len() == y * w + x,
                forall|xx: int, yy: int|
                    0 <= xx < w && 0 <= yy < y ==> #[trigger] pixels@[yy * w + xx] == tile.spec_at(
                        xx,
                        h - 1 - yy,
                    ),
                forall|xx: int|
                    0 <= xx < x ==> #[trigger] pixels@[y * w + xx] == tile.spec_at(
                        xx,
                        h - 1 - y,
                    ),
            decreases w - x,
        {
            pixels.push(tile.at(x, h - 1 - y));
            proof {
                assert forall|xx: int, yy: int|
                    0 <= xx < w && 0 <= yy < y implies #[trigger] pixels@[yy * w + xx]
                    == tile.spec_at(xx, h - 1 - yy) by {
                    lemma_row_lt(w as int, xx, yy, y as int);
                }
            }
            x += 1;
        }
        proof {
            assert((y + 1) * w == y * w + w) by (nonlinear_arith);
        }
        y += 1;
    }
    let r = Tile { width: w, height: h, pixels };
    proof {
        assert(h * w == w * h) by (nonlinear_arith);
    }
    r
}

impl Tile {
    /// The channel-by-channel average of two tiles of the same size.
    pub fn blend(self, other: Tile) -> (r: Tile)
        requires
            self.wf(),
            other.wf(),
            self.width == other.width,
            self.height == other.height,
        ensures
            r.width == self.width,
            r.height == self.height,
            r.wf(),
            forall|i: int, c: int|
                0 <= i < r.pixels@.len() && 0 <= c < 3 ==> #[trigger] r.pixels@[i]@[c]
                    == crate::color::blend_channel(self.pixels@[i]@[c], other.pixels@[i]@[c]),
    {
        let mut pixels: Vec<RGB> = Vec::new();
        let mut i: usize = 0;
        while i < self.pixels.len()
            invariant
                i <= self.pixels.len(),
                self.pixels@.len() == other.pixels@.len(),
                pixels@.len() == i,
                forall|k: int, c: int|
                    0 <= k < i && 0 <= c < 3 ==> #[trigger] pixels@[k]@[c]
                        == crate::color::blend_channel(self.pixels@[k]@[c], other.pixels@[k]@[c]),
            decreases self.pixels.len() - i,
        {
            let p = crate::color::Color::blend(&self.pixels[i], &other.pixels[i]);
            pixels.push(p);
            i += 1;
        }
        Tile { width: self.width, height: self.height, pixels }
    }

    /// The eight symmetry variants of a square tile: the tile itself, its
    /// three rotations, its two mirrorings, and the two mirrored quarter
    /// turns.
    pub fn permute(&self) -> (r: Vec<Tile>)
        requires
            self.wf(),
            self.width == self.height,
        ensures
            r@.len() == 8,
            r@[0].same_content(self),
            is_rotation_90(*self, r@[1]),
            is_rotation_180(*self, r@[2]),
            is_rotation_270(*self, r@[3]),
            is_flip_horizontal(*self, r@[4]),
            is_flip_vertical(*self, r@[5]),
            forall|x: int, y: int|
                0 <= x < self.width && 0 <= y < self.height ==> #[trigger] r@[6].spec_at(x, y)
                    == self.spec_at(self.height - 1 - y, self.height - 1 - x),
            forall|x: int, y: int|
                0 <= x < self.width && 0 <= y < self.height ==> #[trigger] r@[7].spec_at(x, y)
                    == self.spec_at(y, x),
            forall|i: int|
                0 <= i < 8 ==> (#[trigger] r@[i].width) == self.width && r@[i].height
                    == self.height && r@[i].wf(),
    {
        let mut permutations: Vec<Tile> = Vec::new();
        permutations.push(copy_tile(self));
        permutations.push(rotate_90(copy_tile(self)));
        permutations.push(rotate_180(copy_tile(self)));
        permutations.push(rotate_270(copy_tile(self)));
        permutations.push(flip_horizontal(copy_tile(self)));
        permutations.push(flip_vertical(copy_tile(self)));
        permutations.push(flip_vertical(rotate_90(copy_tile(self))));
        permutations.push(flip_horizontal(rotate_90(copy_tile(self))));
        permutations
    }
}

} // verus!
