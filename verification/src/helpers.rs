use vstd::prelude::*;

use crate::direction::Direction;
use crate::vector2::Vector2;

verus! {

/// The in-bounds 4-neighbors of `c` on a `w`-by-`h` grid, each paired
/// with the direction that leads to it, in the fixed order up, left,
/// right, down.
pub open spec fn spec_neighbors(w: int, h: int, c: Vector2) -> Seq<(Vector2, Direction)> {
    let up: Seq<(Vector2, Direction)> = if c.y > 0 {
        seq![(Vector2 { x: c.x, y: (c.y - 1) as i32 }, Direction::UP)]
    } else {
        Seq::empty()
    };
    let left: Seq<(Vector2, Direction)> = if c.x > 0 {
        seq![(Vector2 { x: (c.x - 1) as i32, y: c.y }, Direction::LEFT)]
    } else {
        Seq::empty()
    };
    let right: Seq<(Vector2, Direction)> = if c.x + 1 < w {
        seq![(Vector2 { x: (c.x + 1) as i32, y: c.y }, Direction::RIGHT)]
    } else {
        Seq::empty()
    };
    let down: Seq<(Vector2, Direction)> = if c.y + 1 < h {
        seq![(Vector2 { x: c.x, y: (c.y + 1) as i32 }, Direction::DOWN)]
    } else {
        Seq::empty()
    };
    up + left + right + down
}

/// The grid neighbors of `coord` on a grid of the given dimensions: edge
/// cells simply have fewer neighbors, with no wraparound.
pub fn get_neighbors(dimensions: (usize, usize), coord: &Vector2) -> (r: Vec<
    (Vector2, Direction),
>)
    requires
        dimensions.0 <= i32::MAX,
        dimensions.1 <= i32::MAX,
        0 <= coord.x < dimensions.0,
        0 <= coord.y < dimensions.1,
    ensures
        r@ == spec_neighbors(dimensions.0 as int, dimensions.1 as int, *coord),
{
    let (width, height) = dimensions;
    let x = coord.x;
    let y = coord.y;
    let mut r: Vec<(Vector2, Direction)> = Vec::new();
    if y > 0 {
        r.push((Vector2 { x, y: y - 1 }, Direction::UP));
    }
    if x > 0 {
        r.push((Vector2 { x: x - 1, y }, Direction::LEFT));
    }
    if ((x as usize) + 1) < width {
        r.push((Vector2 { x: x + 1, y }, Direction::RIGHT));
    }
    if ((y as usize) + 1) < height {
        r.push((Vector2 { x, y: y + 1 }, Direction::DOWN));
    }
    proof {
        assert(r@ =~= spec_neighbors(dimensions.0 as int, dimensions.1 as int, *coord));
    }
    r
}

} // verus!
