use vstd::prelude::*;

use crate::direction::Direction;

verus! {

/// A grid coordinate (or offset), in pixels or in tile positions.
#[derive(Debug, Clone, Copy, PartialEq, Eq, Hash, Structural)]
pub struct Vector2 {
    pub x: i32,
    pub y: i32,
}

impl Vector2 {
    /// The coordinate one step away in `direction`. Up and left decrease a
    /// component, down and right increase one; y grows downward.
    pub open spec fn spec_in_direction(self, direction: Direction) -> Vector2 {
        match direction {
            Direction::UP => Vector2 { x: self.x, y: (self.y - 1) as i32 },
            Direction::DOWN => Vector2 { x: self.x, y: (self.y + 1) as i32 },
            Direction::LEFT => Vector2 { x: (self.x - 1) as i32, y: self.y },
            Direction::RIGHT => Vector2 { x: (self.x + 1) as i32, y: self.y },
        }
    }

    pub fn in_direction(self, direction: Direction) -> (r: Vector2)
        requires
            i32::MIN < self.x < i32::MAX,
            i32::MIN < self.y < i32::MAX,
        ensures
            r == self.spec_in_direction(direction),
    {
        match direction {
            Direction::UP => Vector2 { x: self.x, y: self.y - 1 },
            Direction::DOWN => Vector2 { x: self.x, y: self.y + 1 },
            Direction::LEFT => Vector2 { x: self.x - 1, y: self.y },
            Direction::RIGHT => Vector2 { x: self.x + 1, y: self.y },
        }
    }
}

} // verus!
