use vstd::prelude::*;

verus! {

/// One of the four grid directions. The neighborhood is a fixed
/// 4-neighborhood: no diagonals, no wraparound at the output grid edges.
#[derive(Debug, Clone, Copy, PartialEq, Eq, Hash, Structural)]
pub enum Direction {
    UP,
    DOWN,
    LEFT,
    RIGHT,
}

impl Direction {
    /// Index of this direction into a 4-slot table.
    pub open spec fn spec_idx(self) -> usize {
        match self {
            Direction::UP => 0,
            Direction::DOWN => 1,
            Direction::LEFT => 2,
            Direction::RIGHT => 3,
        }
    }

    /// The opposite direction.
    pub open spec fn spec_flip(self) -> Direction {
        match self {
            Direction::UP => Direction::DOWN,
            Direction::DOWN => Direction::UP,
            Direction::LEFT => Direction::RIGHT,
            Direction::RIGHT => Direction::LEFT,
        }
    }

    #[verifier::when_used_as_spec(spec_idx)]
    pub fn idx(self) -> (i: usize)
        ensures
            i == self.spec_idx(),
            i < 4,
    {
        match self {
            Direction::UP => 0,
            Direction::DOWN => 1,
            Direction::LEFT => 2,
            Direction::RIGHT => 3,
        }
    }

    pub fn flip(&self) -> (d: Direction)
        ensures
            d == self.spec_flip(),
    {
        match self {
            Direction::UP => Direction::DOWN,
            Direction::DOWN => Direction::UP,
            Direction::LEFT => Direction::RIGHT,
            Direction::RIGHT => Direction::LEFT,
        }
    }
}

/// The four directions, in a fixed traversal order.
pub fn all_directions() -> (v: Vec<Direction>)
    ensures
        v@ =~= seq![Direction::UP, Direction::DOWN, Direction::LEFT, Direction::RIGHT],
{
    let mut v: Vec<Direction> = Vec::new();
    v.push(Direction::UP);
    v.push(Direction::DOWN);
    v.push(Direction::LEFT);
    v.push(Direction::RIGHT);
    v
}

} // verus!
