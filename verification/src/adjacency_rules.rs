use vstd::prelude::*;

use crate::direction::Direction;
use crate::mode::Mode;
use crate::model::Model;
use crate::tile::Tile;
use crate::types::Id;

verus! {

/// The identifier recorded at partition position `(px, py)` of a
/// tiled-strategy model.
pub open spec fn position_id(m: &Model, px: int, py: int) -> Id {
    m.position_to_tile@[py * m.positions_width + px]
}

/// Partition position `(px, py)` has a neighbor one step in `d`, the tile
/// seen there is `a`, and the tile seen at the neighbor is `b`.
pub open spec fn spec_adjacent_pair(m: &Model, px: int, py: int, d: Direction, a: int, b: int) -> bool {
    let dx = crate::tile::direction_offset(d).0;
    let dy = crate::tile::direction_offset(d).1;
    &&& 0 <= px < m.positions_width
    &&& 0 <= py < m.positions_height
    &&& 0 <= px + dx < m.positions_width
    &&& 0 <= py + dy < m.positions_height
    &&& position_id(m, px, py) == a
    &&& position_id(m, px + dx, py + dy) == b
}

/// The relation a tiled-strategy catalog induces: `b` may sit in
/// direction `d` from `a` exactly when some position of the source
/// partitioning shows `a` with `b` as its neighbor in `d`.
pub open spec fn spec_tiled_allowed(m: &Model, a: int, b: int, d: Direction) -> bool {
    exists|px: int, py: int| spec_adjacent_pair(m, px, py, d, a, b)
}

/// Every entry the relation holds so far is justified by some recorded
/// pair of neighboring positions.
pub open spec fn tiled_sound(m: &Model, rules: &AdjacencyRules) -> bool {
    forall|a: int, b: int, d: Direction|
        #[trigger] rules.allows(a, b, d) && 0 <= a < rules.num() && 0 <= b < rules.num()
            ==> spec_tiled_allowed(m, a, b, d)
}

/// Every recorded pair of neighboring positions up to (but excluding)
/// position `(px, py)` in row-major order is already in the relation.
pub open spec fn tiled_covered_upto(m: &Model, rules: &AdjacencyRules, px: int, py: int) -> bool {
    forall|qx: int, qy: int, d: Direction|
        0 <= qx < m.positions_width && 0 <= qy < m.positions_height && (qy < py || (qy == py && qx
            < px)) && spec_adjacent_pair(
            m,
            qx,
            qy,
            d,
            position_id(m, qx, qy) as int,
            position_id(
                m,
                qx + crate::tile::direction_offset(d).0,
                qy + crate::tile::direction_offset(d).1,
            ) as int,
        ) ==> #[trigger] rules.allows(
            position_id(m, qx, qy) as int,
            position_id(
                m,
                qx + crate::tile::direction_offset(d).0,
                qy + crate::tile::direction_offset(d).1,
            ) as int,
            d,
        )
}

/// Recording one justified entry keeps the relation sound.
proof fn lemma_allow_preserves_sound(
    m: &Model,
    pre: &AdjacencyRules,
    post: &AdjacencyRules,
    a: Id,
    b: Id,
    dir: Direction,
)
    requires
        pre.num() == post.num(),
        a < pre.num(),
        b < pre.num(),
        tiled_sound(m, pre),
        spec_tiled_allowed(m, a as int, b as int, dir),
        post.allows(a as int, b as int, dir),
        forall|x: int, y: int, d: Direction|
            0 <= x < pre.num() && 0 <= y < pre.num() && !(x == a && y == b && d == dir)
                ==> #[trigger] post.allows(x, y, d) == pre.allows(x, y, d),
    ensures
        tiled_sound(m, post),
{
    assert forall|x: int, y: int, d: Direction|
        #[trigger] post.allows(x, y, d) && 0 <= x < post.num() && 0 <= y
            < post.num() implies spec_tiled_allowed(m, x, y, d) by {
        if !(x == a && y == b && d == dir) {
            assert(post.allows(x, y, d) == pre.allows(x, y, d));
        }
    }
}

/// Recording one more entry keeps every previously recorded pair in the
/// relation.
proof fn lemma_allow_preserves_covered(
    m: &Model,
    pre: &AdjacencyRules,
    post: &AdjacencyRules,
    px: int,
    py: int,
    a: Id,
    b: Id,
    dir: Direction,
)
    requires
        m.wf(),
        pre.num() == post.num(),
        post.num() == m.tiles@.len(),
        a < pre.num(),
        b < pre.num(),
        tiled_covered_upto(m, pre, px, py),
        post.allows(a as int, b as int, dir),
        forall|x: int, y: int, d: Direction|
            0 <= x < pre.num() && 0 <= y < pre.num() && !(x == a && y == b && d == dir)
                ==> #[trigger] post.allows(x, y, d) == pre.allows(x, y, d),
    ensures
        tiled_covered_upto(m, post, px, py),
{
    assert forall|qx: int, qy: int, d: Direction|
        0 <= qx < m.positions_width && 0 <= qy < m.positions_height && (qy < py || (qy == py && qx
            < px)) && spec_adjacent_pair(
            m,
            qx,
            qy,
            d,
            position_id(m, qx, qy) as int,
            position_id(
                m,
                qx + crate::tile::direction_offset(d).0,
                qy + crate::tile::direction_offset(d).1,
            ) as int,
        ) implies #[trigger] post.allows(
        position_id(m, qx, qy) as int,
        position_id(
            m,
            qx + crate::tile::direction_offset(d).0,
            qy + crate::tile::direction_offset(d).1,
        ) as int,
        d,
    ) by {
        let va = position_id(m, qx, qy) as int;
        let vb = position_id(
            m,
            qx + crate::tile::direction_offset(d).0,
            qy + crate::tile::direction_offset(d).1,
        ) as int;
        crate::tile::lemma_rowmajor_bound(
            m.positions_width as int,
            m.positions_height as int,
            qx,
            qy,
        );
        crate::tile::lemma_rowmajor_bound(
            m.positions_width as int,
            m.positions_height as int,
            qx + crate::tile::direction_offset(d).0,
            qy + crate::tile::direction_offset(d).1,
        );
        if !(va == a && vb == b && d == dir) {
            assert(post.allows(va, vb, d) == pre.allows(va, vb, d));
        }
    }
}

/// The directional compatibility relation between tile identifiers:
/// `rules[a][b][d]` says that tile `b` may legally sit in direction `d`
/// from tile `a`. Built once before solving, read-only thereafter, and
/// queryable in constant time.
pub struct AdjacencyRules {
    pub rules: Vec<Vec<Vec<bool>>>,
}

impl AdjacencyRules {
    /// How many tile identifiers the relation speaks of.
    pub open spec fn num(&self) -> int {
        self.rules@.len() as int
    }

    /// The table is square, with one slot per direction.
    pub open spec fn wf(&self) -> bool {
        forall|a: int|
            0 <= a < self.num() ==> (#[trigger] self.rules@[a])@.len() == self.num() && forall|
                b: int,
            |
                0 <= b < self.num() ==> (#[trigger] self.rules@[a]@[b])@.len() == 4
    }

    /// Whether tile `b` may sit in direction `d` from tile `a`.
    pub open spec fn allows(&self, a: int, b: int, d: Direction) -> bool {
        self.rules@[a]@[b]@[d.spec_idx() as int]
    }

    /// The relation reads the same from either side: `b` fits in direction
    /// `d` from `a` exactly when `a` fits in the opposite direction from
    /// `b`. Both construction strategies produce such a relation.
    pub open spec fn symmetric(&self) -> bool {
        forall|a: int, b: int, d: Direction|
            0 <= a < self.num() && 0 <= b < self.num() ==> #[trigger] self.allows(a, b, d)
                == self.allows(b, a, d.spec_flip())
    }

    /// Every ordered pair is allowed in every direction; a solve under
    /// such a relation cannot run into a contradiction.
    pub open spec fn complete(&self) -> bool {
        forall|a: int, b: int, d: Direction|
            0 <= a < self.num() && 0 <= b < self.num() ==> #[trigger] self.allows(a, b, d)
    }

    /// An all-false relation over `num_tiles` identifiers.
    pub fn new(num_tiles: usize) -> (r: AdjacencyRules)
        ensures
            r.wf(),
            r.num() == num_tiles,
            forall|a: int, b: int, d: Direction|
                0 <= a < num_tiles && 0 <= b < num_tiles ==> !r.allows(a, b, d),
    {
        let mut rules: Vec<Vec<Vec<bool>>> = Vec::new();
        let mut a: usize = 0;
        while a < num_tiles
            invariant
                a <= num_tiles,
                rules@.len() == a,
                forall|i: int|
                    0 <= i < a ==> (#[trigger] rules@[i])@.len() == num_tiles && forall|j: int|
                        0 <= j < num_tiles ==> (#[trigger] rules@[i]@[j])@.len() == 4 && forall|
                            k: int,
                        | 0 <= k < 4 ==> !(#[trigger] rules@[i]@[j]@[k]),
            decreases num_tiles - a,
        {
            let mut row: Vec<Vec<bool>> = Vec::new();
            let mut b: usize = 0;
            while b < num_tiles
                invariant
                    b <= num_tiles,
                    row@.len() == b,
                    forall|j: int|
                        0 <= j < b ==> (#[trigger] row@[j])@.len() == 4 && forall|k: int|
                            0 <= k < 4 ==> !(#[trigger] row@[j]@[k]),
                decreases num_tiles - b,
            {
                let mut cell: Vec<bool> = Vec::new();
                cell.push(false);
                cell.push(false);
                cell.push(false);
                cell.push(false);
                row.push(cell);
                b += 1;
            }
            rules.push(row);
            a += 1;
        }
        AdjacencyRules { rules }
    }

    /// Record that tile `b` may sit in direction `direction` from tile
    /// `a`; every other entry of the relation is left as it was.
    pub fn allow(&mut self, a: Id, b: Id, direction: Direction)
        requires
            old(self).wf(),
            a < old(self).num(),
            b < old(self).num(),
        ensures
            final(self).wf(),
            final(self).num() == old(self).num(),
            final(self).allows(a as int, b as int, direction),
            forall|x: int, y: int, d: Direction|
                0 <= x < old(self).num() && 0 <= y < old(self).num() && !(x == a && y == b
                    && d == direction) ==> #[trigger] final(self).allows(x, y, d) == old(
                    self,
                ).allows(x, y, d),
    {
        let idx = direction.idx();
        self.rules[a][b][idx] = true;
    }

    /// The relation an overlap-built catalog induces: every ordered pair
    /// of tiles is compared edge against edge under the model's
    /// construction mode, in all four directions.
    pub fn from_overlap_model(model: &Model) -> (r: AdjacencyRules)
        requires
            model.wf(),
        ensures
            r.wf(),
            r.num() == model.tiles@.len(),
            forall|a: int, b: int, d: Direction|
                0 <= a < r.num() && 0 <= b < r.num() ==> #[trigger] r.allows(a, b, d)
                    == crate::tile::spec_overlaps(
                    &model.tiles@[a],
                    &model.tiles@[b],
                    d,
                    model.mode,
                ),
            r.symmetric(),
    {
        let num_tiles = model.tiles.len();
        let mut rules = AdjacencyRules::new(num_tiles);
        let mut a: usize = 0;
        while a < num_tiles
            invariant
                a <= num_tiles,
                model.wf(),
                num_tiles == model.tiles@.len(),
                rules.wf(),
                rules.num() == num_tiles,
                forall|x: int, y: int, d: Direction|
                    0 <= x < a && 0 <= y < num_tiles ==> #[trigger] rules.allows(x, y, d)
                        == crate::tile::spec_overlaps(
                        &model.tiles@[x],
                        &model.tiles@[y],
                        d,
                        model.mode,
                    ),
                forall|x: int, y: int, d: Direction|
                    a <= x < num_tiles && 0 <= y < num_tiles ==> !#[trigger] rules.allows(x, y, d),
            decreases num_tiles - a,
        {
            let mut b: usize = 0;
            while b < num_tiles
                invariant
                    a < num_tiles,
                    b <= num_tiles,
                    model.wf(),
                    num_tiles == model.tiles@.len(),
                    rules.wf(),
                    rules.num() == num_tiles,
                    forall|x: int, y: int, d: Direction|
                        0 <= x < a && 0 <= y < num_tiles ==> #[trigger] rules.allows(x, y, d)
                            == crate::tile::spec_overlaps(
                            &model.tiles@[x],
                            &model.tiles@[y],
                            d,
                            model.mode,
                        ),
                    forall|y: int, d: Direction|
                        0 <= y < b ==> #[trigger] rules.allows(a as int, y, d)
                            == crate::tile::spec_overlaps(
                            &model.tiles@[a as int],
                            &model.tiles@[y],
                            d,
                            model.mode,
                        ),
                    forall|y: int, d: Direction|
                        b <= y < num_tiles ==> !#[trigger] rules.allows(a as int, y, d),
                    forall|x: int, y: int, d: Direction|
                        a < x < num_tiles && 0 <= y < num_tiles ==> !#[trigger] rules.allows(
                            x,
                            y,
                            d,
                        ),
                decreases num_tiles - b,
            {
                if model.tiles[a].overlaps(&model.tiles[b], Direction::UP, model.mode) {
                    rules.allow(a, b, Direction::UP);
                }
                if model.tiles[a].overlaps(&model.tiles[b], Direction::DOWN, model.mode) {
                    rules.allow(a, b, Direction::DOWN);
                }
                if model.tiles[a].overlaps(&model.tiles[b], Direction::LEFT, model.mode) {
                    rules.allow(a, b, Direction::LEFT);
                }
                if model.tiles[a].overlaps(&model.tiles[b], Direction::RIGHT, model.mode) {
                    rules.allow(a, b, Direction::RIGHT);
                }
                proof {
                    assert forall|d: Direction| #[trigger]
                        rules.allows(a as int, b as int, d) == crate::tile::spec_overlaps(
                            &model.tiles@[a as int],
                            &model.tiles@[b as int],
                            d,
                            model.mode,
                        ) by {
                        match d {
                            Direction::UP => {},
                            Direction::DOWN => {},
                            Direction::LEFT => {},
                            Direction::RIGHT => {},
                        }
                    }
                }
                b += 1;
            }
            a += 1;
        }
        proof {
            assert forall|x: int, y: int, d: Direction|
                0 <= x < rules.num() && 0 <= y < rules.num() implies #[trigger] rules.allows(
                x,
                y,
                d,
            ) == rules.allows(y, x, d.spec_flip()) by {
                match model.mode {
                    Mode::Overlap => {
                        crate::tile::lemma_compare_overlap_symmetry(
                            &model.tiles@[x],
                            &model.tiles@[y],
                            d,
                        );
                    }
                    Mode::Tile => {
                        crate::tile::lemma_compare_tile_symmetry(
                            &model.tiles@[x],
                            &model.tiles@[y],
                            d,
                        );
                    }
                }
            }
        }
        rules
    }

    /// The relation a tiled catalog's recorded positions induce: each
    /// position marks its actual neighbors as allowed, capturing the
    /// placement intent of the source rather than pixel similarity.
    #[verifier::rlimit(100)]
    pub fn from_tile_model(model: &Model) -> (r: AdjacencyRules)
        requires
            model.wf(),
        ensures
            r.wf(),
            r.num() == model.tiles@.len(),
            forall|a: int, b: int, d: Direction|
                0 <= a < r.num() && 0 <= b < r.num() ==> #[trigger] r.allows(a, b, d)
                    == spec_tiled_allowed(model, a, b, d),
            r.symmetric(),
    {
        let num_tiles = model.tiles.len();
        let gw = model.positions_width;
        let gh = model.positions_height;
        let mut rules = AdjacencyRules::new(num_tiles);
        let mut py: usize = 0;
        while py < gh
            invariant
                py <= gh,
                model.wf(),
                num_tiles == model.tiles@.len(),
                gw == model.positions_width,
                gh == model.positions_height,
                rules.wf(),
                rules.num() == num_tiles,
                tiled_sound(model, &rules),
                tiled_covered_upto(model, &rules, 0, py as int),
            decreases gh - py,
        {
            let mut px: usize = 0;
            while px < gw
                invariant
                    py < gh,
                    px <= gw,
                    model.wf(),
                    num_tiles == model.tiles@.len(),
                    gw == model.positions_width,
                    gh == model.positions_height,
                    rules.wf(),
                    rules.num() == num_tiles,
                    tiled_sound(model, &rules),
                    tiled_covered_upto(model, &rules, px as int, py as int),
                decreases gw - px,
            {
                proof {
                    crate::tile::lemma_rowmajor_bound(gw as int, gh as int, px as int, py as int);
                    assert(model.position_to_tile.len() == model.position_to_tile@.len());
                    assert(gw * gh <= usize::MAX);
                }
                let k = py * gw + px;
                let id_here = model.position_to_tile[k];
                if py >= 1 {
                    proof {
                        crate::tile::lemma_rowmajor_bound(
                            gw as int,
                            gh as int,
                            px as int,
                            py as int - 1,
                        );
                    }
                    let id_up = model.position_to_tile[(py - 1) * gw + px];
                    let ghost pre = rules;
                    rules.allow(id_here, id_up, Direction::UP);
                    proof {
                        assert(spec_adjacent_pair(
                            model,
                            px as int,
                            py as int,
                            Direction::UP,
                            id_here as int,
                            id_up as int,
                        ));
                        lemma_allow_preserves_sound(model, &pre, &rules, id_here, id_up, Direction::UP);
                        lemma_allow_preserves_covered(
                            model,
                            &pre,
                            &rules,
                            px as int,
                            py as int,
                            id_here,
                            id_up,
                            Direction::UP,
                        );
                    }
                }
                if py + 1 < gh {
                    proof {
                        crate::tile::lemma_rowmajor_bound(
                            gw as int,
                            gh as int,
                            px as int,
                            py as int + 1,
                        );
                    }
                    let id_down = model.position_to_tile[(py + 1) * gw + px];
                    let ghost pre = rules;
                    rules.allow(id_here, id_down, Direction::DOWN);
                    proof {
                        assert(spec_adjacent_pair(
                            model,
                            px as int,
                            py as int,
                            Direction::DOWN,
                            id_here as int,
                            id_down as int,
                        ));
                        lemma_allow_preserves_sound(model, &pre, &rules, id_here, id_down, Direction::DOWN);
                        lemma_allow_preserves_covered(
                            model,
                            &pre,
                            &rules,
                            px as int,
                            py as int,
                            id_here,
                            id_down,
                            Direction::DOWN,
                        );
                    }
                }
                if px >= 1 {
                    proof {
                    }
                    let id_left = model.position_to_tile[k - 1];
                    let ghost pre = rules;
                    rules.allow(id_here, id_left, Direction::LEFT);
                    proof {
                        assert(spec_adjacent_pair(
                            model,
                            px as int,
                            py as int,
                            Direction::LEFT,
                            id_here as int,
                            id_left as int,
                        ));
                        lemma_allow_preserves_sound(model, &pre, &rules, id_here, id_left, Direction::LEFT);
                        lemma_allow_preserves_covered(
                            model,
                            &pre,
                            &rules,
                            px as int,
                            py as int,
                            id_here,
                            id_left,
                            Direction::LEFT,
                        );
                    }
                }
                if px + 1 < gw {
                    proof {
                        crate::tile::lemma_rowmajor_bound(
                            gw as int,
                            gh as int,
                            px as int + 1,
                            py as int,
                        );
                    }
                    let id_right = model.position_to_tile[k + 1];
                    let ghost pre = rules;
                    rules.allow(id_here, id_right, Direction::RIGHT);
                    proof {
                        assert(spec_adjacent_pair(
                            model,
                            px as int,
                            py as int,
                            Direction::RIGHT,
                            id_here as int,
                            id_right as int,
                        ));
                        lemma_allow_preserves_sound(model, &pre, &rules, id_here, id_right, Direction::RIGHT);
                        lemma_allow_preserves_covered(
                            model,
                            &pre,
                            &rules,
                            px as int,
                            py as int,
                            id_here,
                            id_right,
                            Direction::RIGHT,
                        );
                    }
                }
                proof {
                    assert forall|d: Direction|
                        spec_adjacent_pair(
                            model,
                            px as int,
                            py as int,
                            d,
                            position_id(model, px as int, py as int) as int,
                            position_id(
                                model,
                                px + crate::tile::direction_offset(d).0,
                                py + crate::tile::direction_offset(d).1,
                            ) as int,
                        ) implies #[trigger] rules.allows(
                        position_id(model, px as int, py as int) as int,
                        position_id(
                            model,
                            px + crate::tile::direction_offset(d).0,
                            py + crate::tile::direction_offset(d).1,
                        ) as int,
                        d,
                    ) by {
                        match d {
                            Direction::UP => {},
                            Direction::DOWN => {},
                            Direction::LEFT => {},
                            Direction::RIGHT => {},
                        }
                    }
                    assert(tiled_covered_upto(model, &rules, px as int + 1, py as int));
                }
                px += 1;
            }
            proof {
                assert(tiled_covered_upto(model, &rules, 0, py as int + 1));
            }
            py += 1;
        }
        proof {
            assert forall|a: int, b: int, d: Direction|
                0 <= a < rules.num() && 0 <= b < rules.num() implies #[trigger] rules.allows(
                a,
                b,
                d,
            ) == spec_tiled_allowed(model, a, b, d) by {
                if spec_tiled_allowed(model, a, b, d) {
                    let (px, py) = choose|px: int, py: int|
                        spec_adjacent_pair(model, px, py, d, a, b);
                    assert(spec_adjacent_pair(
                        model,
                        px,
                        py,
                        d,
                        position_id(model, px, py) as int,
                        position_id(
                            model,
                            px + crate::tile::direction_offset(d).0,
                            py + crate::tile::direction_offset(d).1,
                        ) as int,
                    ));
                }
            }
            assert forall|a: int, b: int, d: Direction|
                0 <= a < rules.num() && 0 <= b < rules.num() implies #[trigger] rules.allows(
                a,
                b,
                d,
            ) == rules.allows(b, a, d.spec_flip()) by {
                if spec_tiled_allowed(model, a, b, d) {
                    let (px, py) = choose|px: int, py: int|
                        spec_adjacent_pair(model, px, py, d, a, b);
                    let dx = crate::tile::direction_offset(d).0;
                    let dy = crate::tile::direction_offset(d).1;
                    assert(spec_adjacent_pair(model, px + dx, py + dy, d.spec_flip(), b, a));
                }
                if spec_tiled_allowed(model, b, a, d.spec_flip()) {
                    let (px, py) = choose|px: int, py: int|
                        spec_adjacent_pair(model, px, py, d.spec_flip(), b, a);
                    let dx = crate::tile::direction_offset(d.spec_flip()).0;
                    let dy = crate::tile::direction_offset(d.spec_flip()).1;
                    assert(spec_adjacent_pair(model, px + dx, py + dy, d, a, b));
                }
            }
        }
        rules
    }

    /// Whether tile `b` may sit in direction `direction` from tile `a`.
    pub fn valid_neighbors(&self, a: Id, b: Id, direction: Direction) -> (r: bool)
        requires
            self.wf(),
            a < self.num(),
            b < self.num(),
        ensures
            r == self.allows(a as int, b as int, direction),
    {
        self.rules[a][b][direction.idx()]
    }
}

} // verus!
