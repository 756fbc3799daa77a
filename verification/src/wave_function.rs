use vstd::prelude::*;

use crate::adjacency_rules::AdjacencyRules;
use crate::cell_state::CellState;
use crate::direction::Direction;
use crate::error::WfcError;
use crate::image::Image;
use crate::mode::Mode;
use crate::model::Model;
use crate::parse_method::ParseMethod;
use crate::tile::direction_offset;
use crate::tile::Tile;
use crate::types::Id;
use crate::unique_stack::UniqueStack;
use crate::vector2::Vector2;

verus! {

/// How many cells of the grid are still unresolved.
pub open spec fn count_unresolved(s: Seq<CellState>) -> int
    decreases s.len(),
{
    if s.len() == 0 {
        0
    } else {
        count_unresolved(s.drop_last()) + if s.last().state is None {
            1int
        } else {
            0int
        }
    }
}

/// The total number of candidates left across the whole grid; the measure
/// that shrinks as propagation runs.
pub open spec fn total_choices(s: Seq<CellState>) -> int
    decreases s.len(),
{
    if s.len() == 0 {
        0
    } else {
        total_choices(s.drop_last()) + s.last().choices@.len()
    }
}

/// Appending a cell adds its unresolved indicator to the count.
pub proof fn lemma_count_push(s: Seq<CellState>, c: CellState)
    ensures
        count_unresolved(s.push(c)) == count_unresolved(s) + if c.state is None {
            1int
        } else {
            0int
        },
{
    assert(s.push(c).drop_last() =~= s);
}

/// Replacing one cell changes the count by the difference of indicators.
pub proof fn lemma_count_update(s: Seq<CellState>, i: int, c: CellState)
    requires
        0 <= i < s.len(),
    ensures
        count_unresolved(s.update(i, c)) == count_unresolved(s) + (if c.state is None {
            1int
        } else {
            0int
        }) - (if s[i].state is None {
            1int
        } else {
            0int
        }),
    decreases s.len(),
{
    if i == s.len() - 1 {
        assert(s.update(i, c).drop_last() =~= s.drop_last());
    } else {
        assert(s.update(i, c).drop_last() =~= s.drop_last().update(i, c));
        lemma_count_update(s.drop_last(), i, c);
    }
}

/// A grid with no unresolved cell left has every cell resolved.
pub proof fn lemma_count_zero(s: Seq<CellState>)
    requires
        count_unresolved(s) == 0,
    ensures
        forall|i: int| 0 <= i < s.len() ==> !((#[trigger] s[i]).state is None),
    decreases s.len(),
{
    if s.len() > 0 {
        lemma_count_nonneg(s.drop_last());
        lemma_count_zero(s.drop_last());
        assert forall|i: int| 0 <= i < s.len() implies !((#[trigger] s[i]).state is None) by {
            if i < s.len() - 1 {
                assert(s[i] == s.drop_last()[i]);
            }
        }
    }
}

/// The unresolved count is never negative.
pub proof fn lemma_count_nonneg(s: Seq<CellState>)
    ensures
        count_unresolved(s) >= 0,
    decreases s.len(),
{
    if s.len() > 0 {
        lemma_count_nonneg(s.drop_last());
    }
}

/// A grid with unresolved cells has one.
pub proof fn lemma_count_pos(s: Seq<CellState>)
    requires
        count_unresolved(s) > 0,
    ensures
        exists|i: int| 0 <= i < s.len() && (#[trigger] s[i]).state is None,
    decreases s.len(),
{
    if s.len() > 0 {
        if s.last().state is None {
            assert(s[s.len() - 1].state is None);
        } else {
            lemma_count_pos(s.drop_last());
            let i = choose|i: int|
                0 <= i < s.drop_last().len() && (#[trigger] s.drop_last()[i]).state is None;
            assert(s[i].state is None);
        }
    }
}

/// Replacing one cell changes the candidate total by the difference of
/// the two cells' candidate counts.
pub proof fn lemma_total_update(s: Seq<CellState>, i: int, c: CellState)
    requires
        0 <= i < s.len(),
    ensures
        total_choices(s.update(i, c)) == total_choices(s) + c.choices@.len() - s[i].choices@.len(),
    decreases s.len(),
{
    if i == s.len() - 1 {
        assert(s.update(i, c).drop_last() =~= s.drop_last());
    } else {
        assert(s.update(i, c).drop_last() =~= s.drop_last().update(i, c));
        lemma_total_update(s.drop_last(), i, c);
    }
}

/// The candidate total is never negative.
pub proof fn lemma_total_nonneg(s: Seq<CellState>)
    ensures
        total_choices(s) >= 0,
    decreases s.len(),
{
    if s.len() > 0 {
        lemma_total_nonneg(s.drop_last());
    }
}

/// A grid with an unresolved cell counts at least one.
pub proof fn lemma_count_lower(s: Seq<CellState>, i: int)
    requires
        0 <= i < s.len(),
        s[i].state is None,
    ensures
        count_unresolved(s) >= 1,
    decreases s.len(),
{
    if i == s.len() - 1 {
        lemma_count_nonneg(s.drop_last());
    } else {
        lemma_count_lower(s.drop_last(), i);
    }
}

/// The weight of each candidate: its tile's occurrence count.
pub open spec fn weight_seq(freqs: Seq<u64>, choices: Seq<Id>) -> Seq<u64> {
    Seq::new(choices.len(), |j: int| freqs[choices[j] as int])
}

/// Which slot a draw of `t` lands in: weights are laid end to end and `t`
/// picks the slot covering it, so a slot is chosen with probability
/// proportional to its weight.
pub open spec fn spec_pick(ws: Seq<u64>, t: int) -> int
    decreases ws.len(),
{
    if ws.len() == 0 {
        0
    } else if t < ws[0] {
        0
    } else {
        1 + spec_pick(ws.drop_first(), t - ws[0])
    }
}

/// A sum can also be peeled from the front.
pub proof fn lemma_sum_first(s: Seq<u64>)
    requires
        s.len() > 0,
    ensures
        crate::model::sum_u64(s) == s[0] + crate::model::sum_u64(s.drop_first()),
    decreases s.len(),
{
    if s.len() == 1 {
        assert(s.drop_last().len() == 0);
        assert(s.drop_first().len() == 0);
        assert(crate::model::sum_u64(s.drop_last()) == 0);
        assert(crate::model::sum_u64(s.drop_first()) == 0);
        assert(crate::model::sum_u64(s) == crate::model::sum_u64(s.drop_last()) + s.last());
    } else {
        let dl = s.drop_last();
        let df = s.drop_first();
        lemma_sum_first(dl);
        assert(dl.drop_first() =~= df.drop_last());
        assert(dl.drop_first() == df.drop_last());
        assert(crate::model::sum_u64(dl.drop_first()) == crate::model::sum_u64(df.drop_last()));
        assert(dl[0] == s[0]);
        assert(df.last() == s.last());
        assert(crate::model::sum_u64(s) == crate::model::sum_u64(dl) + s.last());
        assert(crate::model::sum_u64(df) == crate::model::sum_u64(df.drop_last()) + df.last());
    }
}

/// A draw below the total weight lands on a slot of positive weight.
pub proof fn lemma_pick_in_range(ws: Seq<u64>, t: int)
    requires
        0 <= t < crate::model::sum_u64(ws),
    ensures
        0 <= spec_pick(ws, t) < ws.len(),
        ws[spec_pick(ws, t)] > 0,
    decreases ws.len(),
{
    lemma_sum_first(ws);
    if t < ws[0] {
    } else {
        lemma_pick_in_range(ws.drop_first(), t - ws[0]);
    }
}

/// Some candidate of `src` supports `v` in direction `d`.
pub open spec fn spec_has_support(
    rules: &AdjacencyRules,
    src: Seq<Id>,
    v: Id,
    d: Direction,
) -> bool {
    exists|u: int| 0 <= u < src.len() && rules.allows(src[u] as int, v as int, d)
}

/// Removing one entry of a duplicate-free sequence keeps it duplicate
/// free and removes exactly that element.
pub proof fn lemma_remove_props(s: Seq<Id>, i: int)
    requires
        0 <= i < s.len(),
        forall|j: int, k: int| 0 <= j < k < s.len() ==> s[j] != s[k],
    ensures
        s.remove(i).len() == s.len() - 1,
        forall|j: int, k: int| 0 <= j < k < s.remove(i).len() ==> s.remove(i)[j] != s.remove(i)[k],
        forall|v: Id| s.remove(i).contains(v) <==> (s.contains(v) && v != s[i]),
{
    let t = s.remove(i);
    assert forall|v: Id| t.contains(v) <==> (s.contains(v) && v != s[i]) by {
        if t.contains(v) {
            let j = choose|j: int| 0 <= j < t.len() && t[j] == v;
            if j < i {
                assert(s[j] == v);
            } else {
                assert(s[j + 1] == v);
            }
        }
        if s.contains(v) && v != s[i] {
            let j = choose|j: int| 0 <= j < s.len() && s[j] == v;
            if j < i {
                assert(t[j] == v);
            } else {
                assert(t[j - 1] == v);
            }
        }
    }
}

/// Whether some candidate of `src` may sit in direction `d` from `v`...
/// read the other way round: whether `v` still has a supporting partner.
fn has_support(rules: &AdjacencyRules, src: &Vec<Id>, v: Id, d: Direction) -> (r: bool)
    requires
        rules.wf(),
        v < rules.num(),
        forall|j: int| 0 <= j < src@.len() ==> (#[trigger] src@[j]) < rules.num(),
    ensures
        r == spec_has_support(rules, src@, v, d),
{
    let mut j: usize = 0;
    while j < src.len()
        invariant
            j <= src@.len(),
            rules.wf(),
            v < rules.num(),
            forall|k: int| 0 <= k < src@.len() ==> (#[trigger] src@[k]) < rules.num(),
            forall|k: int| 0 <= k < j ==> !rules.allows((#[trigger] src@[k]) as int, v as int, d),
        decreases src@.len() - j,
    {
        if rules.valid_neighbors(src[j], v, d) {
            return true;
        }
        j += 1;
    }
    false
}

/// Arc-consistency revision of one unresolved cell: remove every
/// candidate that no member of `src` supports in direction `d`. Returns
/// whether anything was removed.
fn revise_cell(cell: &mut CellState, src: &Vec<Id>, d: Direction, rules: &AdjacencyRules) -> (changed:
    bool)
    requires
        rules.wf(),
        old(cell).state is None,
        forall|j: int| 0 <= j < old(cell).choices@.len() ==> (#[trigger] old(cell).choices@[j])
            < rules.num(),
        forall|j: int, k: int|
            0 <= j < k < old(cell).choices@.len() ==> old(cell).choices@[j] != old(cell).choices@[k],
        forall|j: int| 0 <= j < src@.len() ==> (#[trigger] src@[j]) < rules.num(),
    ensures
        final(cell).state == old(cell).state,
        forall|v: Id|
            final(cell).choices@.contains(v) <==> (old(cell).choices@.contains(v)
                && spec_has_support(rules, src@, v, d)),
        forall|j: int| 0 <= j < final(cell).choices@.len() ==> (#[trigger] final(cell).choices@[j])
            < rules.num(),
        forall|j: int, k: int|
            0 <= j < k < final(cell).choices@.len() ==> final(cell).choices@[j] != final(cell).choices@[k],
        final(cell).choices@.len() <= old(cell).choices@.len(),
        changed == (final(cell).choices@.len() < old(cell).choices@.len()),
        !changed ==> final(cell).choices@ == old(cell).choices@,
{
    let snapshot = cell.get_choices();
    let old_len = cell.choices.len();
    let mut i: usize = 0;
    while i < snapshot.len()
        invariant
            i <= snapshot@.len(),
            rules.wf(),
            cell.state is None,
            old(cell).state is None,
            snapshot@ == old(cell).choices@,
            forall|a: int, b: int| 0 <= a < b < snapshot@.len() ==> snapshot@[a] != snapshot@[b],
            old_len == old(cell).choices@.len(),
            forall|j: int| 0 <= j < src@.len() ==> (#[trigger] src@[j]) < rules.num(),
            forall|j: int| 0 <= j < cell.choices@.len() ==> (#[trigger] cell.choices@[j])
                < rules.num(),
            forall|j: int, k: int|
                0 <= j < k < cell.choices@.len() ==> cell.choices@[j] != cell.choices@[k],
            cell.choices@.len() <= old(cell).choices@.len(),
            cell.choices@.len() < old(cell).choices@.len() || cell.choices@ == old(cell).choices@,
            forall|v: Id| cell.choices@.contains(v) ==> old(cell).choices@.contains(v),
            forall|v: Id|
                old(cell).choices@.contains(v) && spec_has_support(rules, src@, v, d)
                    ==> cell.choices@.contains(v),
            forall|k: int|
                0 <= k < i && !spec_has_support(rules, src@, #[trigger] snapshot@[k], d)
                    ==> !cell.choices@.contains(snapshot@[k]),
            forall|k: int|
                i <= k < snapshot@.len() ==> cell.choices@.contains(#[trigger] snapshot@[k]),
        decreases snapshot@.len() - i,
    {
        let v = snapshot[i];
        if !has_support(rules, src, v, d) {
            let ghost pre = cell.choices@;
            proof {
                assert(pre.contains(v));
                crate::cell_state::lemma_first_index(pre, v);
                lemma_remove_props(pre, crate::cell_state::first_index(pre, v));
            }
            cell.remove_choice(&v);
            proof {
                assert forall|k: int|
                    i + 1 <= k < snapshot@.len() implies cell.choices@.contains(
                    #[trigger] snapshot@[k],
                ) by {
                    assert(snapshot@[k] != snapshot@[i as int]);
                    assert(pre.contains(snapshot@[k]));
                }
            }
        }
        i += 1;
    }
    proof {
        assert forall|v: Id|
            cell.choices@.contains(v) <==> (old(cell).choices@.contains(v) && spec_has_support(
                rules,
                src@,
                v,
                d,
            )) by {
            if old(cell).choices@.contains(v) && !spec_has_support(rules, src@, v, d) {
                let k = choose|k: int| 0 <= k < snapshot@.len() && snapshot@[k] == v;
                assert(!cell.choices@.contains(snapshot@[k]));
            }
        }
    }
    let new_len = cell.choices.len();
    new_len < old_len
}

/// The direction of some already handled entry of the neighbor list.
pub open spec fn dir_processed(ns: Seq<(Vector2, Direction)>, ni: int, d: Direction) -> bool {
    exists|k: int| 0 <= k < ni && ns[k].1 == d
}

/// What the neighbor list promises entry by entry: each entry is the
/// in-bounds coordinate one step from `c` in its direction, and every
/// direction whose step stays in bounds appears.
pub proof fn lemma_neighbors_props(w: int, h: int, c: Vector2)
    requires
        0 <= c.x < w,
        0 <= c.y < h,
        w <= i32::MAX,
        h <= i32::MAX,
    ensures
        forall|k: int|
            0 <= k < crate::helpers::spec_neighbors(w, h, c).len() ==> {
                let p = (#[trigger] crate::helpers::spec_neighbors(w, h, c)[k]).0;
                let d = crate::helpers::spec_neighbors(w, h, c)[k].1;
                &&& p.x == c.x + direction_offset(d).0
                &&& p.y == c.y + direction_offset(d).1
                &&& 0 <= p.x < w
                &&& 0 <= p.y < h
            },
        forall|d: Direction|
            0 <= c.x + direction_offset(d).0 < w && 0 <= c.y + direction_offset(d).1 < h
                ==> dir_processed(
                crate::helpers::spec_neighbors(w, h, c),
                crate::helpers::spec_neighbors(w, h, c).len() as int,
                d,
            ),
{
    let ns = crate::helpers::spec_neighbors(w, h, c);
    let up: Seq<(Vector2, Direction)> = if c.y > 0 {
        seq![(Vector2 { x: c.x, y: (c.y - 1) as i32 }, Direction::UP)]
    } else {
        Seq::empty()
    };
    let left: Seq<(Vector2, Direction)> = if c.x > 0 {
        seq![(Vector2 { x: (c.x - 1) as i32, y: c.y }, Direction::LEFT)]
    } else {
        Seq::empty()
    };
    let right: Seq<(Vector2, Direction)> = if c.x + 1 < w {
        seq![(Vector2 { x: (c.x + 1) as i32, y: c.y }, Direction::RIGHT)]
    } else {
        Seq::empty()
    };
    let down: Seq<(Vector2, Direction)> = if c.y + 1 < h {
        seq![(Vector2 { x: c.x, y: (c.y + 1) as i32 }, Direction::DOWN)]
    } else {
        Seq::empty()
    };
    assert(ns == up + left + right + down);
    assert forall|d: Direction|
        0 <= c.x + direction_offset(d).0 < w && 0 <= c.y + direction_offset(d).1
            < h implies dir_processed(ns, ns.len() as int, d) by {
        match d {
            Direction::UP => {
                assert(ns[0].1 == Direction::UP);
            }
            Direction::LEFT => {
                assert(ns[up.len() as int].1 == Direction::LEFT);
            }
            Direction::RIGHT => {
                assert(ns[(up.len() + left.len()) as int].1 == Direction::RIGHT);
            }
            Direction::DOWN => {
                assert(ns[(up.len() + left.len() + right.len()) as int].1 == Direction::DOWN);
            }
        }
    }
}

/// A total assignment of tile identifiers respects the relation: for
/// every pair of grid-adjacent coordinates, the tile at the second may
/// sit in that direction from the tile at the first.
pub open spec fn spec_assignment_ok(a: Seq<Id>, rules: &AdjacencyRules, w: int, h: int) -> bool {
    forall|x: int, y: int, d: Direction|
        0 <= x < w && 0 <= y < h && 0 <= x + direction_offset(d).0 < w && 0 <= y
            + direction_offset(d).1 < h ==> #[trigger] rules.allows(
            a[y * w + x] as int,
            a[(y + direction_offset(d).1) * w + (x + direction_offset(d).0)] as int,
            d,
        )
}

/// Compatibility of resolved pairs depends only on the resolved states:
/// an engine whose cells resolve identically inherits it.
pub proof fn lemma_resolved_ok_transfer(a: &WaveFunction, b: &WaveFunction)
    requires
        a.resolved_ok(),
        a.adjacency_rules == b.adjacency_rules,
        a.dimensions == b.dimensions,
        a.state@.len() == b.state@.len(),
        a.state@.len() == a.gw() * a.gh(),
        forall|c: int| 0 <= c < a.state@.len() ==> (#[trigger] b.state@[c]).state == a.state@[c].state,
    ensures
        b.resolved_ok(),
{
    assert forall|x: int, y: int, d: Direction| #[trigger] b.resolved_pair_ok(x, y, d) by {
        let nx = x + direction_offset(d).0;
        let ny = y + direction_offset(d).1;
        if b.in_grid(x, y) && b.in_grid(nx, ny) {
            crate::tile::lemma_rowmajor_bound(b.gw(), b.gh(), x, y);
            crate::tile::lemma_rowmajor_bound(b.gw(), b.gh(), nx, ny);
            assert(a.resolved_pair_ok(x, y, d));
            assert(b.cell(x, y).state == a.cell(x, y).state);
            assert(b.cell(nx, ny).state == a.cell(nx, ny).state);
        }
    }
}

/// One channel of the left blend fold over the top-left samples of the
/// listed tiles: the first tile's sample, averaged channel-wise with each
/// following tile's sample in turn; how a cell with several candidates
/// left is rendered.
pub open spec fn spec_blend_fold(tiles: Seq<Tile>, dom: Seq<Id>, c: int) -> u8
    decreases dom.len(),
{
    if dom.len() <= 1 {
        tiles[dom[0] as int].spec_at(0, 0)@[c]
    } else {
        crate::color::blend_channel(
            spec_blend_fold(tiles, dom.drop_last(), c),
            tiles[dom.last() as int].spec_at(0, 0)@[c],
        )
    }
}

/// The candidate a weighted draw resolves a cell to: a pure function of
/// the frequency hints, the candidate list and the generator state.
pub open spec fn spec_weighted_choice(freqs: Seq<u64>, choices: Seq<Id>, rng: u64) -> Id {
    let ws = weight_seq(freqs, choices);
    let t = crate::rng::spec_output(rng) as int % crate::model::sum_u64(ws);
    choices[spec_pick(ws, t)]
}

/// The propagation engine: owns the grid of per-cell candidate sets, the
/// smallest-domain-first selection heuristic, the seeded weighted random
/// resolution, and the worklist-based arc-consistency loop that turns the
/// grid into a single concrete assignment.
pub struct WaveFunction {
    pub model: Model,
    pub adjacency_rules: AdjacencyRules,
    /// One cell per output coordinate, row-major.
    pub state: Vec<CellState>,
    pub dimensions: (usize, usize),
    pub cells_to_collapse: usize,
    /// The deterministic random source; the whole solve is a function of
    /// the inputs and this seed.
    pub rng_state: u64,
    pub make_gif: bool,
    /// Counts collapses, so that only every tenth state is kept as a
    /// snapshot; owned by this instance, not process-wide.
    pub snapshot_counter: usize,
    pub snapshots: Vec<Image>,
}

impl WaveFunction {
    /// The number of tile identifiers.
    pub open spec fn n(&self) -> int {
        self.model.tiles@.len() as int
    }

    /// Output grid width and height.
    pub open spec fn gw(&self) -> int {
        self.dimensions.0 as int
    }

    pub open spec fn gh(&self) -> int {
        self.dimensions.1 as int
    }

    pub open spec fn in_grid(&self, x: int, y: int) -> bool {
        0 <= x < self.gw() && 0 <= y < self.gh()
    }

    /// The cell at output coordinate `(x, y)`.
    pub open spec fn cell(&self, x: int, y: int) -> CellState {
        self.state@[y * self.gw() + x]
    }

    /// One cell is consistent: a resolved cell holds a real identifier and
    /// no leftover candidates; an unresolved cell holds distinct real
    /// identifiers.
    pub open spec fn cell_wf(&self, c: CellState) -> bool {
        match c.state {
            Some(id) => id < self.n() && c.choices@.len() == 0,
            None => (forall|j: int| 0 <= j < c.choices@.len() ==> (#[trigger] c.choices@[j]) < self.n())
                && (forall|j: int, k: int|
                0 <= j < k < c.choices@.len() ==> c.choices@[j] != c.choices@[k]),
        }
    }

    /// The whole engine is consistent: the rules speak of the model's
    /// identifiers, the grid holds one well-formed cell per coordinate,
    /// and the unresolved counter is exact.
    pub open spec fn wf_solver(&self) -> bool {
        &&& self.model.wf()
        &&& self.adjacency_rules.wf()
        &&& self.adjacency_rules.num() == self.n()
        &&& self.state@.len() == self.gw() * self.gh()
        &&& self.gw() <= i32::MAX
        &&& self.gh() <= i32::MAX
        &&& forall|c: int| 0 <= c < self.state@.len() ==> self.cell_wf(#[trigger] self.state@[c])
        &&& self.cells_to_collapse == count_unresolved(self.state@)
    }

    /// Every candidate of `s` may sit in direction `d` from tile `a`.
    pub open spec fn all_allowed(&self, a: int, s: Seq<Id>, d: Direction) -> bool {
        forall|j: int|
            0 <= j < s.len() ==> self.adjacency_rules.allows(a, (#[trigger] s[j]) as int, d)
    }

    /// If the cell at `(x, y)` is resolved and its neighbor one step in
    /// `d` is unresolved, every candidate the neighbor still holds is
    /// compatible with the resolved tile.
    pub open spec fn supported_from(&self, x: int, y: int, d: Direction) -> bool {
        let nx = x + direction_offset(d).0;
        let ny = y + direction_offset(d).1;
        match self.cell(x, y).state {
            Some(a) => (self.in_grid(x, y) && self.in_grid(nx, ny) && self.cell(nx, ny).state
                is None) ==> self.all_allowed(a as int, self.cell(nx, ny).choices@, d),
            None => true,
        }
    }

    /// Every resolved cell constrains all its unresolved neighbors.
    pub open spec fn supports(&self) -> bool {
        forall|x: int, y: int, d: Direction| #[trigger] self.supported_from(x, y, d)
    }

    /// Every resolved cell but the one at flat index `ex` constrains all
    /// its unresolved neighbors; the state right after a collapse, before
    /// the collapse has been propagated.
    pub open spec fn supports_except(&self, ex: int) -> bool {
        forall|x: int, y: int, d: Direction|
            y * self.gw() + x != ex ==> #[trigger] self.supported_from(x, y, d)
    }

    /// Whatever the cell at `(x, y)` still admits supports every candidate
    /// of its unresolved neighbor one step in `d`: the arc from `(x, y)`
    /// into that neighbor is consistent, whether the source is resolved or
    /// still holds several candidates.
    pub open spec fn arc_consistent_from(&self, x: int, y: int, d: Direction) -> bool {
        let nx = x + direction_offset(d).0;
        let ny = y + direction_offset(d).1;
        (self.in_grid(x, y) && self.in_grid(nx, ny) && self.cell(nx, ny).state is None)
            ==> forall|j: int|
            0 <= j < self.cell(nx, ny).choices@.len() ==> spec_has_support(
                &self.adjacency_rules,
                self.cell(x, y).domain(),
                #[trigger] self.cell(nx, ny).choices@[j],
                d,
            )
    }

    /// Every in-grid arc is consistent: full arc-quiescence, with every
    /// source cell's whole remaining domain as the support set.
    pub open spec fn arcs_consistent(&self) -> bool {
        forall|x: int, y: int, d: Direction| #[trigger] self.arc_consistent_from(x, y, d)
    }

    /// Every in-grid arc but those leaving the cell at flat index `ex` is
    /// consistent: the state right after that cell collapsed, before the
    /// collapse has been propagated.
    pub open spec fn arcs_consistent_except(&self, ex: int) -> bool {
        forall|x: int, y: int, d: Direction|
            y * self.gw() + x != ex ==> #[trigger] self.arc_consistent_from(x, y, d)
    }

    /// If both `(x, y)` and its neighbor one step in `d` are resolved,
    /// their tiles are compatible in that direction.
    pub open spec fn resolved_pair_ok(&self, x: int, y: int, d: Direction) -> bool {
        let nx = x + direction_offset(d).0;
        let ny = y + direction_offset(d).1;
        match (self.cell(x, y).state, self.cell(nx, ny).state) {
            (Some(a), Some(b)) => (self.in_grid(x, y) && self.in_grid(nx, ny))
                ==> self.adjacency_rules.allows(a as int, b as int, d),
            _ => true,
        }
    }

    /// Every pair of adjacent resolved cells is compatible, in both
    /// reading directions.
    pub open spec fn resolved_ok(&self) -> bool {
        forall|x: int, y: int, d: Direction| #[trigger] self.resolved_pair_ok(x, y, d)
    }

    /// No unresolved cell has run out of candidates.
    pub open spec fn domains_nonempty(&self) -> bool {
        forall|c: int|
            0 <= c < self.state@.len() && (#[trigger] self.state@[c]).state is None
                ==> self.state@[c].choices@.len() >= 1
    }

    /// The solve invariant: between steps, resolved cells constrain their
    /// unresolved neighbors, adjacent resolved cells are compatible
    /// (whenever the relation is symmetric), and no domain is empty.
    pub open spec fn consistent(&self) -> bool {
        &&& self.supports()
        &&& self.adjacency_rules.symmetric() ==> self.resolved_ok()
        &&& self.domains_nonempty()
    }

    /// A fresh engine over the given output size: every cell starts with
    /// the full tile-id universe, and the solve will be a deterministic
    /// function of `seed`.
    pub fn with_seed(
        dimensions: (usize, usize),
        adjacency_rules: AdjacencyRules,
        model: Model,
        make_gif: bool,
        seed: u64,
    ) -> (r: WaveFunction)
        requires
            model.wf(),
            adjacency_rules.wf(),
            adjacency_rules.num() == model.tiles@.len(),
            dimensions.0 * dimensions.1 <= usize::MAX,
            dimensions.0 <= i32::MAX,
            dimensions.1 <= i32::MAX,
        ensures
            r.wf_solver(),
            r.consistent(),
            r.model == model,
            r.adjacency_rules == adjacency_rules,
            r.dimensions == dimensions,
            r.rng_state == seed,
            r.make_gif == make_gif,
            r.snapshots@.len() == 0,
            r.cells_to_collapse == dimensions.0 * dimensions.1,
            forall|c: int|
                0 <= c < r.state@.len() ==> (#[trigger] r.state@[c]).state is None
                    && r.state@[c].choices@.len() == model.tiles@.len() && forall|j: int|
                    0 <= j < r.state@[c].choices@.len() ==> r.state@[c].choices@[j] == j,
    {
        let n = model.tiles.len();
        let total = dimensions.0 * dimensions.1;
        let mut state: Vec<CellState> = Vec::new();
        let mut c: usize = 0;
        while c < total
            invariant
                c <= total,
                state@.len() == c,
                count_unresolved(state@) == c,
                forall|k: int|
                    0 <= k < c ==> (#[trigger] state@[k]).state is None && state@[k].choices@.len()
                        == n && forall|j: int|
                        0 <= j < state@[k].choices@.len() ==> state@[k].choices@[j] == j,
            decreases total - c,
        {
            let mut choices: Vec<Id> = Vec::new();
            let mut i: usize = 0;
            while i < n
                invariant
                    i <= n,
                    choices@.len() == i,
                    forall|j: int| 0 <= j < i ==> choices@[j] == j,
                decreases n - i,
            {
                choices.push(i);
                i += 1;
            }
            let cell = CellState { choices, state: None };
            proof {
                lemma_count_push(state@, cell);
            }
            state.push(cell);
            c += 1;
        }
        let r = WaveFunction {
            model,
            adjacency_rules,
            state,
            dimensions,
            cells_to_collapse: total,
            rng_state: seed,
            make_gif,
            snapshot_counter: 0,
            snapshots: Vec::new(),
        };
        proof {
            assert forall|x: int, y: int, d: Direction| #[trigger]
                r.supported_from(x, y, d) by {
                if r.in_grid(x, y) {
                    crate::tile::lemma_rowmajor_bound(r.gw(), r.gh(), x, y);
                    assert(r.state@[y * r.gw() + x].state is None);
                }
            }
            assert forall|x: int, y: int, d: Direction| #[trigger]
                r.resolved_pair_ok(x, y, d) by {
                if r.in_grid(x, y) {
                    crate::tile::lemma_rowmajor_bound(r.gw(), r.gh(), x, y);
                    assert(r.state@[y * r.gw() + x].state is None);
                }
            }
        }
        r
    }

    /// A fresh engine seeded from the process entropy source; otherwise
    /// exactly `with_seed`.
    pub fn new(
        dimensions: (usize, usize),
        adjacency_rules: AdjacencyRules,
        model: Model,
        make_gif: bool,
    ) -> (r: WaveFunction)
        requires
            model.wf(),
            adjacency_rules.wf(),
            adjacency_rules.num() == model.tiles@.len(),
            dimensions.0 * dimensions.1 <= usize::MAX,
            dimensions.0 <= i32::MAX,
            dimensions.1 <= i32::MAX,
        ensures
            r.wf_solver(),
            r.consistent(),
            r.model == model,
            r.adjacency_rules == adjacency_rules,
            r.dimensions == dimensions,
            r.make_gif == make_gif,
            r.snapshots@.len() == 0,
            r.cells_to_collapse == dimensions.0 * dimensions.1,
            forall|c: int|
                0 <= c < r.state@.len() ==> (#[trigger] r.state@[c]).state is None
                    && r.state@[c].choices@.len() == model.tiles@.len() && forall|j: int|
                    0 <= j < r.state@[c].choices@.len() ==> r.state@[c].choices@[j] == j,
    {
        let seed = crate::rng::random_seed();
        WaveFunction::with_seed(dimensions, adjacency_rules, model, make_gif, seed)
    }

    /// Whether every cell has been resolved.
    fn is_collapsed(&self) -> (r: bool)
        ensures
            r == (self.cells_to_collapse == 0),
    {
        self.cells_to_collapse == 0
    }

    /// Among the unresolved cells, the coordinate of the one with the
    /// smallest candidate set; ties go to the smallest row-major index,
    /// so selection is deterministic.
    fn get_lowest_entropy_coord(&self) -> (r: Vector2)
        requires
            self.wf_solver(),
            self.cells_to_collapse > 0,
        ensures
            self.in_grid(r.x as int, r.y as int),
            self.cell(r.x as int, r.y as int).state is None,
            forall|c2: int|
                0 <= c2 < self.state@.len() && (#[trigger] self.state@[c2]).state is None
                    ==> self.state@[c2].choices@.len() >= self.cell(
                    r.x as int,
                    r.y as int,
                ).choices@.len(),
            forall|c2: int|
                0 <= c2 < self.state@.len() && (#[trigger] self.state@[c2]).state is None && c2
                    < r.y * self.gw() + r.x ==> self.state@[c2].choices@.len() > self.cell(
                    r.x as int,
                    r.y as int,
                ).choices@.len(),
    {
        let w = self.dimensions.0;
        let h = self.dimensions.1;
        let total = self.state.len();
        let mut best_x: usize = 0;
        let mut best_y: usize = 0;
        let mut best_len: usize = 0;
        let mut found = false;
        let mut cx: usize = 0;
        let mut cy: usize = 0;
        let mut c: usize = 0;
        proof {
            lemma_count_pos(self.state@);
            assert(total > 0);
            assert(w * h > 0);
            assert(w >= 1 && h >= 1) by (nonlinear_arith)
                requires
                    w * h > 0,
                    w >= 0,
                    h >= 0,
            ;
        }
        while c < total
            invariant
                self.wf_solver(),
                w == self.gw(),
                h == self.gh(),
                total == self.state@.len(),
                w >= 1,
                h >= 1,
                c <= total,
                cx < w,
                cy <= h,
                c == cy * w + cx,
                found ==> best_x < w && best_y < h && best_y * w + best_x < c && self.state@[best_y
                    * w + best_x].state is None && best_len == self.state@[best_y * w
                    + best_x].choices@.len(),
                !found ==> forall|c2: int|
                    0 <= c2 < c ==> !((#[trigger] self.state@[c2]).state is None),
                found ==> forall|c2: int|
                    0 <= c2 < c && (#[trigger] self.state@[c2]).state is None
                        ==> self.state@[c2].choices@.len() >= best_len,
                found ==> forall|c2: int|
                    0 <= c2 < c && (#[trigger] self.state@[c2]).state is None && c2 < best_y * w
                        + best_x ==> self.state@[c2].choices@.len() > best_len,
            decreases total - c,
        {
            if !self.state[c].is_collapsed() {
                proof {
                    assert(cy < h) by (nonlinear_arith)
                        requires
                            (cy as int) * (w as int) + (cx as int) < (w as int) * (h as int),
                            0 <= cx < w,
                            1 <= w,
                            0 <= cy,
                            0 <= h,
                    ;
                }
                let l = self.state[c].choices.len();
                if !found || l < best_len {
                    found = true;
                    best_x = cx;
                    best_y = cy;
                    best_len = l;
                }
            }
            c += 1;
            cx += 1;
            if cx == w {
                cx = 0;
                cy += 1;
                proof {
                    assert((cy as int) * (w as int) == (cy as int - 1) * (w as int) + w)
                        by (nonlinear_arith);
                    assert(cy <= h) by (nonlinear_arith)
                        requires
                            cy * w <= w * h,
                            w >= 1,
                            cy >= 0,
                            h >= 0,
                    ;
                }
            }
        }
        proof {
            if !found {
                lemma_count_pos(self.state@);
                let i = choose|i: int|
                    0 <= i < self.state@.len() && (#[trigger] self.state@[i]).state is None;
                assert(false);
            }
        }
        Vector2 { x: best_x as i32, y: best_y as i32 }
    }

    /// Draw one candidate from `choices`, each weighted by its tile's
    /// occurrence count. The result is a pure function of the candidate
    /// list, the frequency hints and the generator state; a zero total
    /// weight is the frequency-hint mismatch the sampling error reports.
    fn get_random_choice(&mut self, choices: &Vec<Id>) -> (r: Result<Id, WfcError>)
        requires
            old(self).wf_solver(),
            forall|j: int|
                0 <= j < choices@.len() ==> (#[trigger] choices@[j]) < old(self).n(),
        ensures
            final(self).model == old(self).model,
            final(self).adjacency_rules == old(self).adjacency_rules,
            final(self).state == old(self).state,
            final(self).dimensions == old(self).dimensions,
            final(self).cells_to_collapse == old(self).cells_to_collapse,
            final(self).make_gif == old(self).make_gif,
            final(self).snapshot_counter == old(self).snapshot_counter,
            final(self).snapshots == old(self).snapshots,
            crate::model::sum_u64(weight_seq(old(self).model.frequency_hints@, choices@)) == 0
                ==> r == Err::<Id, WfcError>(WfcError::Sampling) && final(self).rng_state == old(self).rng_state,
            crate::model::sum_u64(weight_seq(old(self).model.frequency_hints@, choices@)) > 0 ==> {
                let ws = weight_seq(old(self).model.frequency_hints@, choices@);
                let t = crate::rng::spec_output(old(self).rng_state) as int % crate::model::sum_u64(
                    ws,
                );
                &&& final(self).rng_state == crate::rng::spec_next_state(old(self).rng_state)
                &&& 0 <= spec_pick(ws, t) < choices@.len()
                &&& r == Ok::<Id, WfcError>(choices@[spec_pick(ws, t)])
            },
    {
        let ghost ws = weight_seq(self.model.frequency_hints@, choices@);
        let mut total: u128 = 0;
        let mut j: usize = 0;
        while j < choices.len()
            invariant
                j <= choices@.len(),
                self == old(self),
                ws == weight_seq(self.model.frequency_hints@, choices@),
                self.wf_solver(),
                forall|k: int| 0 <= k < choices@.len() ==> (#[trigger] choices@[k]) < self.n(),
                total == crate::model::sum_u64(ws.subrange(0, j as int)),
                total <= (j as int) * (u64::MAX as int),
            decreases choices@.len() - j,
        {
            let id = choices[j];
            let wv = self.model.frequency_hints[id];
            proof {
                assert(ws.subrange(0, j as int + 1).drop_last() =~= ws.subrange(0, j as int));
                assert(ws.subrange(0, j as int + 1).last() == ws[j as int]);
                assert(ws[j as int] == wv);
                assert((j as int) * (u64::MAX as int) + (u64::MAX as int) == (j as int + 1) * (
                u64::MAX as int)) by (nonlinear_arith);
                assert((j as int + 1) * (u64::MAX as int) <= (usize::MAX as int) * (
                u64::MAX as int)) by (nonlinear_arith)
                    requires
                        0 <= j as int + 1 <= usize::MAX as int,
                ;
            }
            total = total + (wv as u128);
            j += 1;
        }
        proof {
            assert(ws.subrange(0, choices@.len() as int) =~= ws);
        }
        if total == 0 {
            return Err(WfcError::Sampling);
        }
        let draw = crate::rng::rng_next(&mut self.rng_state);
        let mut t: u128 = (draw as u128) % total;
        let ghost t0 = t as int;
        let mut k: usize = 0;
        proof {
            lemma_pick_in_range(ws, t0);
        }
        while k < choices.len()
            invariant
                k <= choices@.len(),
                self.model == old(self).model,
                self.adjacency_rules == old(self).adjacency_rules,
                self.state == old(self).state,
                self.dimensions == old(self).dimensions,
                self.cells_to_collapse == old(self).cells_to_collapse,
                self.make_gif == old(self).make_gif,
                self.snapshot_counter == old(self).snapshot_counter,
                self.snapshots == old(self).snapshots,
                self.rng_state == crate::rng::spec_next_state(old(self).rng_state),
                ws == weight_seq(self.model.frequency_hints@, choices@),
                self.wf_solver(),
                forall|kk: int| 0 <= kk < choices@.len() ==> (#[trigger] choices@[kk]) < self.n(),
                0 <= t0 < crate::model::sum_u64(ws),
                t0 == crate::rng::spec_output(old(self).rng_state) as int % crate::model::sum_u64(
                    ws,
                ),
                t == t0 - crate::model::sum_u64(ws.subrange(0, k as int)),
                t >= 0,
                spec_pick(ws, t0) == k + spec_pick(ws.subrange(k as int, ws.len() as int), t as int),
                0 <= spec_pick(ws, t0) < ws.len(),
            decreases choices@.len() - k,
        {
            let id = choices[k];
            let wv = self.model.frequency_hints[id];
            proof {
                assert(ws.subrange(k as int, ws.len() as int)[0] == ws[k as int]);
                assert(ws[k as int] == wv);
            }
            if t < wv as u128 {
                proof {
                    assert(spec_pick(ws.subrange(k as int, ws.len() as int), t as int) == 0);
                    assert(spec_pick(ws, t0) == k);
                }
                return Ok(id);
            }
            proof {
                assert(ws.subrange(k as int, ws.len() as int).drop_first() =~= ws.subrange(
                    k as int + 1,
                    ws.len() as int,
                ));
                assert(ws.subrange(0, k as int + 1).drop_last() =~= ws.subrange(0, k as int));
                assert(ws.subrange(0, k as int + 1).last() == ws[k as int]);
            }
            t = t - (wv as u128);
            k += 1;
        }
        proof {
            assert(ws.subrange(0, ws.len() as int) =~= ws);
            assert(spec_pick(ws, t0) >= ws.len());
            assert(false);
        }
        Err(WfcError::Sampling)
    }

    /// Whether this collapse should be kept as an animation snapshot:
    /// only every tenth one is, to keep animations small. Advances the
    /// per-instance collapse counter.
    fn should_take_snapshot(&mut self) -> (r: bool)
        ensures
            final(self).model == old(self).model,
            final(self).adjacency_rules == old(self).adjacency_rules,
            final(self).state == old(self).state,
            final(self).dimensions == old(self).dimensions,
            final(self).cells_to_collapse == old(self).cells_to_collapse,
            final(self).make_gif == old(self).make_gif,
            final(self).rng_state == old(self).rng_state,
            final(self).snapshots == old(self).snapshots,
            r == (old(self).make_gif && old(self).snapshot_counter % 10 == 0),
    {
        let r = self.make_gif && self.snapshot_counter % 10 == 0;
        self.snapshot_counter = self.snapshot_counter.wrapping_add(1);
        r
    }

    /// Render the current grid: each resolved cell shows the top-left
    /// sample of its tile; a still-open cell shows a blend of its
    /// candidates.
    pub fn state_to_image(&self) -> (img: Image)
        requires
            self.wf_solver(),
            self.domains_nonempty(),
        ensures
            img.width == self.gw(),
            img.height == self.gh(),
            img.wf(),
            forall|x: int, y: int|
                self.in_grid(x, y) && (#[trigger] self.cell(x, y)).state is Some
                    ==> img.spec_at(x, y) == self.model.tiles@[self.cell(
                    x,
                    y,
                ).state.unwrap() as int].spec_at(0, 0),
            forall|x: int, y: int, c: int|
                self.in_grid(x, y) && 0 <= c < 3 ==> (#[trigger] img.spec_at(x, y)@[c])
                    == spec_blend_fold(self.model.tiles@, self.cell(x, y).domain(), c),
    {
        let w = self.dimensions.0;
        let h = self.dimensions.1;
        proof {
            assert(self.state.len() == self.state@.len());
        }
        let mut img = Image::new(w as u32, h as u32);
        let mut y: usize = 0;
        while y < h
            invariant
                y <= h,
                w == self.gw(),
                h == self.gh(),
                self.wf_solver(),
                self.domains_nonempty(),
                img.width == w,
                img.height == h,
                img.wf(),
                forall|xx: int, yy: int|
                    0 <= xx < w && 0 <= yy < y && (#[trigger] self.cell(xx, yy)).state is Some
                        ==> img.spec_at(xx, yy) == self.model.tiles@[self.cell(
                        xx,
                        yy,
                    ).state.unwrap() as int].spec_at(0, 0),
                forall|xx: int, yy: int, c: int|
                    0 <= xx < w && 0 <= yy < y && 0 <= c < 3 ==> (#[trigger] img.spec_at(
                        xx,
                        yy,
                    )@[c]) == spec_blend_fold(self.model.tiles@, self.cell(xx, yy).domain(), c),
            decreases h - y,
        {
            let mut x: usize = 0;
            while x < w
                invariant
                    x <= w,
                    y < h,
                    w == self.gw(),
                    h == self.gh(),
                    self.wf_solver(),
                    self.domains_nonempty(),
                    img.width == w,
                    img.height == h,
                    img.wf(),
                    forall|xx: int, yy: int|
                        0 <= xx < w && 0 <= yy < y && (#[trigger] self.cell(xx, yy)).state is Some
                            ==> img.spec_at(xx, yy) == self.model.tiles@[self.cell(
                            xx,
                            yy,
                        ).state.unwrap() as int].spec_at(0, 0),
                    forall|xx: int|
                        0 <= xx < x && (#[trigger] self.cell(xx, y as int)).state is Some
                            ==> img.spec_at(xx, y as int) == self.model.tiles@[self.cell(
                            xx,
                            y as int,
                        ).state.unwrap() as int].spec_at(0, 0),
                    forall|xx: int, yy: int, c: int|
                        0 <= xx < w && 0 <= yy < y && 0 <= c < 3 ==> (#[trigger] img.spec_at(
                            xx,
                            yy,
                        )@[c]) == spec_blend_fold(self.model.tiles@, self.cell(xx, yy).domain(), c),
                    forall|xx: int, c: int|
                        0 <= xx < x && 0 <= c < 3 ==> (#[trigger] img.spec_at(xx, y as int)@[c])
                            == spec_blend_fold(
                            self.model.tiles@,
                            self.cell(xx, y as int).domain(),
                            c,
                        ),
                decreases w - x,
            {
                proof {
                    crate::tile::lemma_rowmajor_bound(w as int, h as int, x as int, y as int);
                    assert(self.state.len() == self.state@.len());
                    assert(w * h <= usize::MAX);
                }
                let ci = y * w + x;
                let cell_choices = self.state[ci].get_choices();
                let mut color = self.model.tiles[cell_choices[0]].at(0, 0);
                proof {
                    assert(cell_choices@.subrange(0, 1)[0] == cell_choices@[0]);
                    assert(forall|c: int|
                        0 <= c < 3 ==> #[trigger] color@[c] == spec_blend_fold(
                            self.model.tiles@,
                            cell_choices@.subrange(0, 1),
                            c,
                        ));
                }
                let mut k: usize = 1;
                while k < cell_choices.len()
                    invariant
                        1 <= k <= cell_choices@.len(),
                        self.wf_solver(),
                        forall|kk: int|
                            0 <= kk < cell_choices@.len() ==> (#[trigger] cell_choices@[kk])
                                < self.n(),
                        cell_choices@.len() == 1 ==> color == self.model.tiles@[cell_choices@[0] as int].spec_at(
                            0,
                            0,
                        ),
                        forall|c: int|
                            0 <= c < 3 ==> #[trigger] color@[c] == spec_blend_fold(
                                self.model.tiles@,
                                cell_choices@.subrange(0, k as int),
                                c,
                            ),
                    decreases cell_choices@.len() - k,
                {
                    let other = self.model.tiles[cell_choices[k]].at(0, 0);
                    let ghost pre_color = color;
                    color = crate::color::Color::blend(&color, &other);
                    proof {
                        assert(cell_choices@.subrange(0, k as int + 1).drop_last() =~= cell_choices@.subrange(
                            0,
                            k as int,
                        ));
                        assert(cell_choices@.subrange(0, k as int + 1).drop_last() == cell_choices@.subrange(
                            0,
                            k as int,
                        ));
                        assert(cell_choices@.subrange(0, k as int + 1).last() == cell_choices@[k as int]);
                        assert(forall|c: int|
                            0 <= c < 3 ==> #[trigger] color@[c] == crate::color::blend_channel(
                                pre_color@[c],
                                other@[c],
                            ));
                    }
                    k += 1;
                }
                proof {
                    assert(cell_choices@.subrange(0, cell_choices@.len() as int) =~= cell_choices@);
                    assert(cell_choices@.subrange(0, cell_choices@.len() as int) == cell_choices@);
                }
                let ghost pre = img;
                img.set_color(Vector2 { x: x as i32, y: y as i32 }, color);
                proof {
                    assert forall|xx: int, yy: int|
                        0 <= xx < w && 0 <= yy < y && (#[trigger] self.cell(xx, yy)).state
                            is Some implies img.spec_at(xx, yy) == self.model.tiles@[self.cell(
                        xx,
                        yy,
                    ).state.unwrap() as int].spec_at(0, 0) by {
                        crate::tile::lemma_rowmajor_bound(w as int, h as int, xx, yy);
                        if yy * w + xx == y * w + x {
                            crate::tile::lemma_rowmajor_inj(w as int, xx, yy, x as int, y as int);
                        }
                        assert(img.spec_at(xx, yy) == pre.spec_at(xx, yy));
                    }
                    assert forall|xx: int|
                        0 <= xx < x && (#[trigger] self.cell(xx, y as int)).state
                            is Some implies img.spec_at(xx, y as int)
                        == self.model.tiles@[self.cell(xx, y as int).state.unwrap() as int].spec_at(
                        0,
                        0,
                    ) by {
                        crate::tile::lemma_rowmajor_bound(w as int, h as int, xx, y as int);
                        if xx + (y as int) * w == (y as int) * w + x {
                            crate::tile::lemma_rowmajor_inj(w as int, xx, y as int, x as int, y as int);
                        }
                        assert(img.spec_at(xx, y as int) == pre.spec_at(xx, y as int));
                    }
                    if self.cell(x as int, y as int).state is Some {
                        let id = self.cell(x as int, y as int).state.unwrap();
                        assert(cell_choices@ =~= seq![id]);
                        assert(img.spec_at(x as int, y as int) == self.model.tiles@[id as int].spec_at(
                            0,
                            0,
                        ));
                    }
                    assert forall|xx: int, yy: int, c: int|
                        0 <= xx < w && 0 <= yy < y && 0 <= c < 3 implies (#[trigger] img.spec_at(
                        xx,
                        yy,
                    )@[c]) == spec_blend_fold(self.model.tiles@, self.cell(xx, yy).domain(), c) by {
                        crate::tile::lemma_rowmajor_bound(w as int, h as int, xx, yy);
                        if yy * w + xx == y * w + x {
                            crate::tile::lemma_rowmajor_inj(w as int, xx, yy, x as int, y as int);
                        }
                        assert(img.spec_at(xx, yy) == pre.spec_at(xx, yy));
                    }
                    assert forall|xx: int, c: int|
                        0 <= xx < x + 1 && 0 <= c < 3 implies (#[trigger] img.spec_at(
                        xx,
                        y as int,
                    )@[c]) == spec_blend_fold(
                        self.model.tiles@,
                        self.cell(xx, y as int).domain(),
                        c,
                    ) by {
                        crate::tile::lemma_rowmajor_bound(w as int, h as int, xx, y as int);
                        if xx < x {
                            if xx + (y as int) * w == (y as int) * w + x {
                                crate::tile::lemma_rowmajor_inj(
                                    w as int,
                                    xx,
                                    y as int,
                                    x as int,
                                    y as int,
                                );
                            }
                            assert(img.spec_at(xx, y as int) == pre.spec_at(xx, y as int));
                        } else {
                            assert(img.spec_at(x as int, y as int) == color);
                            assert(cell_choices@ == self.cell(x as int, y as int).domain());
                        }
                    }
                }
                x += 1;
            }
            y += 1;
        }
        img
    }

    /// Resolve the cell at `to_collapse` to one candidate drawn from its
    /// domain, weighted by the frequency hints. Exactly that cell changes;
    /// every other resolved cell still constrains its unresolved
    /// neighbors, and under a symmetric relation the new tile is
    /// compatible with every resolved neighbor.
    fn collapse(&mut self, to_collapse: Vector2) -> (r: Result<(), WfcError>)
        requires
            old(self).wf_solver(),
            old(self).domains_nonempty(),
            old(self).in_grid(to_collapse.x as int, to_collapse.y as int),
            old(self).cell(to_collapse.x as int, to_collapse.y as int).state is None,
            old(self).supports(),
            old(self).adjacency_rules.symmetric() ==> old(self).resolved_ok(),
        ensures
            final(self).wf_solver(),
            final(self).model == old(self).model,
            final(self).adjacency_rules == old(self).adjacency_rules,
            final(self).dimensions == old(self).dimensions,
            final(self).make_gif == old(self).make_gif,
            r matches Ok(_) ==> {
                let ci = to_collapse.y * old(self).gw() + to_collapse.x;
                let chosen = spec_weighted_choice(
                    old(self).model.frequency_hints@,
                    old(self).cell(to_collapse.x as int, to_collapse.y as int).choices@,
                    old(self).rng_state,
                );
                &&& final(self).state@[ci].state == Some(chosen)
                &&& old(self).cell(to_collapse.x as int, to_collapse.y as int).choices@.contains(
                    chosen,
                )
                &&& final(self).state@[ci].choices@.len() == 0
                &&& final(self).state@.len() == old(self).state@.len()
                &&& forall|c: int|
                    0 <= c < old(self).state@.len() && c != ci ==> final(self).state@[c] == old(self).state@[c]
                &&& final(self).cells_to_collapse == old(self).cells_to_collapse - 1
                &&& final(self).rng_state == crate::rng::spec_next_state(old(self).rng_state)
                &&& final(self).supports_except(ci)
                &&& (old(self).arcs_consistent() ==> final(self).arcs_consistent_except(ci))
                &&& (final(self).adjacency_rules.symmetric() ==> final(self).resolved_ok())
                &&& final(self).domains_nonempty()
            },
            r matches Err(e) ==> e == WfcError::Sampling && final(self).state == old(self).state
                && final(self).cells_to_collapse == old(self).cells_to_collapse,
            old(self).cell(to_collapse.x as int, to_collapse.y as int).choices@.len() >= 1
                ==> r matches Ok(_),
    {
        let x = to_collapse.x as usize;
        let y = to_collapse.y as usize;
        proof {
            crate::tile::lemma_rowmajor_bound(self.gw(), self.gh(), x as int, y as int);
            assert(self.state.len() == self.state@.len());
            assert(self.gw() * self.gh() <= usize::MAX);
        }
        let ci = y * self.dimensions.0 + x;
        let choices = self.state[ci].get_choices();
        let ghost ws = weight_seq(self.model.frequency_hints@, choices@);
        match self.get_random_choice(&choices) {
            Err(e) => {
                proof {
                    crate::model::lemma_sum_nonneg(ws);
                    if old(self).cell(to_collapse.x as int, to_collapse.y as int).choices@.len()
                        >= 1 {
                        crate::model::lemma_sum_element_le(ws, 0);
                    }
                }
                Err(e)
            }
            Ok(choice) => {
                proof {
                    crate::model::lemma_sum_nonneg(ws);
                    assert(crate::model::sum_u64(ws) > 0);
                }
                if self.should_take_snapshot() {
                    self.take_snapshot();
                }
                proof {
                    lemma_count_lower(self.state@, ci as int);
                }
                self.cells_to_collapse = self.cells_to_collapse - 1;
                let new_cell = CellState { choices: Vec::new(), state: Some(choice) };
                let ghost pre = *self;
                self.state.set(ci, new_cell);
                proof {
                    lemma_count_update(pre.state@, ci as int, new_cell);
                    let g = *self;
                    let oldci = old(self).cell(to_collapse.x as int, to_collapse.y as int);
                    assert(oldci.choices@.contains(choice) && choice == spec_weighted_choice(
                        old(self).model.frequency_hints@,
                        oldci.choices@,
                        old(self).rng_state,
                    )) by {
                        let ws2 = weight_seq(old(self).model.frequency_hints@, oldci.choices@);
                        let t = crate::rng::spec_output(old(self).rng_state) as int
                            % crate::model::sum_u64(ws2);
                        assert(choices@ == oldci.choices@);
                        assert(ws2 == ws);
                        crate::model::lemma_sum_nonneg(ws);
                        assert(crate::model::sum_u64(ws) > 0);
                        assert(choice == oldci.choices@[spec_pick(ws2, t)]);
                    }
                    assert forall|x2: int, y2: int, d: Direction|
                        y2 * g.gw() + x2 != ci implies #[trigger] g.supported_from(x2, y2, d) by {
                        let nx = x2 + direction_offset(d).0;
                        let ny = y2 + direction_offset(d).1;
                        if g.in_grid(x2, y2) && g.in_grid(nx, ny) {
                            crate::tile::lemma_rowmajor_bound(g.gw(), g.gh(), x2, y2);
                            crate::tile::lemma_rowmajor_bound(g.gw(), g.gh(), nx, ny);
                            assert(old(self).supported_from(x2, y2, d));
                            assert(g.cell(x2, y2) == old(self).cell(x2, y2));
                            if ny * g.gw() + nx != ci {
                                assert(g.cell(nx, ny) == old(self).cell(nx, ny));
                            }
                        }
                    }
                    if old(self).arcs_consistent() {
                        assert forall|x2: int, y2: int, d: Direction|
                            y2 * g.gw() + x2 != ci implies #[trigger] g.arc_consistent_from(
                            x2,
                            y2,
                            d,
                        ) by {
                            let nx = x2 + direction_offset(d).0;
                            let ny = y2 + direction_offset(d).1;
                            if g.in_grid(x2, y2) && g.in_grid(nx, ny) {
                                crate::tile::lemma_rowmajor_bound(g.gw(), g.gh(), x2, y2);
                                crate::tile::lemma_rowmajor_bound(g.gw(), g.gh(), nx, ny);
                                assert(old(self).arc_consistent_from(x2, y2, d));
                                assert(g.cell(x2, y2) == old(self).cell(x2, y2));
                                if ny * g.gw() + nx != ci {
                                    assert(g.cell(nx, ny) == old(self).cell(nx, ny));
                                }
                            }
                        }
                    }
                    if g.adjacency_rules.symmetric() {
                        assert forall|x2: int, y2: int, d: Direction| #[trigger]
                            g.resolved_pair_ok(x2, y2, d) by {
                            let nx = x2 + direction_offset(d).0;
                            let ny = y2 + direction_offset(d).1;
                            if g.in_grid(x2, y2) && g.in_grid(nx, ny) {
                                crate::tile::lemma_rowmajor_bound(g.gw(), g.gh(), x2, y2);
                                crate::tile::lemma_rowmajor_bound(g.gw(), g.gh(), nx, ny);
                                let si = y2 * g.gw() + x2;
                                let ni = ny * g.gw() + nx;
                                if si == ni {
                                    crate::tile::lemma_rowmajor_inj(g.gw(), x2, y2, nx, ny);
                                    assert(direction_offset(d).0 != 0 || direction_offset(d).1
                                        != 0) by {
                                        match d {
                                            Direction::UP => {},
                                            Direction::DOWN => {},
                                            Direction::LEFT => {},
                                            Direction::RIGHT => {},
                                        }
                                    }
                                    assert(false);
                                }
                                if si == ci {
                                    match old(self).cell(nx, ny).state {
                                        Some(b) => {
                                            assert(x2 == nx + direction_offset(d.spec_flip()).0
                                                && y2 == ny + direction_offset(
                                                d.spec_flip(),
                                            ).1) by {
                                                match d {
                                                    Direction::UP => {},
                                                    Direction::DOWN => {},
                                                    Direction::LEFT => {},
                                                    Direction::RIGHT => {},
                                                }
                                            }
                                            assert(old(self).supported_from(
                                                nx,
                                                ny,
                                                d.spec_flip(),
                                            ));
                                            let oldci = old(self).cell(x2, y2);
                                            let j = choose|j: int|
                                                0 <= j < oldci.choices@.len() && oldci.choices@[j]
                                                    == choice;
                                            assert(g.adjacency_rules.allows(
                                                b as int,
                                                oldci.choices@[j] as int,
                                                d.spec_flip(),
                                            ));
                                            assert(g.adjacency_rules.allows(
                                                choice as int,
                                                b as int,
                                                d,
                                            ));
                                        }
                                        None => {}
                                    }
                                } else if ni == ci {
                                    match old(self).cell(x2, y2).state {
                                        Some(a) => {
                                            assert(old(self).supported_from(x2, y2, d));
                                            let oldci = old(self).cell(nx, ny);
                                            let j = choose|j: int|
                                                0 <= j < oldci.choices@.len() && oldci.choices@[j]
                                                    == choice;
                                            assert(g.adjacency_rules.allows(
                                                a as int,
                                                oldci.choices@[j] as int,
                                                d,
                                            ));
                                        }
                                        None => {}
                                    }
                                } else {
                                    assert(old(self).resolved_pair_ok(x2, y2, d));
                                    assert(g.cell(x2, y2) == old(self).cell(x2, y2));
                                    assert(g.cell(nx, ny) == old(self).cell(nx, ny));
                                }
                            }
                        }
                    }
                }
                Ok(())
            }
        }
    }

    /// The top-level solve loop: as long as a cell is unresolved, select
    /// the one with the smallest domain, collapse it, and propagate.
    fn iterate(&mut self) -> (r: Result<(), WfcError>)
        requires
            old(self).wf_solver(),
            old(self).consistent(),
        ensures
            final(self).wf_solver(),
            final(self).model == old(self).model,
            final(self).adjacency_rules == old(self).adjacency_rules,
            final(self).dimensions == old(self).dimensions,
            r matches Ok(_) ==> final(self).cells_to_collapse == 0 && (final(self).adjacency_rules.symmetric() ==> final(self).resolved_ok()),
            r matches Err(e) ==> e == WfcError::Contradiction,
            r matches Err(_) ==> !final(self).domains_nonempty(),
            (old(self).arcs_consistent() && r matches Ok(_)) ==> final(self).arcs_consistent(),
            old(self).adjacency_rules.complete() ==> r matches Ok(_),
    {
        while !self.is_collapsed()
            invariant
                self.wf_solver(),
                self.supports(),
                self.adjacency_rules.symmetric() ==> self.resolved_ok(),
                self.domains_nonempty(),
                self.model == old(self).model,
                self.adjacency_rules == old(self).adjacency_rules,
                self.dimensions == old(self).dimensions,
                old(self).arcs_consistent() ==> self.arcs_consistent(),
            decreases self.cells_to_collapse,
        {
            let to_collapse = self.get_lowest_entropy_coord();
            let ghost pre = *self;
            match self.collapse(to_collapse) {
                Ok(_) => {}
                Err(e) => {
                    proof {
                        crate::tile::lemma_rowmajor_bound(
                            pre.gw(),
                            pre.gh(),
                            to_collapse.x as int,
                            to_collapse.y as int,
                        );
                        assert(pre.state@[to_collapse.y * pre.gw()
                            + to_collapse.x].choices@.len() >= 1);
                        assert(false);
                    }
                    return Err(e);
                }
            }
            match self.propagate(to_collapse) {
                Ok(_) => {}
                Err(e) => {
                    return Err(e);
                }
            }
        }
        Ok(())
    }

    /// Run the solve to completion. On success the result maps every
    /// output coordinate (row-major) to a resolved tile identifier, and
    /// whenever the adjacency relation is symmetric (both built-in
    /// constructions make it so) every pair of grid-adjacent tiles in
    /// the result is compatible in its direction. A zero output dimension
    /// is refused up front; a contradiction or an all-zero weight aborts
    /// the solve with no valid result.
    pub fn run(&mut self) -> (r: Result<Vec<Id>, WfcError>)
        requires
            old(self).wf_solver(),
            old(self).consistent(),
        ensures
            final(self).wf_solver(),
            final(self).model == old(self).model,
            final(self).adjacency_rules == old(self).adjacency_rules,
            final(self).dimensions == old(self).dimensions,
            (r matches Err(e) && e == WfcError::Configuration) <==> (old(self).gw() == 0 || old(self).gh() == 0),
            r matches Err(e) ==> e == WfcError::Configuration || e == WfcError::Contradiction,
            (r matches Err(e) && e == WfcError::Contradiction) ==> !final(self).domains_nonempty(),
            (old(self).arcs_consistent() && r matches Ok(_)) ==> final(self).arcs_consistent(),
            (old(self).gw() >= 1 && old(self).gh() >= 1 && old(self).adjacency_rules.complete())
                ==> r matches Ok(_),
            r matches Ok(_) ==> (final(self).adjacency_rules.symmetric() ==> final(self).resolved_ok()),
            r matches Ok(out) ==> {
                &&& out@.len() == old(self).gw() * old(self).gh()
                &&& forall|ci: int| 0 <= ci < out@.len() ==> (#[trigger] out@[ci]) < old(self).n()
                &&& final(self).cells_to_collapse == 0
                &&& forall|ci: int|
                    0 <= ci < out@.len() ==> (#[trigger] final(self).state@[ci]).state == Some(
                        out@[ci],
                    )
                &&& old(self).adjacency_rules.symmetric() ==> spec_assignment_ok(
                    out@,
                    &old(self).adjacency_rules,
                    old(self).gw(),
                    old(self).gh(),
                )
            },
    {
        if self.dimensions.0 == 0 || self.dimensions.1 == 0 {
            return Err(WfcError::Configuration);
        }
        match self.iterate() {
            Err(e) => {
                return Err(e);
            }
            Ok(_) => {}
        }
        proof {
            lemma_count_zero(self.state@);
        }
        let w = self.dimensions.0;
        let h = self.dimensions.1;
        let total = self.state.len();
        let mut out: Vec<Id> = Vec::new();
        let mut ci: usize = 0;
        while ci < total
            invariant
                ci <= total,
                self.wf_solver(),
                self.adjacency_rules.symmetric() ==> self.resolved_ok(),
                self.model == old(self).model,
                self.adjacency_rules == old(self).adjacency_rules,
                self.dimensions == old(self).dimensions,
                self.cells_to_collapse == 0,
                w == self.gw(),
                h == self.gh(),
                total == self.state@.len(),
                forall|k: int| 0 <= k < total ==> !((#[trigger] self.state@[k]).state is None),
                out@.len() == ci,
                forall|k: int|
                    0 <= k < ci ==> (#[trigger] self.state@[k]).state == Some(out@[k]),
                forall|k: int| 0 <= k < ci ==> (#[trigger] out@[k]) < self.n(),
            decreases total - ci,
        {
            match self.state[ci].state {
                Some(id) => {
                    out.push(id);
                }
                None => {
                    proof {
                        assert(false);
                    }
                    out.push(0);
                }
            }
            ci += 1;
        }
        proof {
            if self.adjacency_rules.symmetric() {
                assert forall|x: int, y: int, d: Direction|
                    0 <= x < w && 0 <= y < h && 0 <= x + direction_offset(d).0 < w && 0 <= y
                        + direction_offset(d).1 < h implies #[trigger] self.adjacency_rules.allows(
                    out@[y * (w as int) + x] as int,
                    out@[(y + direction_offset(d).1) * (w as int) + (x + direction_offset(
                        d,
                    ).0)] as int,
                    d,
                ) by {
                    let nx = x + direction_offset(d).0;
                    let ny = y + direction_offset(d).1;
                    crate::tile::lemma_rowmajor_bound(w as int, h as int, x, y);
                    crate::tile::lemma_rowmajor_bound(w as int, h as int, nx, ny);
                    assert(self.resolved_pair_ok(x, y, d));
                    assert(self.state@[y * (w as int) + x].state == Some(out@[y * (w as int) + x]));
                    assert(self.state@[ny * (w as int) + nx].state == Some(
                        out@[ny * (w as int) + nx],
                    ));
                }
            }
        }
        Ok(out)
    }

    /// Everything propagation leaves alone: all fields but the grid, and
    /// of the grid each cell's resolved state; candidate sets may only
    /// have shrunk.
    pub open spec fn propagation_frame(&self, o: &WaveFunction) -> bool {
        &&& self.model == o.model
        &&& self.adjacency_rules == o.adjacency_rules
        &&& self.dimensions == o.dimensions
        &&& self.make_gif == o.make_gif
        &&& self.cells_to_collapse == o.cells_to_collapse
        &&& self.rng_state == o.rng_state
        &&& self.snapshot_counter == o.snapshot_counter
        &&& self.snapshots == o.snapshots
        &&& self.state@.len() == o.state@.len()
        &&& forall|c: int|
            0 <= c < o.state@.len() ==> (#[trigger] self.state@[c]).state == o.state@[c].state
        &&& forall|c: int, v: Id|
            0 <= c < o.state@.len() && #[trigger] self.state@[c].choices@.contains(v)
                ==> o.state@[c].choices@.contains(v)
    }

    /// The worklist-based arc-consistency loop. Starting from the just
    /// collapsed coordinate, repeatedly pop a pending coordinate and
    /// remove from each of its unresolved neighbors every candidate that
    /// nothing in the popped cell's domain supports, queueing the
    /// neighbor when its domain changed. A neighbor reduced to a single
    /// candidate is not resolved eagerly; it waits for a later selection
    /// step. Candidate sets only ever shrink and the worklist holds no
    /// coordinate twice, so the loop terminates. Started from a grid whose
    /// arcs were all consistent except those leaving the collapsed cell, a
    /// successful pass restores the consistency of every arc, with each
    /// source cell's whole remaining domain as the support set. Returns
    /// how many coordinates were examined; an error means a cell's domain
    /// was actually emptied.
    #[verifier::rlimit(100)]
    fn propagate(&mut self, collapsed: Vector2) -> (r: Result<usize, WfcError>)
        requires
            old(self).wf_solver(),
            old(self).domains_nonempty(),
            old(self).in_grid(collapsed.x as int, collapsed.y as int),
            old(self).supports_except(collapsed.y * old(self).gw() + collapsed.x),
            old(self).adjacency_rules.symmetric() ==> old(self).resolved_ok(),
        ensures
            final(self).wf_solver(),
            final(self).propagation_frame(old(self)),
            final(self).adjacency_rules.symmetric() ==> final(self).resolved_ok(),
            r matches Ok(_) ==> final(self).supports() && final(self).domains_nonempty(),
            r matches Err(e) ==> e == WfcError::Contradiction,
            r matches Err(_) ==> !final(self).domains_nonempty(),
            old(self).arcs_consistent_except(collapsed.y * old(self).gw() + collapsed.x) ==> (r
                matches Ok(_) ==> final(self).arcs_consistent()),
            old(self).adjacency_rules.complete() ==> r matches Ok(_),
    {
        let w = self.dimensions.0;
        let h = self.dimensions.1;
        let ghost hq = old(self).arcs_consistent_except(
            collapsed.y * old(self).gw() + collapsed.x,
        );
        let mut iterations: usize = 0;
        proof {
            crate::tile::lemma_rowmajor_bound(
                self.gw(),
                self.gh(),
                collapsed.x as int,
                collapsed.y as int,
            );
            assert(self.state.len() == self.state@.len());
            assert(self.gw() * self.gh() <= usize::MAX);
        }
        let cstart = (collapsed.y as usize) * w + (collapsed.x as usize);
        let mut stack = UniqueStack::new();
        stack.push(cstart);
        proof {
            assert(stack@ =~= seq![cstart]);
            assert forall|x: int, y: int, d: Direction|
                0 <= x < w && 0 <= y < h && !stack@.contains(
                ((y * w + x) as usize)) implies #[trigger] self.supported_from(x, y, d) by {
                crate::tile::lemma_rowmajor_bound(w as int, h as int, x, y);
                if y * w + x == cstart {
                    assert(stack@[0] == cstart);
                    assert(stack@.contains(((y * w + x) as usize)));
                } else {
                    assert(y * w + x != collapsed.y * old(self).gw() + collapsed.x);
                    assert(old(self).supported_from(x, y, d));
                }
            }
            if hq {
                assert forall|x: int, y: int, d: Direction|
                    0 <= x < w && 0 <= y < h && !stack@.contains(
                    ((y * w + x) as usize)) implies #[trigger] self.arc_consistent_from(
                    x,
                    y,
                    d,
                ) by {
                    crate::tile::lemma_rowmajor_bound(w as int, h as int, x, y);
                    if y * w + x == cstart {
                        assert(stack@[0] == cstart);
                        assert(stack@.contains(((y * w + x) as usize)));
                    } else {
                        assert(y * w + x != collapsed.y * old(self).gw() + collapsed.x);
                        assert(old(self).arc_consistent_from(x, y, d));
                    }
                }
            }
        }
        while !stack.is_empty()
            invariant
                self.wf_solver(),
                w == self.gw(),
                h == self.gh(),
                self.propagation_frame(old(self)),
                self.domains_nonempty(),
                old(self).adjacency_rules.symmetric() ==> old(self).resolved_ok(),
                stack.wf(),
                forall|k: int| 0 <= k < stack@.len() ==> (#[trigger] stack@[k]) < self.state@.len(),
                forall|x: int, y: int, d: Direction|
                    0 <= x < w && 0 <= y < h && !stack@.contains(((y * w + x) as usize))
                        ==> #[trigger] self.supported_from(x, y, d),
                hq == old(self).arcs_consistent_except(
                    collapsed.y * old(self).gw() + collapsed.x,
                ),
                hq ==> forall|x: int, y: int, d: Direction|
                    0 <= x < w && 0 <= y < h && !stack@.contains(((y * w + x) as usize))
                        ==> #[trigger] self.arc_consistent_from(x, y, d),
            decreases total_choices(self.state@) + stack@.len(),
        {
            let ghost pop_stack = stack@;
            let copt = stack.pop();
            let c = match copt {
                Some(cc) => cc,
                None => {
                    proof {
                        assert(false);
                    }
                    0
                }
            };
            iterations = iterations.saturating_add(1);
            let ghost m_entry = total_choices(self.state@) + stack@.len();
            proof {
                assert(c < self.state@.len());
                assert(w * h > 0);
                assert(w >= 1 && h >= 1) by (nonlinear_arith)
                    requires
                        w * h > 0,
                        w >= 0,
                        h >= 0,
                ;
            }
            let cx = c % w;
            let cy = c / w;
            proof {
                vstd::arithmetic::div_mod::lemma_fundamental_div_mod(c as int, w as int);
                vstd::arithmetic::div_mod::lemma_mod_division_less_than_divisor(c as int, w as int);
                assert((w as int) * (cy as int) == (cy as int) * (w as int)) by (nonlinear_arith);
                assert((cy as int) * (w as int) + (cx as int) == c);
                assert(cy < h) by (nonlinear_arith)
                    requires
                        (cy as int) * (w as int) + (cx as int) == c,
                        0 <= cx < w,
                        c < w * h,
                        w >= 1,
                        0 <= cy,
                        0 <= h,
                ;
            }
            let src = self.state[c].get_choices();
            let cpos = Vector2 { x: cx as i32, y: cy as i32 };
            let neighbors = crate::helpers::get_neighbors(self.dimensions, &cpos);
            proof {
                lemma_neighbors_props(w as int, h as int, cpos);
                assert forall|x: int, y: int, d: Direction|
                    0 <= x < w && 0 <= y < h && !stack@.contains(((y * w + x) as usize)) && (y * w
                        + x != c || dir_processed(neighbors@, 0, d)) implies #[trigger] self.supported_from(
                    x,
                    y,
                    d,
                ) by {
                    crate::tile::lemma_rowmajor_bound(w as int, h as int, x, y);
                    assert(self.state.len() == self.state@.len());
                    assert(w * h <= usize::MAX);
                    let s = (y * w + x) as usize;
                    if pop_stack.contains(s) {
                        let k = choose|k: int| 0 <= k < pop_stack.len() && pop_stack[k] == s;
                        if k < pop_stack.len() - 1 {
                            assert(stack@[k] == s);
                            assert(stack@.contains(s));
                        } else {
                            assert(s == c);
                        }
                        assert(false);
                    }
                }
                if hq {
                    assert forall|x: int, y: int, d: Direction|
                        0 <= x < w && 0 <= y < h && !stack@.contains(((y * w + x) as usize)) && (y
                            * w + x != c || dir_processed(
                            neighbors@,
                            0,
                            d,
                        )) implies #[trigger] self.arc_consistent_from(x, y, d) by {
                        crate::tile::lemma_rowmajor_bound(w as int, h as int, x, y);
                        assert(self.state.len() == self.state@.len());
                        assert(w * h <= usize::MAX);
                        let s = (y * w + x) as usize;
                        if pop_stack.contains(s) {
                            let k = choose|k: int| 0 <= k < pop_stack.len() && pop_stack[k] == s;
                            if k < pop_stack.len() - 1 {
                                assert(stack@[k] == s);
                                assert(stack@.contains(s));
                            } else {
                                assert(s == c);
                            }
                            assert(false);
                        }
                    }
                }
            }
            let mut ni: usize = 0;
            while ni < neighbors.len()
                invariant
                    self.wf_solver(),
                    w == self.gw(),
                    h == self.gh(),
                    w >= 1,
                    h >= 1,
                    self.propagation_frame(old(self)),
                    self.domains_nonempty(),
                    ni <= neighbors@.len(),
                    c < self.state@.len(),
                    cpos.x == cx as i32,
                    cpos.y == cy as i32,
                    cx < w,
                    cy < h,
                    (cy as int) * (w as int) + (cx as int) == c,
                    old(self).adjacency_rules.symmetric() ==> old(self).resolved_ok(),
                    neighbors@ == crate::helpers::spec_neighbors(w as int, h as int, cpos),
                    src@ == self.state@[c as int].domain(),
                    src@.len() >= 1,
                    forall|j: int| 0 <= j < src@.len() ==> (#[trigger] src@[j]) < self.n(),
                    stack.wf(),
                    forall|k: int|
                        0 <= k < stack@.len() ==> (#[trigger] stack@[k]) < self.state@.len(),
                    total_choices(self.state@) + stack@.len() <= m_entry,
                    forall|x: int, y: int, d: Direction|
                        0 <= x < w && 0 <= y < h && !stack@.contains(((y * w + x) as usize)) && (y
                            * w + x != c || dir_processed(neighbors@, ni as int, d))
                            ==> #[trigger] self.supported_from(x, y, d),
                    hq == old(self).arcs_consistent_except(
                        collapsed.y * old(self).gw() + collapsed.x,
                    ),
                    hq ==> forall|x: int, y: int, d: Direction|
                        0 <= x < w && 0 <= y < h && !stack@.contains(((y * w + x) as usize)) && (y
                            * w + x != c || dir_processed(neighbors@, ni as int, d))
                            ==> #[trigger] self.arc_consistent_from(x, y, d),
                decreases neighbors@.len() - ni,
            {
                let (npos, dir) = neighbors[ni];
                proof {
                    assert(neighbors@[ni as int].0 == npos && neighbors@[ni as int].1 == dir);
                    assert(npos.x == cpos.x + direction_offset(dir).0 && npos.y == cpos.y
                        + direction_offset(dir).1 && 0 <= npos.x < w && 0 <= npos.y < h);
                    crate::tile::lemma_rowmajor_bound(
                        w as int,
                        h as int,
                        npos.x as int,
                        npos.y as int,
                    );
                    assert(self.state.len() == self.state@.len());
                    assert(w * h <= usize::MAX);
                    assert(direction_offset(dir).0 != 0 || direction_offset(dir).1 != 0) by {
                        match dir {
                            Direction::UP => {},
                            Direction::DOWN => {},
                            Direction::LEFT => {},
                            Direction::RIGHT => {},
                        }
                    }
                }
                let nq = (npos.y as usize) * w + (npos.x as usize);
                proof {
                    if nq == c {
                        crate::tile::lemma_rowmajor_inj(
                            w as int,
                            npos.x as int,
                            npos.y as int,
                            cx as int,
                            cy as int,
                        );
                        assert(false);
                    }
                }
                let ghost pre_self = *self;
                let ghost pre_stack = stack@;
                if !self.state[nq].is_collapsed() {
                    let changed = revise_cell(
                        &mut self.state[nq],
                        &src,
                        dir,
                        &self.adjacency_rules,
                    );
                    proof {
                        lemma_count_update(pre_self.state@, nq as int, self.state@[nq as int]);
                        lemma_total_update(pre_self.state@, nq as int, self.state@[nq as int]);
                    }
                    if self.state[nq].choices.len() == 0 {
                        proof {
                            assert(self.state@[nq as int].state is None
                                && self.state@[nq as int].choices@.len() == 0);
                            assert(!self.domains_nonempty());
                            if old(self).adjacency_rules.symmetric() {
                                lemma_resolved_ok_transfer(old(self), self);
                            }
                            if old(self).adjacency_rules.complete() {
                                let oldcell = pre_self.state@[nq as int];
                                assert(oldcell.choices@.len() >= 1);
                                let v = oldcell.choices@[0];
                                assert(oldcell.choices@.contains(v));
                                assert(self.adjacency_rules.allows(
                                    src@[0] as int,
                                    v as int,
                                    dir,
                                ));
                                assert(spec_has_support(&self.adjacency_rules, src@, v, dir));
                                assert(self.state@[nq as int].choices@.contains(v));
                                assert(false);
                            }
                        }
                        return Err(WfcError::Contradiction);
                    }
                    if changed {
                        stack.push(nq);
                        proof {
                            assert forall|k: int|
                                0 <= k < stack@.len() implies (#[trigger] stack@[k])
                                < self.state@.len() by {
                                if k < pre_stack.len() {
                                    assert(pre_stack[k] == stack@[k]);
                                }
                            }
                        }
                    }
                    proof {
                        assert(total_choices(self.state@) + stack@.len() <= m_entry);
                        assert(self.state@[c as int] == pre_self.state@[c as int]);
                        assert forall|x: int, y: int, d: Direction|
                            0 <= x < w && 0 <= y < h && !stack@.contains(((y * w + x) as usize))
                                && (y * w + x != c || dir_processed(neighbors@, ni as int + 1, d))
                                implies #[trigger] self.supported_from(x, y, d) by {
                            crate::tile::lemma_rowmajor_bound(w as int, h as int, x, y);
                            let sidx = y * w + x;
                            let nx2 = x + direction_offset(d).0;
                            let ny2 = y + direction_offset(d).1;
                            match self.state@[sidx].state {
                                Some(a) => {
                                    if 0 <= nx2 < w && 0 <= ny2 < h && self.cell(nx2, ny2).state
                                        is None {
                                        crate::tile::lemma_rowmajor_bound(
                                            w as int,
                                            h as int,
                                            nx2,
                                            ny2,
                                        );
                                        let tidx = ny2 * w + nx2;
                                        if sidx == c && d == dir {
                                            crate::tile::lemma_rowmajor_inj(
                                                w as int,
                                                x,
                                                y,
                                                cx as int,
                                                cy as int,
                                            );
                                            assert(tidx == nq);
                                            assert(src@ =~= seq![a]);
                                            assert forall|j: int|
                                                0 <= j < self.cell(nx2, ny2).choices@.len()
                                                    implies self.adjacency_rules.allows(
                                                a as int,
                                                (#[trigger] self.cell(nx2, ny2).choices@[j]) as int,
                                                d,
                                            ) by {
                                                let v = self.cell(nx2, ny2).choices@[j];
                                                assert(self.cell(nx2, ny2).choices@.contains(v));
                                                assert(spec_has_support(
                                                    &self.adjacency_rules,
                                                    src@,
                                                    v,
                                                    d,
                                                ));
                                                let u = choose|u: int|
                                                    0 <= u < src@.len()
                                                        && self.adjacency_rules.allows(
                                                        src@[u] as int,
                                                        v as int,
                                                        d,
                                                    );
                                                assert(src@[u] == a);
                                            }
                                        } else {
                                            assert(!pre_stack.contains((sidx as usize))) by {
                                                if pre_stack.contains((sidx as usize)) {
                                                    let k = choose|k: int|
                                                        0 <= k < pre_stack.len() && pre_stack[k]
                                                            == (sidx as usize);
                                                    crate::unique_stack::lemma_spec_push_contains(
                                                        pre_stack,
                                                        nq,
                                                        (sidx as usize),
                                                    );
                                                }
                                            }
                                            assert(pre_self.supported_from(x, y, d));
                                            assert(pre_self.cell(x, y) == self.cell(x, y));
                                            assert forall|j: int|
                                                0 <= j < self.cell(nx2, ny2).choices@.len()
                                                    implies self.adjacency_rules.allows(
                                                a as int,
                                                (#[trigger] self.cell(nx2, ny2).choices@[j]) as int,
                                                d,
                                            ) by {
                                                let v = self.cell(nx2, ny2).choices@[j];
                                                assert(self.cell(nx2, ny2).choices@.contains(v));
                                                assert(pre_self.cell(nx2, ny2).choices@.contains(
                                                    v,
                                                ));
                                                let jj = choose|jj: int|
                                                    0 <= jj < pre_self.cell(nx2, ny2).choices@.len()
                                                        && pre_self.cell(nx2, ny2).choices@[jj]
                                                        == v;
                                                assert(pre_self.all_allowed(
                                                    a as int,
                                                    pre_self.cell(nx2, ny2).choices@,
                                                    d,
                                                ));
                                            }
                                        }
                                    }
                                }
                                None => {},
                            }
                        }
                        if hq {
                            assert forall|x: int, y: int, d: Direction|
                                0 <= x < w && 0 <= y < h && !stack@.contains(
                                ((y * w + x) as usize)) && (y * w + x != c || dir_processed(
                                neighbors@,
                                ni as int + 1,
                                d,
                            )) implies #[trigger] self.arc_consistent_from(x, y, d) by {
                                crate::tile::lemma_rowmajor_bound(w as int, h as int, x, y);
                                let sidx = y * w + x;
                                let nx2 = x + direction_offset(d).0;
                                let ny2 = y + direction_offset(d).1;
                                if 0 <= nx2 < w && 0 <= ny2 < h && self.cell(nx2, ny2).state
                                    is None {
                                    crate::tile::lemma_rowmajor_bound(w as int, h as int, nx2, ny2);
                                    let tidx = ny2 * w + nx2;
                                    if sidx == c && d == dir {
                                        crate::tile::lemma_rowmajor_inj(
                                            w as int,
                                            x,
                                            y,
                                            cx as int,
                                            cy as int,
                                        );
                                        assert(tidx == nq);
                                        assert(self.cell(x, y).domain() == src@);
                                        assert forall|j: int|
                                            0 <= j < self.cell(nx2, ny2).choices@.len()
                                                implies spec_has_support(
                                            &self.adjacency_rules,
                                            self.cell(x, y).domain(),
                                            #[trigger] self.cell(nx2, ny2).choices@[j],
                                            d,
                                        ) by {
                                            let v = self.cell(nx2, ny2).choices@[j];
                                            assert(self.cell(nx2, ny2).choices@.contains(v));
                                            assert(spec_has_support(
                                                &self.adjacency_rules,
                                                src@,
                                                v,
                                                d,
                                            ));
                                        }
                                    } else {
                                        if changed && sidx == nq {
                                            crate::unique_stack::lemma_spec_push_contains(
                                                pre_stack,
                                                nq,
                                                nq,
                                            );
                                            assert(stack@.contains(nq));
                                            assert(false);
                                        }
                                        assert(!pre_stack.contains((sidx as usize))) by {
                                            if pre_stack.contains((sidx as usize)) {
                                                let k = choose|k: int|
                                                    0 <= k < pre_stack.len() && pre_stack[k] == (
                                                    sidx as usize);
                                                crate::unique_stack::lemma_spec_push_contains(
                                                    pre_stack,
                                                    nq,
                                                    (sidx as usize),
                                                );
                                            }
                                        }
                                        assert(pre_self.arc_consistent_from(x, y, d));
                                        assert(self.cell(x, y).domain() == pre_self.cell(
                                            x,
                                            y,
                                        ).domain());
                                        assert(pre_self.cell(nx2, ny2).state is None);
                                        assert forall|j: int|
                                            0 <= j < self.cell(nx2, ny2).choices@.len()
                                                implies spec_has_support(
                                            &self.adjacency_rules,
                                            self.cell(x, y).domain(),
                                            #[trigger] self.cell(nx2, ny2).choices@[j],
                                            d,
                                        ) by {
                                            let v = self.cell(nx2, ny2).choices@[j];
                                            assert(self.cell(nx2, ny2).choices@.contains(v));
                                            assert(pre_self.cell(nx2, ny2).choices@.contains(v));
                                            let jj = choose|jj: int|
                                                0 <= jj < pre_self.cell(nx2, ny2).choices@.len()
                                                    && pre_self.cell(nx2, ny2).choices@[jj] == v;
                                            assert(spec_has_support(
                                                &self.adjacency_rules,
                                                pre_self.cell(x, y).domain(),
                                                pre_self.cell(nx2, ny2).choices@[jj],
                                                d,
                                            ));
                                        }
                                    }
                                }
                            }
                        }
                    }
                } else {
                    proof {
                        assert forall|x: int, y: int, d: Direction|
                            0 <= x < w && 0 <= y < h && !stack@.contains(((y * w + x) as usize))
                                && (y * w + x != c || dir_processed(neighbors@, ni as int + 1, d))
                                implies #[trigger] self.supported_from(x, y, d) by {
                            crate::tile::lemma_rowmajor_bound(w as int, h as int, x, y);
                            let sidx = y * w + x;
                            let nx2 = x + direction_offset(d).0;
                            let ny2 = y + direction_offset(d).1;
                            if sidx == c && d == dir {
                                crate::tile::lemma_rowmajor_inj(w as int, x, y, cx as int, cy as int);
                                if 0 <= nx2 < w && 0 <= ny2 < h {
                                    crate::tile::lemma_rowmajor_bound(w as int, h as int, nx2, ny2);
                                    assert(ny2 * w + nx2 == nq);
                                    assert(!(self.cell(nx2, ny2).state is None));
                                }
                            }
                        }
                        if hq {
                            assert forall|x: int, y: int, d: Direction|
                                0 <= x < w && 0 <= y < h && !stack@.contains(
                                ((y * w + x) as usize)) && (y * w + x != c || dir_processed(
                                neighbors@,
                                ni as int + 1,
                                d,
                            )) implies #[trigger] self.arc_consistent_from(x, y, d) by {
                                crate::tile::lemma_rowmajor_bound(w as int, h as int, x, y);
                                let sidx = y * w + x;
                                let nx2 = x + direction_offset(d).0;
                                let ny2 = y + direction_offset(d).1;
                                if sidx == c && d == dir {
                                    crate::tile::lemma_rowmajor_inj(
                                        w as int,
                                        x,
                                        y,
                                        cx as int,
                                        cy as int,
                                    );
                                    if 0 <= nx2 < w && 0 <= ny2 < h {
                                        crate::tile::lemma_rowmajor_bound(
                                            w as int,
                                            h as int,
                                            nx2,
                                            ny2,
                                        );
                                        assert(ny2 * w + nx2 == nq);
                                        assert(!(self.cell(nx2, ny2).state is None));
                                    }
                                }
                            }
                        }
                    }
                }
                ni += 1;
            }
            proof {
                assert forall|x: int, y: int, d: Direction|
                    0 <= x < w && 0 <= y < h && !stack@.contains(((y * w + x) as usize))
                        implies #[trigger] self.supported_from(x, y, d) by {
                    if y * w + x == c {
                        crate::tile::lemma_rowmajor_inj(w as int, x, y, cx as int, cy as int);
                        let nx2 = x + direction_offset(d).0;
                        let ny2 = y + direction_offset(d).1;
                        if 0 <= nx2 < w && 0 <= ny2 < h {
                            assert(dir_processed(neighbors@, neighbors@.len() as int, d));
                        }
                    }
                }
                if hq {
                    assert forall|x: int, y: int, d: Direction|
                        0 <= x < w && 0 <= y < h && !stack@.contains(((y * w + x) as usize))
                            implies #[trigger] self.arc_consistent_from(x, y, d) by {
                        if y * w + x == c {
                            crate::tile::lemma_rowmajor_inj(w as int, x, y, cx as int, cy as int);
                            let nx2 = x + direction_offset(d).0;
                            let ny2 = y + direction_offset(d).1;
                            if 0 <= nx2 < w && 0 <= ny2 < h {
                                assert(dir_processed(neighbors@, neighbors@.len() as int, d));
                            }
                        }
                    }
                }
                lemma_total_nonneg(self.state@);
            }
        }
        proof {
            assert forall|x: int, y: int, d: Direction| #[trigger]
                self.supported_from(x, y, d) by {
                if 0 <= x < w && 0 <= y < h {
                    assert(!stack@.contains(((y * w + x) as usize)));
                }
            }
            if hq {
                assert forall|x: int, y: int, d: Direction| #[trigger]
                    self.arc_consistent_from(x, y, d) by {
                    if 0 <= x < w && 0 <= y < h {
                        assert(!stack@.contains(((y * w + x) as usize)));
                    }
                }
            }
            if old(self).adjacency_rules.symmetric() {
                lemma_resolved_ok_transfer(old(self), self);
            }
        }
        Ok(iterations)
    }

    /// Keep the current grid rendering as an animation frame.
    fn take_snapshot(&mut self)
        requires
            old(self).wf_solver(),
            old(self).domains_nonempty(),
        ensures
            final(self).model == old(self).model,
            final(self).adjacency_rules == old(self).adjacency_rules,
            final(self).state == old(self).state,
            final(self).dimensions == old(self).dimensions,
            final(self).cells_to_collapse == old(self).cells_to_collapse,
            final(self).make_gif == old(self).make_gif,
            final(self).rng_state == old(self).rng_state,
            final(self).snapshot_counter == old(self).snapshot_counter,
            final(self).snapshots@.len() == old(self).snapshots@.len() + 1,
    {
        let img = self.state_to_image();
        self.snapshots.push(img);
    }
}

/// The inputs `solve` refuses up front with a configuration error: a
/// zero source dimension, a zero tile dimension, a zero output dimension,
/// or, for the tiled strategy, a tile size that does not evenly divide
/// the source.
pub open spec fn spec_solve_rejects(
    image: &Image,
    tile_dimensions: (u32, u32),
    method: ParseMethod,
    output_dimensions: (usize, usize),
) -> bool {
    ||| image.width == 0
    ||| image.height == 0
    ||| tile_dimensions.0 == 0
    ||| tile_dimensions.1 == 0
    ||| output_dimensions.0 == 0
    ||| output_dimensions.1 == 0
    ||| (method == ParseMethod::Tiled && ((image.width as int) % (tile_dimensions.0 as int) != 0
        || (image.height as int) % (tile_dimensions.1 as int) != 0))
}

/// One whole run of the pipeline: catalog the source under the chosen
/// strategy, build the adjacency relation from the catalog, and collapse
/// an output grid, deterministically from `seed`. On success the returned
/// engine is fully resolved and every pair of adjacent resolved tiles is
/// compatible under the constructed relation, which is symmetric by
/// construction; the catalog is pinned to the source (exact occurrence
/// counts and full window coverage) and the relation to the catalog by
/// the strategy's own rule. A configuration error comes exactly on the
/// rejected inputs, and an overlap source whose windows are pairwise
/// compatible everywhere is guaranteed to solve.
pub fn solve(
    image: &Image,
    tile_dimensions: (u32, u32),
    method: ParseMethod,
    with_tile_variations: bool,
    output_dimensions: (usize, usize),
    make_gif: bool,
    seed: u64,
) -> (r: Result<WaveFunction, WfcError>)
    requires
        image.wf(),
        image.width <= i32::MAX,
        image.height <= i32::MAX,
        with_tile_variations ==> tile_dimensions.0 == tile_dimensions.1,
        with_tile_variations ==> 8 * ((image.width as int) * (image.height as int)) <= u64::MAX,
        output_dimensions.0 * output_dimensions.1 <= usize::MAX,
        output_dimensions.0 <= i32::MAX,
        output_dimensions.1 <= i32::MAX,
    ensures
        r matches Ok(wf) ==> {
            &&& wf.wf_solver()
            &&& wf.model.wf()
            &&& wf.cells_to_collapse == 0
            &&& wf.dimensions == output_dimensions
            &&& wf.model.tile_dimensions == tile_dimensions
            &&& wf.adjacency_rules.symmetric()
            &&& wf.resolved_ok()
            &&& method == ParseMethod::Overlap ==> wf.model.mode == Mode::Overlap && forall|
                a: int,
                b: int,
                d: Direction,
            |
                0 <= a < wf.n() && 0 <= b < wf.n() ==> #[trigger] wf.adjacency_rules.allows(a, b, d)
                    == crate::tile::spec_overlaps(
                    &wf.model.tiles@[a],
                    &wf.model.tiles@[b],
                    d,
                    wf.model.mode,
                )
            &&& method == ParseMethod::Tiled ==> wf.model.mode == Mode::Tile && forall|
                a: int,
                b: int,
                d: Direction,
            |
                0 <= a < wf.n() && 0 <= b < wf.n() ==> #[trigger] wf.adjacency_rules.allows(a, b, d)
                    == crate::adjacency_rules::spec_tiled_allowed(&wf.model, a, b, d)
            &&& crate::model::sum_u64(wf.model.frequency_hints@) == (if with_tile_variations {
                8int
            } else {
                1int
            }) * (if method == ParseMethod::Overlap {
                (image.width as int) * (image.height as int)
            } else {
                ((image.width as int) / (tile_dimensions.0 as int)) * ((image.height as int) / (
                tile_dimensions.1 as int))
            })
            &&& method == ParseMethod::Overlap && !with_tile_variations
                ==> crate::model::counts_exact(
                image,
                tile_dimensions.0 as int,
                tile_dimensions.1 as int,
                wf.model.tiles@,
                wf.model.frequency_hints@,
                crate::model::overlap_origins(image.width as int, image.height as int),
                (image.width as int) * (image.height as int),
            ) && crate::model::covers_upto(
                image,
                tile_dimensions.0 as int,
                tile_dimensions.1 as int,
                wf.model.tiles@,
                crate::model::overlap_origins(image.width as int, image.height as int),
                (image.width as int) * (image.height as int),
            )
            &&& method == ParseMethod::Tiled ==> {
                let gw = (image.width as int) / (tile_dimensions.0 as int);
                let gh = (image.height as int) / (tile_dimensions.1 as int);
                let origins = crate::model::tiled_origins(
                    gw,
                    gh,
                    tile_dimensions.0 as int,
                    tile_dimensions.1 as int,
                );
                &&& wf.model.positions_width == gw
                &&& wf.model.positions_height == gh
                &&& wf.model.position_to_tile@.len() == gw * gh
                &&& forall|k: int|
                    0 <= k < wf.model.position_to_tile@.len() ==> crate::model::spec_window(
                        image,
                        (#[trigger] origins[k]).0,
                        origins[k].1,
                        tile_dimensions.0 as int,
                        tile_dimensions.1 as int,
                        wf.model.tiles@[wf.model.position_to_tile@[k] as int],
                    )
                &&& !with_tile_variations ==> crate::model::counts_exact(
                    image,
                    tile_dimensions.0 as int,
                    tile_dimensions.1 as int,
                    wf.model.tiles@,
                    wf.model.frequency_hints@,
                    origins,
                    gw * gh,
                )
            }
        },
        (r matches Err(e) && e == WfcError::Configuration) <==> spec_solve_rejects(
            image,
            tile_dimensions,
            method,
            output_dimensions,
        ),
        r matches Err(e) ==> e == WfcError::Configuration || e == WfcError::Contradiction,
        (method == ParseMethod::Overlap && !with_tile_variations && !spec_solve_rejects(
            image,
            tile_dimensions,
            method,
            output_dimensions,
        ) && crate::model::spec_all_windows_compatible(
            image,
            tile_dimensions.0 as int,
            tile_dimensions.1 as int,
        )) ==> r matches Ok(_),
{
    let built = match method {
        ParseMethod::Overlap => Model::overlap(image, tile_dimensions, with_tile_variations),
        ParseMethod::Tiled => Model::tiled(image, tile_dimensions, with_tile_variations),
    };
    let model = match built {
        Ok(m) => m,
        Err(e) => {
            return Err(e);
        }
    };
    let adjacency_rules = match method {
        ParseMethod::Overlap => AdjacencyRules::from_overlap_model(&model),
        ParseMethod::Tiled => AdjacencyRules::from_tile_model(&model),
    };
    proof {
        if method == ParseMethod::Overlap && !with_tile_variations
            && !spec_solve_rejects(image, tile_dimensions, method, output_dimensions)
            && crate::model::spec_all_windows_compatible(
            image,
            tile_dimensions.0 as int,
            tile_dimensions.1 as int,
        ) {
            let tw = tile_dimensions.0 as int;
            let th = tile_dimensions.1 as int;
            let total = (image.width as int) * (image.height as int);
            let origins = crate::model::overlap_origins(
                image.width as int,
                image.height as int,
            );
            assert forall|a: int, b: int, d: Direction|
                0 <= a < adjacency_rules.num() && 0 <= b
                    < adjacency_rules.num() implies #[trigger] adjacency_rules.allows(
                a,
                b,
                d,
            ) by {
                assert(model.frequency_hints@[a] >= 1);
                assert(model.frequency_hints@[a] == crate::model::count_matching(
                    image,
                    tw,
                    th,
                    model.tiles@[a],
                    origins,
                    total,
                ));
                assert(model.frequency_hints@[b] == crate::model::count_matching(
                    image,
                    tw,
                    th,
                    model.tiles@[b],
                    origins,
                    total,
                ));
                crate::model::lemma_count_pos_window(
                    image,
                    tw,
                    th,
                    model.tiles@[a],
                    origins,
                    total,
                );
                crate::model::lemma_count_pos_window(
                    image,
                    tw,
                    th,
                    model.tiles@[b],
                    origins,
                    total,
                );
                let k1 = choose|j: int|
                    0 <= j < total && crate::model::spec_window(
                        image,
                        (#[trigger] origins[j]).0,
                        origins[j].1,
                        tw,
                        th,
                        model.tiles@[a],
                    );
                let k2 = choose|j: int|
                    0 <= j < total && crate::model::spec_window(
                        image,
                        (#[trigger] origins[j]).0,
                        origins[j].1,
                        tw,
                        th,
                        model.tiles@[b],
                    );
                crate::model::lemma_window_compare_transfer(
                    image,
                    origins[k1].0,
                    origins[k1].1,
                    origins[k2].0,
                    origins[k2].1,
                    tw,
                    th,
                    model.tiles@[a],
                    model.tiles@[b],
                    d,
                );
                assert(crate::model::spec_windows_compatible(
                    image,
                    origins[k1].0,
                    origins[k1].1,
                    origins[k2].0,
                    origins[k2].1,
                    tw,
                    th,
                    d,
                ));
                assert(crate::tile::spec_compare_overlap(
                    &model.tiles@[a],
                    d,
                    &model.tiles@[b],
                ));
            }
            assert(adjacency_rules.complete());
        }
    }
    let mut wf = WaveFunction::with_seed(output_dimensions, adjacency_rules, model, make_gif, seed);
    match wf.run() {
        Ok(_) => Ok(wf),
        Err(e) => Err(e),
    }
}

} // verus!