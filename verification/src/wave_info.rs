use vstd::prelude::*;

use crate::color::RGB;
use crate::grid::Grid;
use crate::model::sum_u64;
use crate::types::Id;
use crate::vector2::Vector2;

verus! {

/// How many of the first `k` grid entries record color `c`.
pub open spec fn count_color(entries: Seq<(Vector2, RGB)>, c: RGB, k: int) -> int
    decreases k,
{
    if k <= 0 {
        0
    } else {
        count_color(entries, c, k - 1) + if entries[k - 1].1 == c {
            1int
        } else {
            0int
        }
    }
}

/// A color equal to none of the first `k` recorded ones occurs zero
/// times among them.
proof fn lemma_count_color_zero(entries: Seq<(Vector2, RGB)>, c: RGB, k: int)
    requires
        forall|j: int| 0 <= j < k ==> (#[trigger] entries[j]).1 != c,
    ensures
        count_color(entries, c, k) == 0,
    decreases k,
{
    if k > 0 {
        lemma_count_color_zero(entries, c, k - 1);
    }
}

/// Whether two color samples agree on every channel.
fn color_eq(a: &RGB, b: &RGB) -> (r: bool)
    ensures
        r == (*a == *b),
{
    broadcast use vstd::array::group_array_axioms;

    let r = a[0] == b[0] && a[1] == b[1] && a[2] == b[2];
    proof {
        if r {
            assert(*a =~= *b);
        } else {
            assert(*a != *b);
        }
    }
    r
}

/// The index of `c` in the palette, if present.
fn find_color(colors: &Vec<RGB>, c: &RGB) -> (r: Option<usize>)
    ensures
        match r {
            Some(i) => i < colors@.len() && colors@[i as int] == *c,
            None => forall|i: int| 0 <= i < colors@.len() ==> (#[trigger] colors@[i]) != *c,
        },
{
    let mut i: usize = 0;
    while i < colors.len()
        invariant
            i <= colors@.len(),
            forall|j: int| 0 <= j < i ==> (#[trigger] colors@[j]) != *c,
        decreases colors@.len() - i,
    {
        if color_eq(&colors[i], c) {
            return Some(i);
        }
        i += 1;
    }
    None
}

/// The identifier maps and occurrence counts the pixel-level builder
/// reads: each distinct color of the source, in first-seen order, its
/// occurrence count, and the identifier recorded for each source pixel.
pub struct WaveInfo {
    /// The distinct colors; the index of a color is its identifier.
    pub id_to_color: Vec<RGB>,
    /// The identifier of each grid entry's color, in entry order.
    pub pixel_to_id: Vec<Id>,
    /// Occurrence count of each color, indexed by identifier.
    pub id_frequency: Vec<u64>,
}

impl WaveInfo {
    /// The palette, counts and per-pixel identifiers of a source grid:
    /// identifiers are dense from zero in first-seen order, every pixel's
    /// identifier names its own color, each color's count is exactly its
    /// number of occurrences, and every palette color was actually seen,
    /// so every count is positive.
    pub fn init(grid: &Grid) -> (r: WaveInfo)
        ensures
            forall|i: int, j: int|
                0 <= i < j < r.id_to_color@.len() ==> r.id_to_color@[i] != r.id_to_color@[j],
            r.id_frequency@.len() == r.id_to_color@.len(),
            r.pixel_to_id@.len() == grid@.len(),
            forall|e: int|
                0 <= e < grid@.len() ==> (#[trigger] r.pixel_to_id@[e]) < r.id_to_color@.len()
                    && r.id_to_color@[r.pixel_to_id@[e] as int] == grid@[e].1,
            forall|i: int|
                0 <= i < r.id_to_color@.len() ==> (#[trigger] r.id_frequency@[i]) == count_color(
                    grid@,
                    r.id_to_color@[i],
                    grid@.len() as int,
                ),
            palette_from(r.id_to_color@, grid@),
            forall|i: int| 0 <= i < r.id_frequency@.len() ==> (#[trigger] r.id_frequency@[i]) >= 1,
            sum_u64(r.id_frequency@) == grid@.len(),
    {
        let entries = grid.for_each();
        let mut id_to_color: Vec<RGB> = Vec::new();
        let mut id_frequency: Vec<u64> = Vec::new();
        let mut pixel_to_id: Vec<Id> = Vec::new();
        let mut e: usize = 0;
        while e < entries.len()
            invariant
                e <= entries@.len(),
                entries@ == grid@,
                id_to_color@.len() == id_frequency@.len(),
                pixel_to_id@.len() == e,
                forall|i: int, j: int|
                    0 <= i < j < id_to_color@.len() ==> id_to_color@[i] != id_to_color@[j],
                forall|e2: int|
                    0 <= e2 < e ==> (#[trigger] pixel_to_id@[e2]) < id_to_color@.len()
                        && id_to_color@[pixel_to_id@[e2] as int] == grid@[e2].1,
                forall|i: int|
                    0 <= i < id_to_color@.len() ==> (#[trigger] id_frequency@[i]) == count_color(
                        grid@,
                        id_to_color@[i],
                        e as int,
                    ),
                forall|e2: int|
                    0 <= e2 < e ==> exists|i: int|
                        0 <= i < id_to_color@.len() && id_to_color@[i] == (
                        #[trigger] grid@[e2]).1,
                palette_from(id_to_color@, grid@),
                forall|i: int|
                    0 <= i < id_frequency@.len() ==> (#[trigger] id_frequency@[i]) >= 1,
                sum_u64(id_frequency@) == e,
            decreases entries@.len() - e,
        {
            let c = entries[e].1;
            let ghost pre_colors = id_to_color@;
            let ghost pre_freqs = id_frequency@;
            let id: usize = match find_color(&id_to_color, &c) {
                Some(i) => {
                    proof {
                        crate::model::lemma_sum_element_le(pre_freqs, i as int);
                        assert(sum_u64(pre_freqs) <= usize::MAX);
                    }
                    let f = id_frequency[i];
                    id_frequency.set(i, f + 1);
                    proof {
                        crate::model::lemma_sum_update(pre_freqs, i as int, (f + 1) as u64);
                        assert forall|i2: int|
                            0 <= i2 < id_to_color@.len() implies (#[trigger] id_frequency@[i2])
                            == count_color(grid@, id_to_color@[i2], e as int + 1) by {
                            if i2 == i {
                                assert(grid@[e as int].1 == id_to_color@[i2]);
                            } else {
                                assert(id_to_color@[i2] != id_to_color@[i as int]);
                                assert(grid@[e as int].1 != id_to_color@[i2]);
                            }
                        }
                    }
                    i
                }
                None => {
                    let n = id_to_color.len();
                    id_to_color.push(c);
                    id_frequency.push(1);
                    proof {
                        crate::model::lemma_sum_push(pre_freqs, 1u64);
                        lemma_count_color_zero(grid@, c, e as int);
                        assert forall|i2: int|
                            0 <= i2 < id_to_color@.len() implies (#[trigger] id_frequency@[i2])
                            == count_color(grid@, id_to_color@[i2], e as int + 1) by {
                            if i2 == n {
                                assert(id_to_color@[i2] == c);
                            } else {
                                assert(id_to_color@[i2] == pre_colors[i2]);
                                assert(pre_colors[i2] != c);
                            }
                        }
                        assert forall|i2: int, j2: int|
                            0 <= i2 < j2 < id_to_color@.len() implies id_to_color@[i2]
                            != id_to_color@[j2] by {
                            if j2 == n {
                                assert(pre_colors[i2] != c);
                            }
                        }
                        assert(palette_from(id_to_color@, grid@)) by {
                            assert forall|i2: int|
                                0 <= i2 < id_to_color@.len() implies exists|e2: int|
                                0 <= e2 < grid@.len() && (#[trigger] id_to_color@[i2])
                                    == grid@[e2].1 by {
                                if i2 < pre_colors.len() {
                                    let e0 = choose|e0: int|
                                        0 <= e0 < grid@.len() && pre_colors[i2] == grid@[e0].1;
                                    assert(id_to_color@[i2] == grid@[e0].1);
                                } else {
                                    assert(id_to_color@[i2] == grid@[e as int].1);
                                }
                            }
                        }
                    }
                    n
                }
            };
            pixel_to_id.push(id);
            proof {
                assert(id_to_color@[id as int] == grid@[e as int].1);
                assert forall|e2: int|
                    0 <= e2 < e + 1 implies exists|i: int|
                    0 <= i < id_to_color@.len() && id_to_color@[i] == (
                    #[trigger] grid@[e2]).1 by {
                    if e2 < e {
                        let i0 = choose|i0: int|
                            0 <= i0 < pre_colors.len() && pre_colors[i0] == grid@[e2].1;
                        assert(id_to_color@[i0] == grid@[e2].1);
                    } else {
                        assert(id_to_color@[id as int] == grid@[e2].1);
                    }
                }
            }
            e += 1;
        }
        WaveInfo { id_to_color, pixel_to_id, id_frequency }
    }

    /// The identifier assigned to `c`, if the palette holds it; the
    /// content-addressed reverse index.
    pub fn color_to_id(&self, c: &RGB) -> (r: Option<Id>)
        ensures
            match r {
                Some(i) => i < self.id_to_color@.len() && self.id_to_color@[i as int] == *c,
                None => forall|i: int|
                    0 <= i < self.id_to_color@.len() ==> (#[trigger] self.id_to_color@[i]) != *c,
            },
    {
        find_color(&self.id_to_color, c)
    }
}

/// Every one of the first `e` grid entries has its color in the palette.
pub open spec fn palette_covers(colors: Seq<RGB>, g: Seq<(Vector2, RGB)>, e: int) -> bool {
    forall|e2: int|
        0 <= e2 < e ==> exists|i: int| 0 <= i < colors.len() && colors[i] == (#[trigger] g[e2]).1
}

/// Every palette color was seen on some grid entry.
pub open spec fn palette_from(colors: Seq<RGB>, g: Seq<(Vector2, RGB)>) -> bool {
    forall|i: int|
        0 <= i < colors.len() ==> exists|e2: int|
            0 <= e2 < g.len() && (#[trigger] colors[i]) == g[e2].1
}

/// The distinct colors of a source grid, in first-seen order; the index
/// of a color is its identifier.
pub fn mk_id_to_color(grid: &Grid) -> (r: Vec<RGB>)
    ensures
        forall|i: int, j: int| 0 <= i < j < r@.len() ==> r@[i] != r@[j],
        palette_covers(r@, grid@, grid@.len() as int),
        palette_from(r@, grid@),
{
    let entries = grid.for_each();
    let mut colors: Vec<RGB> = Vec::new();
    let mut e: usize = 0;
    while e < entries.len()
        invariant
            e <= entries@.len(),
            entries@ == grid@,
            forall|i: int, j: int| 0 <= i < j < colors@.len() ==> colors@[i] != colors@[j],
            palette_covers(colors@, grid@, e as int),
            palette_from(colors@, grid@),
        decreases entries@.len() - e,
    {
        let c = entries[e].1;
        let ghost pre = colors@;
        let id: usize = match find_color(&colors, &c) {
            Some(i) => i,
            None => {
                let n = colors.len();
                colors.push(c);
                proof {
                    assert forall|i: int, j: int|
                        0 <= i < j < colors@.len() implies colors@[i] != colors@[j] by {
                        if j == colors@.len() - 1 {
                            assert(pre[i] != c);
                        }
                    }
                }
                n
            }
        };
        proof {
            assert(colors@[id as int] == grid@[e as int].1);
            assert(palette_covers(colors@, grid@, e as int + 1)) by {
                assert forall|e2: int|
                    0 <= e2 < e + 1 implies exists|i: int|
                    0 <= i < colors@.len() && colors@[i] == (#[trigger] grid@[e2]).1 by {
                    if e2 < e {
                        let i0 = choose|i0: int| 0 <= i0 < pre.len() && pre[i0] == grid@[e2].1;
                        assert(colors@[i0] == grid@[e2].1);
                    } else {
                        assert(colors@[id as int] == grid@[e2].1);
                    }
                }
            }
            assert(palette_from(colors@, grid@)) by {
                assert forall|i: int|
                    0 <= i < colors@.len() implies exists|e2: int|
                    0 <= e2 < grid@.len() && (#[trigger] colors@[i]) == grid@[e2].1 by {
                    if i < pre.len() {
                        let e0 = choose|e0: int| 0 <= e0 < grid@.len() && pre[i] == grid@[e0].1;
                        assert(colors@[i] == grid@[e0].1);
                    } else {
                        assert(colors@[i] == grid@[e as int].1);
                    }
                }
            }
        }
        e += 1;
    }
    colors
}

} // verus!
