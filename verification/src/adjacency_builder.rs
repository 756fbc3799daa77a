use vstd::prelude::*;

use crate::direction::Direction;
use crate::tile::direction_offset;
use crate::types::Id;
use crate::vector2::Vector2;

verus! {

/// The direction a scanning sub-step examines; every pixel is examined
/// four times, in the fixed order up, down, left, right.
pub open spec fn step_direction(di: int) -> Direction {
    if di == 0 {
        Direction::UP
    } else if di == 1 {
        Direction::DOWN
    } else if di == 2 {
        Direction::LEFT
    } else {
        Direction::RIGHT
    }
}

/// Sub-step `(k, di)` observes the pair `(a, b)`: pixel `k` carries
/// identifier `a`, its neighbor one step in the sub-step's direction is
/// in bounds and carries identifier `b`.
pub open spec fn spec_pair_observed(
    w: int,
    h: int,
    ids: Seq<Id>,
    k: int,
    di: int,
    a: int,
    b: int,
) -> bool {
    let x = k % w;
    let y = k / w;
    let d = step_direction(di);
    let nx = x + direction_offset(d).0;
    let ny = y + direction_offset(d).1;
    &&& 0 <= nx < w
    &&& 0 <= ny < h
    &&& ids[k] == a
    &&& ids[ny * w + nx] == b
}

/// How often the first `step` scanning sub-steps observed identifier `b`
/// in direction `d` from identifier `a`.
pub open spec fn count_pairs(
    w: int,
    h: int,
    ids: Seq<Id>,
    a: int,
    b: int,
    d: Direction,
    step: int,
) -> int
    decreases step,
{
    if step <= 0 {
        0
    } else {
        count_pairs(w, h, ids, a, b, d, step - 1) + {
            let k = (step - 1) / 4;
            let di = (step - 1) % 4;
            if step_direction(di) == d && spec_pair_observed(w, h, ids, k, di, a, b) {
                1int
            } else {
                0int
            }
        }
    }
}

/// One more identifier than the largest one mentioned.
pub open spec fn spec_num_ids(ids: Seq<Id>) -> int
    decreases ids.len(),
{
    if ids.len() == 0 {
        0
    } else {
        let rest = spec_num_ids(ids.drop_last());
        if ids.last() + 1 > rest {
            ids.last() + 1
        } else {
            rest
        }
    }
}

/// Every count of the table equals the number of observations so far.
pub open spec fn counts_ok(
    counts: Seq<Vec<Vec<u64>>>,
    n: int,
    w: int,
    h: int,
    ids: Seq<Id>,
    step: int,
) -> bool {
    forall|a: int, b: int, d: Direction|
        0 <= a < n && 0 <= b < n ==> (#[trigger] counts[a]@[b]@[d.spec_idx() as int]) as int
            == count_pairs(w, h, ids, a, b, d, step)
}

/// The pixel-level adjacency statistics builder: given the identifier of
/// each source pixel, it tallies, for every ordered pair of identifiers
/// and every direction, how often the second was observed next to the
/// first.
pub struct AdjacencyRulesBuilder {
    pub image_width: i32,
    pub image_height: i32,
    /// The identifier seen at each pixel, row-major.
    pub pixel_to_id: Vec<Id>,
}

/// The neighbor list the builder reads at `p`: for each direction whose
/// one step stays inside the `w`-by-`h` pixel grid, in the fixed order
/// up, down, left, right, the identifier recorded one step away paired
/// with that direction. Corner pixels list two entries, edge pixels
/// three, interior pixels all four.
pub open spec fn spec_builder_neighbors(w: int, h: int, ids: Seq<Id>, p: Vector2) -> Seq<
    (Id, Direction),
> {
    let up: Seq<(Id, Direction)> = if p.y > 0 {
        seq![(ids[(p.y - 1) * w + p.x], Direction::UP)]
    } else {
        Seq::empty()
    };
    let down: Seq<(Id, Direction)> = if p.y + 1 < h {
        seq![(ids[(p.y + 1) * w + p.x], Direction::DOWN)]
    } else {
        Seq::empty()
    };
    let left: Seq<(Id, Direction)> = if p.x > 0 {
        seq![(ids[p.y * w + (p.x - 1)], Direction::LEFT)]
    } else {
        Seq::empty()
    };
    let right: Seq<(Id, Direction)> = if p.x + 1 < w {
        seq![(ids[p.y * w + (p.x + 1)], Direction::RIGHT)]
    } else {
        Seq::empty()
    };
    up + down + left + right
}

impl AdjacencyRulesBuilder {
    /// One identifier per pixel.
    pub open spec fn wf(&self) -> bool {
        &&& 0 <= self.image_width
        &&& 0 <= self.image_height
        &&& self.pixel_to_id@.len() == self.image_width * self.image_height
    }

    /// The neighbor identifiers of `pixel` with the direction each one
    /// lies in: exactly the in-bounds 4-neighbors, in the fixed order up,
    /// down, left, right; edge pixels simply have fewer.
    pub fn get_neighbors(&self, pixel: &Vector2) -> (r: Vec<(Id, Direction)>)
        requires
            self.wf(),
            0 <= pixel.x < self.image_width,
            0 <= pixel.y < self.image_height,
        ensures
            r@ == spec_builder_neighbors(
                self.image_width as int,
                self.image_height as int,
                self.pixel_to_id@,
                *pixel,
            ),
            forall|k: int|
                0 <= k < r@.len() ==> {
                    let d = (#[trigger] r@[k]).1;
                    let nx = pixel.x + direction_offset(d).0;
                    let ny = pixel.y + direction_offset(d).1;
                    &&& 0 <= nx < self.image_width
                    &&& 0 <= ny < self.image_height
                    &&& r@[k].0 == self.pixel_to_id@[ny * self.image_width + nx]
                },
    {
        let w = self.image_width;
        let h = self.image_height;
        let x = pixel.x;
        let y = pixel.y;
        let mut r: Vec<(Id, Direction)> = Vec::new();
        proof {
            assert(self.pixel_to_id.len() == self.pixel_to_id@.len());
            assert(w * h <= usize::MAX);
        }
        if y > 0 {
            proof {
                crate::tile::lemma_rowmajor_bound(w as int, h as int, x as int, y as int - 1);
            }
            let id = self.pixel_to_id[((y - 1) as usize) * (w as usize) + (x as usize)];
            r.push((id, Direction::UP));
        }
        if y < h - 1 {
            proof {
                crate::tile::lemma_rowmajor_bound(w as int, h as int, x as int, y as int + 1);
            }
            let id = self.pixel_to_id[((y + 1) as usize) * (w as usize) + (x as usize)];
            r.push((id, Direction::DOWN));
        }
        if x > 0 {
            proof {
                crate::tile::lemma_rowmajor_bound(w as int, h as int, x as int - 1, y as int);
            }
            let id = self.pixel_to_id[(y as usize) * (w as usize) + ((x - 1) as usize)];
            r.push((id, Direction::LEFT));
        }
        if x < w - 1 {
            proof {
                crate::tile::lemma_rowmajor_bound(w as int, h as int, x as int + 1, y as int);
            }
            let id = self.pixel_to_id[(y as usize) * (w as usize) + ((x + 1) as usize)];
            r.push((id, Direction::RIGHT));
        }
        proof {
            assert(r@ =~= spec_builder_neighbors(w as int, h as int, self.pixel_to_id@, *pixel));
        }
        r
    }
}

/// Every identifier mentioned lies below the identifier count.
pub proof fn lemma_num_ids_bound(ids: Seq<Id>, i: int)
    requires
        0 <= i < ids.len(),
    ensures
        ids[i] < spec_num_ids(ids),
        spec_num_ids(ids) >= 0,
    decreases ids.len(),
{
    if i == ids.len() - 1 {
        lemma_num_ids_nonneg(ids.drop_last());
    } else {
        lemma_num_ids_bound(ids.drop_last(), i);
    }
}

/// The identifier count is never negative.
pub proof fn lemma_num_ids_nonneg(ids: Seq<Id>)
    ensures
        spec_num_ids(ids) >= 0,
    decreases ids.len(),
{
    if ids.len() > 0 {
        lemma_num_ids_nonneg(ids.drop_last());
    }
}

/// No pair is observed more often than there were sub-steps.
pub proof fn lemma_count_pairs_le(
    w: int,
    h: int,
    ids: Seq<Id>,
    a: int,
    b: int,
    d: Direction,
    step: int,
)
    ensures
        count_pairs(w, h, ids, a, b, d, step) <= if step >= 0 {
            step
        } else {
            0
        },
        count_pairs(w, h, ids, a, b, d, step) >= 0,
    decreases step,
{
    if step > 0 {
        lemma_count_pairs_le(w, h, ids, a, b, d, step - 1);
    }
}

/// One scanning sub-step keeps the tally exact: the examined slot (if
/// any pair was observed) gains one, everything else stands.
#[verifier::rlimit(50)]
proof fn lemma_substep(
    pre: Seq<Vec<Vec<u64>>>,
    post: Seq<Vec<Vec<u64>>>,
    n: int,
    w: int,
    h: int,
    ids: Seq<Id>,
    k: int,
    di: int,
    bumped: bool,
    ida: int,
    idb: int,
)
    requires
        0 <= k,
        w >= 1,
        0 <= di < 4,
        pre.len() == n,
        post.len() == n,
        forall|i: int| 0 <= i < n ==> (#[trigger] pre[i])@.len() == n,
        forall|i: int, j: int| 0 <= i < n && 0 <= j < n ==> (#[trigger] pre[i]@[j])@.len() == 4,
        forall|i: int| 0 <= i < n ==> (#[trigger] post[i])@.len() == n,
        forall|i: int, j: int| 0 <= i < n && 0 <= j < n ==> (#[trigger] post[i]@[j])@.len() == 4,
        counts_ok(pre, n, w, h, ids, 4 * k + di),
        bumped ==> spec_pair_observed(w, h, ids, k, di, ida, idb) && 0 <= ida < n && 0 <= idb < n
            && post[ida]@[idb]@[di] == pre[ida]@[idb]@[di] + 1 && forall|i: int, j: int, kk: int|
            0 <= i < n && 0 <= j < n && 0 <= kk < 4 && !(i == ida && j == idb && kk == di)
                ==> (#[trigger] post[i]@[j]@[kk]) == pre[i]@[j]@[kk],
        !bumped ==> post == pre && forall|a2: int, b2: int|
            !spec_pair_observed(w, h, ids, k, di, a2, b2),
    ensures
        counts_ok(post, n, w, h, ids, 4 * k + di + 1),
{
    vstd::arithmetic::div_mod::lemma_fundamental_div_mod_converse(4 * k + di, 4, k, di);
    let d_step = step_direction(di);
    assert(d_step.spec_idx() == di) by {
        match d_step {
            Direction::UP => {},
            Direction::DOWN => {},
            Direction::LEFT => {},
            Direction::RIGHT => {},
        }
    }
    assert forall|a2: int, b2: int, d: Direction|
        0 <= a2 < n && 0 <= b2 < n implies (#[trigger] post[a2]@[b2]@[d.spec_idx() as int]) as int
        == count_pairs(w, h, ids, a2, b2, d, 4 * k + di + 1) by {
        assert(count_pairs(w, h, ids, a2, b2, d, 4 * k + di + 1) == count_pairs(
            w,
            h,
            ids,
            a2,
            b2,
            d,
            4 * k + di,
        ) + if step_direction(di) == d && spec_pair_observed(w, h, ids, k, di, a2, b2) {
            1int
        } else {
            0int
        });
        assert(d.spec_idx() == di ==> d == d_step) by {
            match d {
                Direction::UP => {},
                Direction::DOWN => {},
                Direction::LEFT => {},
                Direction::RIGHT => {},
            }
        }
        if bumped {
            if a2 == ida && b2 == idb && d == d_step {
            } else {
                if d == d_step && spec_pair_observed(w, h, ids, k, di, a2, b2) {
                    assert(a2 == ids[k] && ida == ids[k]);
                    assert(false);
                }
                assert(d.spec_idx() != di || !(a2 == ida && b2 == idb) || d != d_step);
                if d.spec_idx() == di {
                    assert(post[a2]@[b2]@[d.spec_idx() as int] == pre[a2]@[b2]@[d.spec_idx() as int]);
                } else {
                    assert(post[a2]@[b2]@[d.spec_idx() as int] == pre[a2]@[b2]@[d.spec_idx() as int]);
                }
            }
        }
    }
}

impl AdjacencyRulesBuilder {
    /// Tally every adjacent pixel pair of the source: the table, indexed
    /// by an identifier, a neighbor identifier and a direction, records
    /// exactly how often that neighbor was observed one step away in that
    /// direction.
    #[verifier::rlimit(100)]
    pub fn build(&self) -> (r: Vec<Vec<Vec<u64>>>)
        requires
            self.wf(),
            forall|i: int|
                0 <= i < self.pixel_to_id@.len() ==> (#[trigger] self.pixel_to_id@[i])
                    < usize::MAX,
            4 * ((self.image_width as int) * (self.image_height as int)) <= u64::MAX,
        ensures
            r@.len() == spec_num_ids(self.pixel_to_id@),
            forall|i: int| 0 <= i < r@.len() ==> (#[trigger] r@[i])@.len() == r@.len(),
            forall|i: int, j: int|
                0 <= i < r@.len() && 0 <= j < r@.len() ==> (#[trigger] r@[i]@[j])@.len() == 4,
            counts_ok(
                r@,
                r@.len() as int,
                self.image_width as int,
                self.image_height as int,
                self.pixel_to_id@,
                4 * ((self.image_width as int) * (self.image_height as int)),
            ),
    {
        let ghost ids = self.pixel_to_id@;
        let w = self.image_width;
        let h = self.image_height;
        proof {
            assert(self.pixel_to_id.len() == self.pixel_to_id@.len());
            assert(w * h <= usize::MAX);
        }
        let total = self.pixel_to_id.len();
        let mut n: usize = 0;
        let mut i: usize = 0;
        while i < total
            invariant
                i <= total,
                total == ids.len(),
                ids == self.pixel_to_id@,
                forall|j: int| 0 <= j < ids.len() ==> (#[trigger] ids[j]) < usize::MAX,
                n == spec_num_ids(ids.subrange(0, i as int)),
            decreases total - i,
        {
            let id = self.pixel_to_id[i];
            proof {
                assert(ids.subrange(0, i as int + 1).drop_last() =~= ids.subrange(0, i as int));
                assert(ids.subrange(0, i as int + 1).last() == ids[i as int]);
            }
            if id + 1 > n {
                n = id + 1;
            }
            i += 1;
        }
        proof {
            assert(ids.subrange(0, total as int) =~= ids);
        }
        let mut counts: Vec<Vec<Vec<u64>>> = Vec::new();
        let mut a: usize = 0;
        while a < n
            invariant
                a <= n,
                counts@.len() == a,
                forall|i2: int|
                    0 <= i2 < a ==> (#[trigger] counts@[i2])@.len() == n && forall|j2: int|
                        0 <= j2 < n ==> (#[trigger] counts@[i2]@[j2])@.len() == 4 && forall|
                            k2: int,
                        | 0 <= k2 < 4 ==> counts@[i2]@[j2]@[k2] == 0,
            decreases n - a,
        {
            let mut row: Vec<Vec<u64>> = Vec::new();
            let mut b: usize = 0;
            while b < n
                invariant
                    b <= n,
                    row@.len() == b,
                    forall|j2: int|
                        0 <= j2 < b ==> (#[trigger] row@[j2])@.len() == 4 && forall|k2: int|
                            0 <= k2 < 4 ==> row@[j2]@[k2] == 0,
                decreases n - b,
            {
                let mut cell: Vec<u64> = Vec::new();
                cell.push(0);
                cell.push(0);
                cell.push(0);
                cell.push(0);
                row.push(cell);
                b += 1;
            }
            counts.push(row);
            a += 1;
        }
        let mut k: usize = 0;
        while k < total
            invariant
                k <= total,
                total == ids.len(),
                ids == self.pixel_to_id@,
                self.wf(),
                w == self.image_width,
                h == self.image_height,
                total == (w as int) * (h as int),
                4 * ((w as int) * (h as int)) <= u64::MAX,
                n == spec_num_ids(ids),
                counts@.len() == n,
                forall|i2: int|
                    0 <= i2 < n ==> (#[trigger] counts@[i2])@.len() == n,
                forall|i2: int, j2: int|
                    0 <= i2 < n && 0 <= j2 < n ==> (#[trigger] counts@[i2]@[j2])@.len() == 4,
                counts_ok(counts@, n as int, w as int, h as int, ids, 4 * (k as int)),
            decreases total - k,
        {
            proof {
                vstd::arithmetic::div_mod::lemma_fundamental_div_mod(k as int, w as int);
                vstd::arithmetic::div_mod::lemma_mod_division_less_than_divisor(k as int, w as int);
                assert(w >= 1 && h >= 1) by (nonlinear_arith)
                    requires
                        (w as int) * (h as int) > k,
                        k >= 0,
                        w >= 0,
                        h >= 0,
                ;
                assert((w as int) * ((k as int) / (w as int)) == ((k as int) / (w as int)) * (
                w as int)) by (nonlinear_arith);
                assert((k as int) / (w as int) < h) by (nonlinear_arith)
                    requires
                        ((k as int) / (w as int)) * (w as int) + (k as int) % (w as int) == k,
                        0 <= (k as int) % (w as int) < w,
                        (k as int) < (w as int) * (h as int),
                        w >= 1,
                        0 <= (k as int) / (w as int),
                        0 <= h,
                ;
                lemma_num_ids_bound(ids, k as int);
                assert(4 * (k as int) + 4 <= 4 * ((w as int) * (h as int))) by (nonlinear_arith)
                    requires
                        (k as int) + 1 <= (w as int) * (h as int),
                ;
            }
            let x = k % (w as usize);
            let y = k / (w as usize);
            let ida = self.pixel_to_id[k];
            let ghost kx = (k as int) % (w as int);
            let ghost ky = (k as int) / (w as int);
            let ghost pre0 = counts@;
            if y > 0 {
                proof {
                    crate::tile::lemma_rowmajor_bound(w as int, h as int, kx, ky - 1);
                    lemma_num_ids_bound(ids, (ky - 1) * (w as int) + kx);
                    lemma_count_pairs_le(
                        w as int,
                        h as int,
                        ids,
                        ida as int,
                        ids[(ky - 1) * (w as int) + kx] as int,
                        Direction::UP,
                        4 * (k as int),
                    );
                }
                let idb = self.pixel_to_id[(y - 1) * (w as usize) + x];
                proof {
                    assert(Direction::UP.spec_idx() == 0);
                    assert(idb == ids[(ky - 1) * (w as int) + kx]);
                    assert(counts@[ida as int]@[idb as int]@[0int] as int == count_pairs(
                        w as int,
                        h as int,
                        ids,
                        ida as int,
                        idb as int,
                        Direction::UP,
                        4 * (k as int),
                    ));
                }
                bump(&mut counts, ida, idb, 0);
                proof {
                    lemma_substep(
                        pre0,
                        counts@,
                        n as int,
                        w as int,
                        h as int,
                        ids,
                        k as int,
                        0,
                        true,
                        ida as int,
                        idb as int,
                    );
                }
            } else {
                proof {
                    lemma_substep(
                        pre0,
                        counts@,
                        n as int,
                        w as int,
                        h as int,
                        ids,
                        k as int,
                        0,
                        false,
                        0,
                        0,
                    );
                }
            }
            let ghost pre1 = counts@;
            if (y as i64) < (h as i64) - 1 {
                proof {
                    crate::tile::lemma_rowmajor_bound(w as int, h as int, kx, ky + 1);
                    lemma_num_ids_bound(ids, (ky + 1) * (w as int) + kx);
                    lemma_count_pairs_le(
                        w as int,
                        h as int,
                        ids,
                        ida as int,
                        ids[(ky + 1) * (w as int) + kx] as int,
                        Direction::DOWN,
                        4 * (k as int) + 1,
                    );
                }
                let idb = self.pixel_to_id[(y + 1) * (w as usize) + x];
                proof {
                    assert(Direction::DOWN.spec_idx() == 1);
                    assert(idb == ids[(ky + 1) * (w as int) + kx]);
                    assert(counts@[ida as int]@[idb as int]@[1int] as int == count_pairs(
                        w as int,
                        h as int,
                        ids,
                        ida as int,
                        idb as int,
                        Direction::DOWN,
                        4 * (k as int) + 1,
                    ));
                }
                bump(&mut counts, ida, idb, 1);
                proof {
                    lemma_substep(
                        pre1,
                        counts@,
                        n as int,
                        w as int,
                        h as int,
                        ids,
                        k as int,
                        1,
                        true,
                        ida as int,
                        idb as int,
                    );
                }
            } else {
                proof {
                    lemma_substep(
                        pre1,
                        counts@,
                        n as int,
                        w as int,
                        h as int,
                        ids,
                        k as int,
                        1,
                        false,
                        0,
                        0,
                    );
                }
            }
            let ghost pre2 = counts@;
            if x > 0 {
                proof {
                    crate::tile::lemma_rowmajor_bound(w as int, h as int, kx - 1, ky);
                    lemma_num_ids_bound(ids, ky * (w as int) + (kx - 1));
                    lemma_count_pairs_le(
                        w as int,
                        h as int,
                        ids,
                        ida as int,
                        ids[ky * (w as int) + (kx - 1)] as int,
                        Direction::LEFT,
                        4 * (k as int) + 2,
                    );
                }
                let idb = self.pixel_to_id[k - 1];
                proof {
                    assert(Direction::LEFT.spec_idx() == 2);
                    assert(idb == ids[ky * (w as int) + (kx - 1)]);
                    assert(counts@[ida as int]@[idb as int]@[2int] as int == count_pairs(
                        w as int,
                        h as int,
                        ids,
                        ida as int,
                        idb as int,
                        Direction::LEFT,
                        4 * (k as int) + 2,
                    ));
                }
                bump(&mut counts, ida, idb, 2);
                proof {
                    lemma_substep(
                        pre2,
                        counts@,
                        n as int,
                        w as int,
                        h as int,
                        ids,
                        k as int,
                        2,
                        true,
                        ida as int,
                        idb as int,
                    );
                }
            } else {
                proof {
                    lemma_substep(
                        pre2,
                        counts@,
                        n as int,
                        w as int,
                        h as int,
                        ids,
                        k as int,
                        2,
                        false,
                        0,
                        0,
                    );
                }
            }
            let ghost pre3 = counts@;
            if (x as i64) < (w as i64) - 1 {
                proof {
                    crate::tile::lemma_rowmajor_bound(w as int, h as int, kx + 1, ky);
                    lemma_num_ids_bound(ids, ky * (w as int) + (kx + 1));
                    lemma_count_pairs_le(
                        w as int,
                        h as int,
                        ids,
                        ida as int,
                        ids[ky * (w as int) + (kx + 1)] as int,
                        Direction::RIGHT,
                        4 * (k as int) + 3,
                    );
                }
                let idb = self.pixel_to_id[k + 1];
                proof {
                    assert(Direction::RIGHT.spec_idx() == 3);
                    assert(idb == ids[ky * (w as int) + (kx + 1)]);
                    assert(counts@[ida as int]@[idb as int]@[3int] as int == count_pairs(
                        w as int,
                        h as int,
                        ids,
                        ida as int,
                        idb as int,
                        Direction::RIGHT,
                        4 * (k as int) + 3,
                    ));
                }
                bump(&mut counts, ida, idb, 3);
                proof {
                    lemma_substep(
                        pre3,
                        counts@,
                        n as int,
                        w as int,
                        h as int,
                        ids,
                        k as int,
                        3,
                        true,
                        ida as int,
                        idb as int,
                    );
                }
            } else {
                proof {
                    lemma_substep(
                        pre3,
                        counts@,
                        n as int,
                        w as int,
                        h as int,
                        ids,
                        k as int,
                        3,
                        false,
                        0,
                        0,
                    );
                }
            }
            proof {
                assert(4 * ((k as int) + 1) == 4 * (k as int) + 4) by (nonlinear_arith);
            }
            k += 1;
        }
        counts
    }
}

/// Add one to a single slot of the tally table, leaving every other slot
/// as it was.
fn bump(counts: &mut Vec<Vec<Vec<u64>>>, a: usize, b: usize, di: usize)
    requires
        a < old(counts)@.len(),
        forall|i: int|
            0 <= i < old(counts)@.len() ==> (#[trigger] old(counts)@[i])@.len() == old(counts)@.len(),
        forall|i: int, j: int|
            0 <= i < old(counts)@.len() && 0 <= j < old(counts)@.len() ==> (#[trigger] old(counts)@[i]@[j])@.len() == 4,
        b < old(counts)@.len(),
        di < 4,
        old(counts)@[a as int]@[b as int]@[di as int] < u64::MAX,
    ensures
        final(counts)@.len() == old(counts)@.len(),
        forall|i: int|
            0 <= i < final(counts)@.len() ==> (#[trigger] final(counts)@[i])@.len() == final(counts)@.len(),
        forall|i: int, j: int|
            0 <= i < final(counts)@.len() && 0 <= j < final(counts)@.len() ==> (#[trigger] final(counts)@[i]@[j])@.len() == 4,
        final(counts)@[a as int]@[b as int]@[di as int] == old(counts)@[a as int]@[b as int]@[di as int]
            + 1,
        forall|i: int, j: int, k: int|
            0 <= i < old(counts)@.len() && 0 <= j < old(counts)@.len() && 0 <= k < 4 && !(i == a
                && j == b && k == di) ==> (#[trigger] final(counts)@[i]@[j]@[k]) == old(counts)@[i]@[j]@[k],
{
    let v = counts[a][b][di];
    counts[a][b][di] = v + 1;
}

} // verus!
