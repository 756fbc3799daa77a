use vstd::prelude::*;

use crate::direction::Direction;
use crate::error::WfcError;
use crate::image::Image;
use crate::mode::Mode;
use crate::tile::Tile;
use crate::types::Id;

verus! {

/// The sum of a sequence of occurrence counts.
pub open spec fn sum_u64(s: Seq<u64>) -> int
    decreases s.len(),
{
    if s.len() == 0 {
        0
    } else {
        sum_u64(s.drop_last()) + s.last()
    }
}

/// Appending a count adds it to the sum.
pub proof fn lemma_sum_push(s: Seq<u64>, v: u64)
    ensures
        sum_u64(s.push(v)) == sum_u64(s) + v,
{
    assert(s.push(v).drop_last() =~= s);
}

/// Replacing one count changes the sum by the difference.
pub proof fn lemma_sum_update(s: Seq<u64>, i: int, v: u64)
    requires
        0 <= i < s.len(),
    ensures
        sum_u64(s.update(i, v)) == sum_u64(s) - s[i] + v,
    decreases s.len(),
{
    if i == s.len() - 1 {
        assert(s.update(i, v).drop_last() =~= s.drop_last());
    } else {
        assert(s.update(i, v).drop_last() =~= s.drop_last().update(i, v));
        lemma_sum_update(s.drop_last(), i, v);
    }
}

/// No count exceeds the sum of all counts.
pub proof fn lemma_sum_element_le(s: Seq<u64>, i: int)
    requires
        0 <= i < s.len(),
    ensures
        s[i] <= sum_u64(s),
        sum_u64(s) >= 0,
    decreases s.len(),
{
    if s.len() > 0 {
        lemma_sum_nonneg(s.drop_last());
        if i < s.len() - 1 {
            lemma_sum_element_le(s.drop_last(), i);
        }
    }
}

/// A sum of counts is never negative.
pub proof fn lemma_sum_nonneg(s: Seq<u64>)
    ensures
        sum_u64(s) >= 0,
    decreases s.len(),
{
    if s.len() > 0 {
        lemma_sum_nonneg(s.drop_last());
    }
}

/// The content of the `tw`-by-`th` window of `image` whose top left corner
/// is `(x, y)`, read with toroidal wrap at the source edges.
pub open spec fn spec_window(image: &Image, x: int, y: int, tw: int, th: int, t: Tile) -> bool {
    &&& t.width == tw
    &&& t.height == th
    &&& forall|i: int, j: int|
        0 <= i < tw && 0 <= j < th ==> #[trigger] t.spec_at(i, j) == image.spec_at(
            (x + i) % (image.width as int),
            (y + j) % (image.height as int),
        )
}

/// The window origins the overlap strategy visits, in visiting order:
/// every source coordinate, row by row.
pub open spec fn overlap_origins(w: int, h: int) -> Seq<(int, int)> {
    Seq::new((w * h) as nat, |k: int| (k % w, k / w))
}

/// The window origins the tiled strategy visits: the top-left corner of
/// each partition, row by row.
pub open spec fn tiled_origins(gw: int, gh: int, tw: int, th: int) -> Seq<(int, int)> {
    Seq::new((gw * gh) as nat, |k: int| ((k % gw) * tw, (k / gw) * th))
}

/// How many of the first `k` visited windows hold exactly the content of
/// tile `t`.
pub open spec fn count_matching(
    image: &Image,
    tw: int,
    th: int,
    t: Tile,
    origins: Seq<(int, int)>,
    k: int,
) -> int
    decreases k,
{
    if k <= 0 {
        0
    } else {
        count_matching(image, tw, th, t, origins, k - 1) + if spec_window(
            image,
            origins[k - 1].0,
            origins[k - 1].1,
            tw,
            th,
            t,
        ) {
            1int
        } else {
            0int
        }
    }
}

/// A tile matching none of the first `k` windows occurs zero times among
/// them.
pub proof fn lemma_count_unmatched_zero(
    image: &Image,
    tw: int,
    th: int,
    t: Tile,
    origins: Seq<(int, int)>,
    k: int,
)
    requires
        forall|j: int|
            0 <= j < k ==> !spec_window(
                image,
                (#[trigger] origins[j]).0,
                origins[j].1,
                tw,
                th,
                t,
            ),
    ensures
        count_matching(image, tw, th, t, origins, k) == 0,
    decreases k,
{
    if k > 0 {
        lemma_count_unmatched_zero(image, tw, th, t, origins, k - 1);
    }
}

/// Two well-formed tiles holding the content of the same window hold the
/// same content.
pub proof fn lemma_window_unique(
    image: &Image,
    x: int,
    y: int,
    tw: int,
    th: int,
    a: Tile,
    b: Tile,
)
    requires
        a.wf(),
        b.wf(),
        tw >= 0,
        th >= 0,
        spec_window(image, x, y, tw, th, a),
        spec_window(image, x, y, tw, th, b),
    ensures
        a.same_content(&b),
{
    assert forall|p: int| 0 <= p < a.pixels@.len() implies a.pixels@[p] == b.pixels@[p] by {
        if tw > 0 {
            vstd::arithmetic::div_mod::lemma_fundamental_div_mod(p, tw);
            vstd::arithmetic::div_mod::lemma_mod_division_less_than_divisor(p, tw);
            let i = p % tw;
            let j = p / tw;
            assert(tw * j == j * tw) by (nonlinear_arith);
            assert(j < th) by (nonlinear_arith)
                requires
                    j * tw + i == p,
                    0 <= i < tw,
                    p < tw * th,
                    tw >= 1,
                    0 <= j,
                    0 <= th,
            ;
            assert(a.spec_at(i, j) == image.spec_at(
                (x + i) % (image.width as int),
                (y + j) % (image.height as int),
            ));
            assert(b.spec_at(i, j) == image.spec_at(
                (x + i) % (image.width as int),
                (y + j) % (image.height as int),
            ));
        } else {
            assert(a.pixels@.len() == 0) by (nonlinear_arith)
                requires
                    a.pixels@.len() == tw * th,
                    tw == 0,
            ;
        }
    }
    assert(a.pixels@ =~= b.pixels@);
}

/// A tile with the same content as one matching a window matches it too.
pub proof fn lemma_window_same_content(
    image: &Image,
    x: int,
    y: int,
    tw: int,
    th: int,
    a: Tile,
    b: Tile,
)
    requires
        spec_window(image, x, y, tw, th, a),
        b.same_content(&a),
    ensures
        spec_window(image, x, y, tw, th, b),
{
    assert forall|i: int, j: int|
        0 <= i < tw && 0 <= j < th implies #[trigger] b.spec_at(i, j) == image.spec_at(
        (x + i) % (image.width as int),
        (y + j) % (image.height as int),
    ) by {
        assert(a.spec_at(i, j) == image.spec_at(
            (x + i) % (image.width as int),
            (y + j) % (image.height as int),
        ));
    }
}

/// A tile occurring among the first `k` visited windows matches one of
/// them.
pub proof fn lemma_count_pos_window(
    image: &Image,
    tw: int,
    th: int,
    t: Tile,
    origins: Seq<(int, int)>,
    k: int,
)
    requires
        count_matching(image, tw, th, t, origins, k) > 0,
    ensures
        exists|j: int|
            0 <= j < k && spec_window(image, (#[trigger] origins[j]).0, origins[j].1, tw, th, t),
    decreases k,
{
    if k > 0 {
        if spec_window(image, origins[k - 1].0, origins[k - 1].1, tw, th, t) {
            assert(0 <= k - 1 < k && spec_window(
                image,
                (#[trigger] origins[k - 1]).0,
                origins[k - 1].1,
                tw,
                th,
                t,
            ));
        } else {
            lemma_count_pos_window(image, tw, th, t, origins, k - 1);
            let j = choose|j: int|
                0 <= j < k - 1 && spec_window(
                    image,
                    (#[trigger] origins[j]).0,
                    origins[j].1,
                    tw,
                    th,
                    t,
                );
            assert(0 <= j < k && spec_window(
                image,
                (#[trigger] origins[j]).0,
                origins[j].1,
                tw,
                th,
                t,
            ));
        }
    }
}

/// The windows at `(x1, y1)` and `(x2, y2)` agree wherever the first,
/// slid one step in `d`, still overlaps the second: the overlap rule
/// between their contents, read directly off the source.
pub open spec fn spec_windows_compatible(
    image: &Image,
    x1: int,
    y1: int,
    x2: int,
    y2: int,
    tw: int,
    th: int,
    d: Direction,
) -> bool {
    let dx = crate::tile::direction_offset(d).0;
    let dy = crate::tile::direction_offset(d).1;
    forall|i: int, j: int|
        0 <= i < tw && 0 <= j < th && 0 <= i + dx < tw && 0 <= j + dy < th ==> image.spec_at(
            (x1 + i + dx) % (image.width as int),
            (y1 + j + dy) % (image.height as int),
        ) == #[trigger] image.spec_at(
            (x2 + i) % (image.width as int),
            (y2 + j) % (image.height as int),
        )
}

/// Every ordered pair of source windows is compatible in every
/// direction; the relation an overlap catalog of this source induces is
/// then complete.
pub open spec fn spec_all_windows_compatible(image: &Image, tw: int, th: int) -> bool {
    forall|k1: int, k2: int, d: Direction|
        0 <= k1 < (image.width as int) * (image.height as int) && 0 <= k2 < (image.width as int)
            * (image.height as int) ==> #[trigger] spec_windows_compatible(
            image,
            overlap_origins(image.width as int, image.height as int)[k1].0,
            overlap_origins(image.width as int, image.height as int)[k1].1,
            overlap_origins(image.width as int, image.height as int)[k2].0,
            overlap_origins(image.width as int, image.height as int)[k2].1,
            tw,
            th,
            d,
        )
}

/// Two window contents compare under the overlap rule exactly when the
/// windows themselves are compatible on the source.
pub proof fn lemma_window_compare_transfer(
    image: &Image,
    x1: int,
    y1: int,
    x2: int,
    y2: int,
    tw: int,
    th: int,
    a: Tile,
    b: Tile,
    d: Direction,
)
    requires
        spec_window(image, x1, y1, tw, th, a),
        spec_window(image, x2, y2, tw, th, b),
    ensures
        crate::tile::spec_compare_overlap(&a, d, &b) == spec_windows_compatible(
            image,
            x1,
            y1,
            x2,
            y2,
            tw,
            th,
            d,
        ),
{
    let dx = crate::tile::direction_offset(d).0;
    let dy = crate::tile::direction_offset(d).1;
    if crate::tile::spec_compare_overlap(&a, d, &b) {
        assert forall|i: int, j: int|
            0 <= i < tw && 0 <= j < th && 0 <= i + dx < tw && 0 <= j + dy < th implies image.spec_at(
            (x1 + i + dx) % (image.width as int),
            (y1 + j + dy) % (image.height as int),
        ) == #[trigger] image.spec_at(
            (x2 + i) % (image.width as int),
            (y2 + j) % (image.height as int),
        ) by {
            assert(a.spec_at(i + dx, j + dy) == image.spec_at(
                (x1 + (i + dx)) % (image.width as int),
                (y1 + (j + dy)) % (image.height as int),
            ));
            assert(b.spec_at(i, j) == image.spec_at(
                (x2 + i) % (image.width as int),
                (y2 + j) % (image.height as int),
            ));
            assert(a.spec_at(i + dx, j + dy) == b.spec_at(i, j));
        }
    }
    if spec_windows_compatible(image, x1, y1, x2, y2, tw, th, d) {
        assert forall|i: int, j: int|
            0 <= i < a.width && 0 <= j < a.height && 0 <= i + dx < a.width && 0 <= j + dy
                < a.height implies a.spec_at(i + dx, j + dy) == #[trigger] b.spec_at(i, j) by {
            assert(a.spec_at(i + dx, j + dy) == image.spec_at(
                (x1 + (i + dx)) % (image.width as int),
                (y1 + (j + dy)) % (image.height as int),
            ));
            assert(b.spec_at(i, j) == image.spec_at(
                (x2 + i) % (image.width as int),
                (y2 + j) % (image.height as int),
            ));
            assert(image.spec_at(
                (x1 + i + dx) % (image.width as int),
                (y1 + j + dy) % (image.height as int),
            ) == image.spec_at(
                (x2 + i) % (image.width as int),
                (y2 + j) % (image.height as int),
            ));
        }
    }
}

/// Every count in the catalog is the exact number of matching windows
/// among the first `k` visited.
pub open spec fn counts_exact(
    image: &Image,
    tw: int,
    th: int,
    tiles: Seq<Tile>,
    freqs: Seq<u64>,
    origins: Seq<(int, int)>,
    k: int,
) -> bool {
    forall|i: int|
        0 <= i < tiles.len() ==> (#[trigger] freqs[i]) == count_matching(
            image,
            tw,
            th,
            tiles[i],
            origins,
            k,
        )
}

/// Each of the first `k` visited windows already has its content in the
/// catalog.
pub open spec fn covers_upto(
    image: &Image,
    tw: int,
    th: int,
    tiles: Seq<Tile>,
    origins: Seq<(int, int)>,
    k: int,
) -> bool {
    forall|k2: int|
        0 <= k2 < k ==> exists|i: int|
            0 <= i < tiles.len() && spec_window(
                image,
                (#[trigger] origins[k2]).0,
                origins[k2].1,
                tw,
                th,
                tiles[i],
            )
}

/// Registering the content of the `k`-th visited window keeps the counts
/// exact and the coverage complete, one window further.
#[verifier::rlimit(50)]
proof fn lemma_register_step(
    image: &Image,
    tw: int,
    th: int,
    origins: Seq<(int, int)>,
    k: int,
    wt: Tile,
    pre_tiles: Seq<Tile>,
    pre_freqs: Seq<u64>,
    post_tiles: Seq<Tile>,
    post_freqs: Seq<u64>,
)
    requires
        0 <= k < origins.len(),
        tw >= 1,
        th >= 1,
        wt.wf(),
        wt.width == tw,
        wt.height == th,
        spec_window(image, origins[k].0, origins[k].1, tw, th, wt),
        pre_tiles.len() == pre_freqs.len(),
        forall|i: int|
            0 <= i < pre_tiles.len() ==> (#[trigger] pre_tiles[i]).wf() && pre_tiles[i].width == tw
                && pre_tiles[i].height == th,
        forall|i: int, j: int|
            0 <= i < j < pre_tiles.len() ==> !(#[trigger] pre_tiles[i]).same_content(
                #[trigger] &pre_tiles[j],
            ),
        counts_exact(image, tw, th, pre_tiles, pre_freqs, origins, k),
        covers_upto(image, tw, th, pre_tiles, origins, k),
        (exists|i: int| 0 <= i < pre_tiles.len() && (#[trigger] pre_tiles[i]).same_content(&wt))
            ==> post_tiles == pre_tiles && exists|i: int|
            0 <= i < pre_tiles.len() && (#[trigger] pre_tiles[i]).same_content(&wt) && post_freqs
                == pre_freqs.update(i, (pre_freqs[i] + 1) as u64),
        !(exists|i: int| 0 <= i < pre_tiles.len() && (#[trigger] pre_tiles[i]).same_content(&wt))
            ==> post_tiles == pre_tiles.push(wt) && post_freqs == pre_freqs.push(1u64),
        sum_u64(pre_freqs) < u64::MAX,
    ensures
        counts_exact(image, tw, th, post_tiles, post_freqs, origins, k + 1),
        covers_upto(image, tw, th, post_tiles, origins, k + 1),
{
    let x = origins[k].0;
    let y = origins[k].1;
    if exists|i: int| 0 <= i < pre_tiles.len() && (#[trigger] pre_tiles[i]).same_content(&wt) {
        let i = choose|i: int|
            0 <= i < pre_tiles.len() && (#[trigger] pre_tiles[i]).same_content(&wt) && post_freqs
                == pre_freqs.update(i, (pre_freqs[i] + 1) as u64);
        lemma_sum_element_le(pre_freqs, i);
        lemma_window_same_content(image, x, y, tw, th, wt, pre_tiles[i]);
        assert forall|j: int|
            0 <= j < post_tiles.len() implies (#[trigger] post_freqs[j]) == count_matching(
            image,
            tw,
            th,
            post_tiles[j],
            origins,
            k + 1,
        ) by {
            if j == i {
                assert(count_matching(image, tw, th, pre_tiles[i], origins, k + 1)
                    == count_matching(image, tw, th, pre_tiles[i], origins, k) + 1);
            } else {
                if spec_window(image, x, y, tw, th, pre_tiles[j]) {
                    lemma_window_unique(image, x, y, tw, th, pre_tiles[j], pre_tiles[i]);
                    if j < i {
                        assert(!pre_tiles[j].same_content(&pre_tiles[i]));
                    } else {
                        assert(!pre_tiles[i].same_content(&pre_tiles[j]));
                        assert(pre_tiles[i].same_content(&pre_tiles[j]));
                    }
                    assert(false);
                }
                assert(count_matching(image, tw, th, pre_tiles[j], origins, k + 1)
                    == count_matching(image, tw, th, pre_tiles[j], origins, k));
            }
        }
        assert forall|k2: int|
            0 <= k2 < k + 1 implies exists|i2: int|
            0 <= i2 < post_tiles.len() && spec_window(
                image,
                (#[trigger] origins[k2]).0,
                origins[k2].1,
                tw,
                th,
                post_tiles[i2],
            ) by {
            if k2 == k {
                assert(spec_window(image, origins[k2].0, origins[k2].1, tw, th, post_tiles[i]));
            }
        }
    } else {
        let n0 = pre_tiles.len() as int;
        assert(post_tiles[n0] == wt);
        assert forall|k2: int|
            0 <= k2 < k implies !spec_window(
            image,
            (#[trigger] origins[k2]).0,
            origins[k2].1,
            tw,
            th,
            wt,
        ) by {
            if spec_window(image, origins[k2].0, origins[k2].1, tw, th, wt) {
                let i2 = choose|i2: int|
                    0 <= i2 < pre_tiles.len() && spec_window(
                        image,
                        origins[k2].0,
                        origins[k2].1,
                        tw,
                        th,
                        pre_tiles[i2],
                    );
                lemma_window_unique(image, origins[k2].0, origins[k2].1, tw, th, pre_tiles[i2], wt);
                assert(pre_tiles[i2].same_content(&wt));
                assert(false);
            }
        }
        lemma_count_unmatched_zero(image, tw, th, wt, origins, k);
        assert forall|j: int|
            0 <= j < post_tiles.len() implies (#[trigger] post_freqs[j]) == count_matching(
            image,
            tw,
            th,
            post_tiles[j],
            origins,
            k + 1,
        ) by {
            if j == n0 {
                assert(count_matching(image, tw, th, wt, origins, k + 1) == count_matching(
                    image,
                    tw,
                    th,
                    wt,
                    origins,
                    k,
                ) + 1);
            } else {
                if spec_window(image, x, y, tw, th, pre_tiles[j]) {
                    lemma_window_unique(image, x, y, tw, th, pre_tiles[j], wt);
                    assert(false);
                }
                assert(count_matching(image, tw, th, pre_tiles[j], origins, k + 1)
                    == count_matching(image, tw, th, pre_tiles[j], origins, k));
            }
        }
        assert forall|k2: int|
            0 <= k2 < k + 1 implies exists|i2: int|
            0 <= i2 < post_tiles.len() && spec_window(
                image,
                (#[trigger] origins[k2]).0,
                origins[k2].1,
                tw,
                th,
                post_tiles[i2],
            ) by {
            if k2 == k {
                assert(spec_window(image, origins[k2].0, origins[k2].1, tw, th, post_tiles[n0]));
            } else {
                let i2 = choose|i2: int|
                    0 <= i2 < pre_tiles.len() && spec_window(
                        image,
                        origins[k2].0,
                        origins[k2].1,
                        tw,
                        th,
                        pre_tiles[i2],
                    );
                assert(spec_window(image, origins[k2].0, origins[k2].1, tw, th, post_tiles[i2]));
            }
        }
    }
}

/// Whether two tiles hold the same dimensions and samples.
fn tiles_equal(a: &Tile, b: &Tile) -> (r: bool)
    ensures
        r == a.same_content(b),
{
    if a.width != b.width || a.height != b.height || a.pixels.len() != b.pixels.len() {
        return false;
    }
    let mut i: usize = 0;
    while i < a.pixels.len()
        invariant
            i <= a.pixels@.len(),
            a.pixels@.len() == b.pixels@.len(),
            a.width == b.width,
            a.height == b.height,
            forall|j: int| 0 <= j < i ==> a.pixels@[j] == b.pixels@[j],
        decreases a.pixels@.len() - i,
    {
        let pa = a.pixels[i];
        let pb = b.pixels[i];
        let eq = pa[0] == pb[0] && pa[1] == pb[1] && pa[2] == pb[2];
        proof {
            broadcast use vstd::array::group_array_axioms;

            if eq {
                assert(pa =~= pb);
            } else {
                assert(pa != pb);
            }
        }
        if !eq {
            return false;
        }
        i += 1;
    }
    proof {
        assert(a.pixels@ =~= b.pixels@);
    }
    true
}

/// The identifier of the catalog tile holding exactly this content, if
/// the catalog holds one.
fn find_tile(tiles: &Vec<Tile>, t: &Tile) -> (r: Option<usize>)
    ensures
        match r {
            Some(i) => i < tiles@.len() && tiles@[i as int].same_content(t),
            None => forall|i: int| 0 <= i < tiles@.len() ==> !(#[trigger] tiles@[i]).same_content(t),
        },
{
    let mut i: usize = 0;
    while i < tiles.len()
        invariant
            i <= tiles@.len(),
            forall|j: int| 0 <= j < i ==> !(#[trigger] tiles@[j]).same_content(t),
        decreases tiles@.len() - i,
    {
        if tiles_equal(&tiles[i], t) {
            return Some(i);
        }
        i += 1;
    }
    None
}

/// Record one occurrence of tile content `t`: bump the count of the
/// catalog tile holding it, or add it to the catalog with count one.
fn register_tile(tiles: &mut Vec<Tile>, freqs: &mut Vec<u64>, t: Tile)
    requires
        old(tiles)@.len() == old(freqs)@.len(),
        sum_u64(old(freqs)@) < u64::MAX,
        forall|i: int, j: int|
            0 <= i < j < old(tiles)@.len() ==> !(#[trigger] old(tiles)@[i]).same_content(
                #[trigger] &old(tiles)@[j],
            ),
    ensures
        final(tiles)@.len() == final(freqs)@.len(),
        sum_u64(final(freqs)@) == sum_u64(old(freqs)@) + 1,
        forall|i: int, j: int|
            0 <= i < j < final(tiles)@.len() ==> !(#[trigger] final(tiles)@[i]).same_content(
                #[trigger] &final(tiles)@[j],
            ),
        (exists|i: int| 0 <= i < old(tiles)@.len() && (#[trigger] old(tiles)@[i]).same_content(&t))
            ==> final(tiles)@ == old(tiles)@ && exists|i: int|
            0 <= i < old(tiles)@.len() && (#[trigger] old(tiles)@[i]).same_content(&t) && final(freqs)@ == old(freqs)@.update(i, (old(freqs)@[i] + 1) as u64),
        !(exists|i: int|
            0 <= i < old(tiles)@.len() && (#[trigger] old(tiles)@[i]).same_content(&t)) ==> final(tiles)@ == old(tiles)@.push(t) && final(freqs)@ == old(freqs)@.push(1u64),
{
    match find_tile(tiles, &t) {
        Some(i) => {
            proof {
                lemma_sum_element_le(freqs@, i as int);
            }
            let f = freqs[i];
            freqs.set(i, f + 1);
            proof {
                lemma_sum_update(old(freqs)@, i as int, (f + 1) as u64);
                assert(old(tiles)@[i as int].same_content(&t));
            }
        }
        None => {
            tiles.push(t);
            freqs.push(1);
            proof {
                lemma_sum_push(old(freqs)@, 1u64);
                let nt = final(tiles)@[old(tiles)@.len() as int];
                assert forall|i: int, j: int|
                    0 <= i < j < final(tiles)@.len() implies !(#[trigger] final(tiles)@[i]).same_content(#[trigger] &final(tiles)@[j]) by {
                    if j == final(tiles)@.len() - 1 {
                        assert(!old(tiles)@[i].same_content(&nt));
                        if final(tiles)@[i].same_content(&final(tiles)@[j]) {
                            assert(false);
                        }
                    }
                }
            }
        }
    }
}

/// The `tw`-by-`th` window of `image` with top-left corner `(x0, y0)`,
/// wrapping toroidally at the source edges.
fn extract_window(image: &Image, x0: u32, y0: u32, tw: u32, th: u32) -> (t: Tile)
    requires
        image.wf(),
        image.width >= 1,
        image.height >= 1,
        image.width <= i32::MAX,
        image.height <= i32::MAX,
        x0 < image.width,
        y0 < image.height,
    ensures
        t.wf(),
        t.width == tw,
        t.height == th,
        spec_window(image, x0 as int, y0 as int, tw as int, th as int, t),
{
    let w = image.width;
    let h = image.height;
    let mut pixels: Vec<crate::color::RGB> = Vec::new();
    let mut j: u32 = 0;
    while j < th
        invariant
            j <= th,
            image.wf(),
            w == image.width,
            h == image.height,
            1 <= w <= i32::MAX,
            1 <= h <= i32::MAX,
            x0 < w,
            y0 < h,
            pixels@.len() == j * tw,
            forall|ii: int, jj: int|
                0 <= ii < tw && 0 <= jj < j ==> #[trigger] pixels@[jj * tw + ii]
                    == image.spec_at((x0 + ii) % (w as int), (y0 + jj) % (h as int)),
        decreases th - j,
    {
        let mut i: u32 = 0;
        while i < tw
            invariant
                i <= tw,
                j < th,
                image.wf(),
                w == image.width,
                h == image.height,
                1 <= w <= i32::MAX,
                1 <= h <= i32::MAX,
                x0 < w,
                y0 < h,
                pixels@.len() == j * tw + i,
                forall|ii: int, jj: int|
                    0 <= ii < tw && 0 <= jj < j ==> #[trigger] pixels@[jj * tw + ii]
                        == image.spec_at((x0 + ii) % (w as int), (y0 + jj) % (h as int)),
                forall|ii: int|
                    0 <= ii < i ==> #[trigger] pixels@[j * tw + ii] == image.spec_at(
                        (x0 + ii) % (w as int),
                        (y0 + j) % (h as int),
                    ),
            decreases tw - i,
        {
            let sx = ((x0 as u64 + i as u64) % (w as u64)) as u32;
            let sy = ((y0 as u64 + j as u64) % (h as u64)) as u32;
            proof {
                vstd::arithmetic::div_mod::lemma_mod_division_less_than_divisor(
                    (x0 + i) as int,
                    w as int,
                );
                vstd::arithmetic::div_mod::lemma_mod_division_less_than_divisor(
                    (y0 + j) as int,
                    h as int,
                );
            }
            let p = image.at(crate::vector2::Vector2 { x: sx as i32, y: sy as i32 });
            pixels.push(p);
            proof {
                assert forall|ii: int, jj: int|
                    0 <= ii < tw && 0 <= jj < j implies #[trigger] pixels@[jj * tw + ii]
                    == image.spec_at((x0 + ii) % (w as int), (y0 + jj) % (h as int)) by {
                    crate::tile::lemma_row_lt(tw as int, ii, jj, j as int);
                }
            }
            i += 1;
        }
        proof {
            assert((j + 1) * tw == j * tw + tw) by (nonlinear_arith);
        }
        j += 1;
    }
    let t = Tile { width: tw, height: th, pixels };
    proof {
        assert(th * tw == tw * th) by (nonlinear_arith);
    }
    t
}

/// All data the solver reads: the distinct tiles of a source, how often
/// each occurred there, and (for the tiled strategy) which tile sat at
/// each partition position.
pub struct Model {
    pub mode: Mode,
    pub tile_dimensions: (u32, u32),
    /// The distinct tiles; the index of a tile is its identifier.
    pub tiles: Vec<Tile>,
    /// Occurrence count of each tile, indexed by identifier. Counts are
    /// kept as integers: only their relative magnitude matters when the
    /// solver draws a tile at random.
    pub frequency_hints: Vec<u64>,
    /// Partition columns and rows of the source (tiled strategy only).
    pub positions_width: usize,
    pub positions_height: usize,
    /// The identifier of the tile seen at each partition position,
    /// row-major (tiled strategy only; empty for the overlap strategy).
    pub position_to_tile: Vec<Id>,
}

impl Model {
    /// The catalog is consistent: one positive count per distinct tile,
    /// all tiles of the stated size, and every recorded position holding a
    /// real identifier.
    pub open spec fn wf(&self) -> bool {
        &&& self.tiles@.len() >= 1
        &&& self.frequency_hints@.len() == self.tiles@.len()
        &&& self.tile_dimensions.0 >= 1
        &&& self.tile_dimensions.1 >= 1
        &&& forall|i: int|
            0 <= i < self.tiles@.len() ==> (#[trigger] self.tiles@[i]).wf()
                && self.tiles@[i].width == self.tile_dimensions.0 && self.tiles@[i].height
                == self.tile_dimensions.1
        &&& forall|i: int, j: int|
            0 <= i < j < self.tiles@.len() ==> !#[trigger] self.tiles@[i].same_content(
                #[trigger] &self.tiles@[j],
            )
        &&& forall|i: int|
            0 <= i < self.frequency_hints@.len() ==> (#[trigger] self.frequency_hints@[i]) >= 1
        &&& self.position_to_tile@.len() == self.positions_width * self.positions_height
        &&& forall|k: int|
            0 <= k < self.position_to_tile@.len() ==> (#[trigger] self.position_to_tile@[k])
                < self.tiles@.len()
        &&& self.mode == Mode::Overlap ==> self.position_to_tile@.len() == 0
    }

    /// Build the catalog the overlap strategy sees: slide a `tw`-by-`th`
    /// window over every source coordinate (wrapping toroidally at the
    /// edges), record each distinct block once, and count its
    /// occurrences. The counts are the frequency hints: they sum to the
    /// number of windows visited and every cataloged tile's count is
    /// positive.
    #[verifier::rlimit(100)]
    pub fn overlap(image: &Image, tile_dimensions: (u32, u32), with_tile_variations: bool) -> (r:
        Result<Model, WfcError>)
        requires
            image.wf(),
            image.width <= i32::MAX,
            image.height <= i32::MAX,
            with_tile_variations ==> tile_dimensions.0 == tile_dimensions.1,
            with_tile_variations ==> 8 * ((image.width as int) * (image.height as int)) <= u64::MAX,
        ensures
            (r matches Err(_)) <==> (image.width == 0 || image.height == 0 || tile_dimensions.0
                == 0 || tile_dimensions.1 == 0),
            r matches Err(e) ==> e == WfcError::Configuration,
            r matches Ok(m) ==> {
                &&& m.wf()
                &&& m.mode == Mode::Overlap
                &&& m.tile_dimensions == tile_dimensions
                &&& m.position_to_tile@.len() == 0
                &&& sum_u64(m.frequency_hints@) == (if with_tile_variations {
                    8int
                } else {
                    1int
                }) * ((image.width as int) * (image.height as int))
                &&& !with_tile_variations ==> counts_exact(
                    image,
                    tile_dimensions.0 as int,
                    tile_dimensions.1 as int,
                    m.tiles@,
                    m.frequency_hints@,
                    overlap_origins(image.width as int, image.height as int),
                    (image.width as int) * (image.height as int),
                )
                &&& !with_tile_variations ==> covers_upto(
                    image,
                    tile_dimensions.0 as int,
                    tile_dimensions.1 as int,
                    m.tiles@,
                    overlap_origins(image.width as int, image.height as int),
                    (image.width as int) * (image.height as int),
                )
            },
    {
        let w = image.width;
        let h = image.height;
        let tw = tile_dimensions.0;
        let th = tile_dimensions.1;
        if w == 0 || h == 0 || tw == 0 || th == 0 {
            return Err(WfcError::Configuration);
        }
        proof {
            assert(image.pixels.len() == image.pixels@.len());
            assert((w as int) * (h as int) <= usize::MAX);
        }
        let total = (w as usize) * (h as usize);
        let ghost origins = overlap_origins(w as int, h as int);
        let mut tiles: Vec<Tile> = Vec::new();
        let mut freqs: Vec<u64> = Vec::new();
        let mut k: usize = 0;
        while k < total
            invariant
                image.wf(),
                w == image.width,
                h == image.height,
                1 <= w <= i32::MAX,
                1 <= h <= i32::MAX,
                tw == tile_dimensions.0,
                th == tile_dimensions.1,
                tw >= 1,
                th >= 1,
                with_tile_variations ==> tw == th,
                with_tile_variations ==> 8 * ((w as int) * (h as int)) <= u64::MAX,
                total == (w as int) * (h as int),
                k <= total,
                origins == overlap_origins(w as int, h as int),
                origins.len() == total,
                tiles@.len() == freqs@.len(),
                forall|i: int|
                    0 <= i < tiles@.len() ==> (#[trigger] tiles@[i]).wf() && tiles@[i].width == tw
                        && tiles@[i].height == th,
                forall|i: int, j: int|
                    0 <= i < j < tiles@.len() ==> !(#[trigger] tiles@[i]).same_content(
                        #[trigger] &tiles@[j],
                    ),
                forall|i: int| 0 <= i < freqs@.len() ==> (#[trigger] freqs@[i]) >= 1,
                sum_u64(freqs@) == (if with_tile_variations {
                    8int
                } else {
                    1int
                }) * (k as int),
                !with_tile_variations ==> counts_exact(
                    image,
                    tw as int,
                    th as int,
                    tiles@,
                    freqs@,
                    origins,
                    k as int,
                ),
                !with_tile_variations ==> covers_upto(
                    image,
                    tw as int,
                    th as int,
                    tiles@,
                    origins,
                    k as int,
                ),
            decreases total - k,
        {
            proof {
                vstd::arithmetic::div_mod::lemma_fundamental_div_mod(k as int, w as int);
                vstd::arithmetic::div_mod::lemma_mod_division_less_than_divisor(k as int, w as int);
                assert((w as int) * ((k as int) / (w as int)) == ((k as int) / (w as int)) * (
                w as int)) by (nonlinear_arith);
                assert((k as int) / (w as int) < h) by (nonlinear_arith)
                    requires
                        ((k as int) / (w as int)) * (w as int) + (k as int) % (w as int) == k,
                        0 <= (k as int) % (w as int) < w,
                        (k as int) < (w as int) * (h as int),
                        w >= 1,
                        0 <= (k as int) / (w as int),
                        0 <= h,
                ;
            }
            let x = (k % (w as usize)) as u32;
            let y = (k / (w as usize)) as u32;
            let wt = extract_window(image, x, y, tw, th);
            proof {
                assert(origins[k as int] == ((k as int) % (w as int), (k as int) / (w as int)));
            }
            if with_tile_variations {
                let mut vs = wt.permute();
                proof {
                    assert(8 * ((k as int) + 1) <= 8 * ((w as int) * (h as int)))
                        by (nonlinear_arith)
                        requires
                            (k as int) + 1 <= (w as int) * (h as int),
                    ;
                }
                while vs.len() > 0
                    invariant
                        vs@.len() <= 8,
                        tw == th,
                        tw >= 1,
                        tiles@.len() == freqs@.len(),
                        8 * ((k as int) + 1) <= 8 * ((w as int) * (h as int)),
                        8 * ((w as int) * (h as int)) <= u64::MAX,
                        forall|i: int|
                            0 <= i < vs@.len() ==> (#[trigger] vs@[i]).wf() && vs@[i].width == tw
                                && vs@[i].height == th,
                        forall|i: int|
                            0 <= i < tiles@.len() ==> (#[trigger] tiles@[i]).wf()
                                && tiles@[i].width == tw && tiles@[i].height == th,
                        forall|i: int, j: int|
                            0 <= i < j < tiles@.len() ==> !(#[trigger] tiles@[i]).same_content(
                                #[trigger] &tiles@[j],
                            ),
                        forall|i: int| 0 <= i < freqs@.len() ==> (#[trigger] freqs@[i]) >= 1,
                        sum_u64(freqs@) == 8 * (k as int) + (8 - vs@.len()),
                    decreases vs@.len(),
                {
                    let v = match vs.pop() {
                        Some(v) => v,
                        None => {
                            proof {
                                assert(false);
                            }
                            return Err(WfcError::Configuration);
                        }
                    };
                    let ghost pre_tiles = tiles@;
                    let ghost pre_freqs = freqs@;
                    proof {
                        lemma_sum_nonneg(pre_freqs);
                    }
                    register_tile(&mut tiles, &mut freqs, v);
                    proof {
                        assert forall|i: int|
                            0 <= i < freqs@.len() implies (#[trigger] freqs@[i]) >= 1 by {
                            if exists|i0: int|
                                0 <= i0 < pre_tiles.len() && (
                                #[trigger] pre_tiles[i0]).same_content(&v) {
                                let i0 = choose|i0: int|
                                    0 <= i0 < pre_tiles.len() && (
                                    #[trigger] pre_tiles[i0]).same_content(&v) && freqs@
                                        == pre_freqs.update(i0, (pre_freqs[i0] + 1) as u64);
                                lemma_sum_element_le(pre_freqs, i0);
                            }
                        }
                    }
                }
                proof {
                    assert(8 * ((k as int) + 1) == 8 * (k as int) + 8) by (nonlinear_arith);
                }
            } else {
                proof {
                    lemma_sum_nonneg(freqs@);
                }
                let ghost pre_tiles = tiles@;
                let ghost pre_freqs = freqs@;
                register_tile(&mut tiles, &mut freqs, wt);
                proof {
                    lemma_register_step(
                        image,
                        tw as int,
                        th as int,
                        origins,
                        k as int,
                        wt,
                        pre_tiles,
                        pre_freqs,
                        tiles@,
                        freqs@,
                    );
                }
            }
            k += 1;
        }
        proof {
            assert(total >= 1) by (nonlinear_arith)
                requires
                    total == (w as int) * (h as int),
                    w >= 1,
                    h >= 1,
            ;
            if tiles@.len() == 0 {
                assert(freqs@.len() == 0);
                assert(sum_u64(freqs@) == 0);
                assert((if with_tile_variations {
                    8int
                } else {
                    1int
                }) * (total as int) >= total) by (nonlinear_arith)
                    requires
                        total >= 0,
                ;
                assert(false);
            }
        }
        let m = Model {
            mode: Mode::Overlap,
            tile_dimensions,
            tiles,
            frequency_hints: freqs,
            positions_width: 0,
            positions_height: 0,
            position_to_tile: Vec::new(),
        };
        Ok(m)
    }

    /// Build the catalog the tiled strategy sees: the source must
    /// partition evenly into `tw`-by-`th` blocks; each partition's block
    /// is cataloged and counted, and the identifier seen at each
    /// partition position is recorded so the adjacency model can read
    /// the placement intent of the source.
    #[verifier::rlimit(100)]
    pub fn tiled(image: &Image, tile_dimensions: (u32, u32), with_tile_variations: bool) -> (r:
        Result<Model, WfcError>)
        requires
            image.wf(),
            image.width <= i32::MAX,
            image.height <= i32::MAX,
            with_tile_variations ==> tile_dimensions.0 == tile_dimensions.1,
            with_tile_variations ==> 8 * ((image.width as int) * (image.height as int))
                <= u64::MAX,
        ensures
            (r matches Err(_)) <==> (image.width == 0 || image.height == 0 || tile_dimensions.0
                == 0 || tile_dimensions.1 == 0 || image.width as int % tile_dimensions.0 as int
                != 0 || image.height as int % tile_dimensions.1 as int != 0),
            r matches Err(e) ==> e == WfcError::Configuration,
            r matches Ok(m) ==> {
                let gw = (image.width as int) / (tile_dimensions.0 as int);
                let gh = (image.height as int) / (tile_dimensions.1 as int);
                let origins = tiled_origins(
                    gw,
                    gh,
                    tile_dimensions.0 as int,
                    tile_dimensions.1 as int,
                );
                &&& m.wf()
                &&& m.mode == Mode::Tile
                &&& m.tile_dimensions == tile_dimensions
                &&& m.positions_width == gw
                &&& m.positions_height == gh
                &&& m.position_to_tile@.len() == gw * gh
                &&& forall|k: int|
                    0 <= k < m.position_to_tile@.len() ==> spec_window(
                        image,
                        (#[trigger] origins[k]).0,
                        origins[k].1,
                        tile_dimensions.0 as int,
                        tile_dimensions.1 as int,
                        m.tiles@[m.position_to_tile@[k] as int],
                    )
                &&& sum_u64(m.frequency_hints@) == (if with_tile_variations {
                    8int
                } else {
                    1int
                }) * (gw * gh)
                &&& !with_tile_variations ==> counts_exact(
                    image,
                    tile_dimensions.0 as int,
                    tile_dimensions.1 as int,
                    m.tiles@,
                    m.frequency_hints@,
                    origins,
                    gw * gh,
                )
            },
    {
        let w = image.width;
        let h = image.height;
        let tw = tile_dimensions.0;
        let th = tile_dimensions.1;
        if w == 0 || h == 0 || tw == 0 || th == 0 || w % tw != 0 || h % th != 0 {
            return Err(WfcError::Configuration);
        }
        let gw = w / tw;
        let gh = h / th;
        proof {
            vstd::arithmetic::div_mod::lemma_fundamental_div_mod(w as int, tw as int);
            vstd::arithmetic::div_mod::lemma_fundamental_div_mod(h as int, th as int);
            assert(w == (tw as int) * (gw as int));
            assert(h == (th as int) * (gh as int));
            assert(gw >= 1 && gh >= 1) by (nonlinear_arith)
                requires
                    w == (tw as int) * (gw as int),
                    h == (th as int) * (gh as int),
                    w >= 1,
                    h >= 1,
                    tw >= 1,
                    th >= 1,
                    gw >= 0,
                    gh >= 0,
            ;
            assert(image.pixels.len() == image.pixels@.len());
            assert((w as int) * (h as int) <= usize::MAX);
            assert((gw as int) * (gh as int) <= (w as int) * (h as int)) by (nonlinear_arith)
                requires
                    w == (tw as int) * (gw as int),
                    h == (th as int) * (gh as int),
                    tw >= 1,
                    th >= 1,
                    gw >= 0,
                    gh >= 0,
            ;
            if with_tile_variations {
                assert(8 * ((gw as int) * (gh as int)) <= 8 * ((w as int) * (h as int)))
                    by (nonlinear_arith)
                    requires
                        (gw as int) * (gh as int) <= (w as int) * (h as int),
                ;
            }
        }
        let total = (gw as usize) * (gh as usize);
        let ghost origins = tiled_origins(gw as int, gh as int, tw as int, th as int);
        let mut tiles: Vec<Tile> = Vec::new();
        let mut freqs: Vec<u64> = Vec::new();
        let mut position_to_tile: Vec<Id> = Vec::new();
        let mut k: usize = 0;
        while k < total
            invariant
                image.wf(),
                w == image.width,
                h == image.height,
                1 <= w <= i32::MAX,
                1 <= h <= i32::MAX,
                tw == tile_dimensions.0,
                th == tile_dimensions.1,
                tw >= 1,
                th >= 1,
                gw >= 1,
                gh >= 1,
                w == (tw as int) * (gw as int),
                h == (th as int) * (gh as int),
                with_tile_variations ==> tw == th,
                with_tile_variations ==> 8 * ((gw as int) * (gh as int)) <= u64::MAX,
                total == (gw as int) * (gh as int),
                k <= total,
                origins == tiled_origins(gw as int, gh as int, tw as int, th as int),
                origins.len() == total,
                tiles@.len() == freqs@.len(),
                forall|i: int|
                    0 <= i < tiles@.len() ==> (#[trigger] tiles@[i]).wf() && tiles@[i].width == tw
                        && tiles@[i].height == th,
                forall|i: int, j: int|
                    0 <= i < j < tiles@.len() ==> !(#[trigger] tiles@[i]).same_content(
                        #[trigger] &tiles@[j],
                    ),
                forall|i: int| 0 <= i < freqs@.len() ==> (#[trigger] freqs@[i]) >= 1,
                sum_u64(freqs@) == (if with_tile_variations {
                    8int
                } else {
                    1int
                }) * (k as int),
                !with_tile_variations ==> counts_exact(
                    image,
                    tw as int,
                    th as int,
                    tiles@,
                    freqs@,
                    origins,
                    k as int,
                ),
                !with_tile_variations ==> covers_upto(
                    image,
                    tw as int,
                    th as int,
                    tiles@,
                    origins,
                    k as int,
                ),
                position_to_tile@.len() == k,
                forall|k2: int|
                    0 <= k2 < k ==> (#[trigger] position_to_tile@[k2]) < tiles@.len(),
                forall|k2: int|
                    0 <= k2 < k ==> spec_window(
                        image,
                        (#[trigger] origins[k2]).0,
                        origins[k2].1,
                        tw as int,
                        th as int,
                        tiles@[position_to_tile@[k2] as int],
                    ),
            decreases total - k,
        {
            proof {
                vstd::arithmetic::div_mod::lemma_fundamental_div_mod(k as int, gw as int);
                vstd::arithmetic::div_mod::lemma_mod_division_less_than_divisor(
                    k as int,
                    gw as int,
                );
                assert((gw as int) * ((k as int) / (gw as int)) == ((k as int) / (gw as int)) * (
                gw as int)) by (nonlinear_arith);
                assert((k as int) / (gw as int) < gh) by (nonlinear_arith)
                    requires
                        ((k as int) / (gw as int)) * (gw as int) + (k as int) % (gw as int) == k,
                        0 <= (k as int) % (gw as int) < gw,
                        (k as int) < (gw as int) * (gh as int),
                        gw >= 1,
                        0 <= (k as int) / (gw as int),
                        0 <= gh,
                ;
            }
            let px = k % (gw as usize);
            let py = k / (gw as usize);
            proof {
                assert((px as int) * (tw as int) + (tw as int) <= w) by (nonlinear_arith)
                    requires
                        0 <= px < gw,
                        tw >= 1,
                        w == (tw as int) * (gw as int),
                ;
                assert((py as int) * (th as int) + (th as int) <= h) by (nonlinear_arith)
                    requires
                        0 <= py < gh,
                        th >= 1,
                        h == (th as int) * (gh as int),
                ;
            }
            let x0 = ((px as u64) * (tw as u64)) as u32;
            let y0 = ((py as u64) * (th as u64)) as u32;
            let wt = extract_window(image, x0, y0, tw, th);
            let ghost iter_tiles = tiles@;
            proof {
                assert(origins[k as int] == (
                    ((k as int) % (gw as int)) * (tw as int),
                    ((k as int) / (gw as int)) * (th as int),
                ));
            }
            if with_tile_variations {
                let mut vs = wt.permute();
                proof {
                    assert(8 * ((k as int) + 1) <= 8 * ((gw as int) * (gh as int)))
                        by (nonlinear_arith)
                        requires
                            (k as int) + 1 <= (gw as int) * (gh as int),
                    ;
                }
                while vs.len() > 0
                    invariant
                        vs@.len() <= 8,
                        tw == th,
                        tw >= 1,
                        tiles@.len() == freqs@.len(),
                        8 * ((k as int) + 1) <= 8 * ((gw as int) * (gh as int)),
                        8 * ((gw as int) * (gh as int)) <= u64::MAX,
                        vs@.len() >= 1 ==> vs@[0].same_content(&wt),
                        vs@.len() == 0 ==> exists|i: int|
                            0 <= i < tiles@.len() && (#[trigger] tiles@[i]).same_content(&wt),
                        iter_tiles.len() <= tiles@.len(),
                        forall|i: int| 0 <= i < iter_tiles.len() ==> tiles@[i] == iter_tiles[i],
                        forall|i: int|
                            0 <= i < vs@.len() ==> (#[trigger] vs@[i]).wf() && vs@[i].width == tw
                                && vs@[i].height == th,
                        forall|i: int|
                            0 <= i < tiles@.len() ==> (#[trigger] tiles@[i]).wf()
                                && tiles@[i].width == tw && tiles@[i].height == th,
                        forall|i: int, j: int|
                            0 <= i < j < tiles@.len() ==> !(#[trigger] tiles@[i]).same_content(
                                #[trigger] &tiles@[j],
                            ),
                        forall|i: int| 0 <= i < freqs@.len() ==> (#[trigger] freqs@[i]) >= 1,
                        sum_u64(freqs@) == 8 * (k as int) + (8 - vs@.len()),
                    decreases vs@.len(),
                {
                    let v = match vs.pop() {
                        Some(v) => v,
                        None => {
                            proof {
                                assert(false);
                            }
                            return Err(WfcError::Configuration);
                        }
                    };
                    let ghost pre_tiles = tiles@;
                    let ghost pre_freqs = freqs@;
                    proof {
                        lemma_sum_nonneg(pre_freqs);
                    }
                    register_tile(&mut tiles, &mut freqs, v);
                    proof {
                        assert forall|i: int|
                            0 <= i < freqs@.len() implies (#[trigger] freqs@[i]) >= 1 by {
                            if exists|i0: int|
                                0 <= i0 < pre_tiles.len() && (
                                #[trigger] pre_tiles[i0]).same_content(&v) {
                                let i0 = choose|i0: int|
                                    0 <= i0 < pre_tiles.len() && (
                                    #[trigger] pre_tiles[i0]).same_content(&v) && freqs@
                                        == pre_freqs.update(i0, (pre_freqs[i0] + 1) as u64);
                                lemma_sum_element_le(pre_freqs, i0);
                            }
                        }
                        if vs@.len() == 0 {
                            if exists|i0: int|
                                0 <= i0 < pre_tiles.len() && (
                                #[trigger] pre_tiles[i0]).same_content(&v) {
                                let i0 = choose|i0: int|
                                    0 <= i0 < pre_tiles.len() && (
                                    #[trigger] pre_tiles[i0]).same_content(&v);
                                assert(tiles@[i0].same_content(&wt));
                            } else {
                                assert(tiles@[pre_tiles.len() as int] == v);
                                assert(tiles@[pre_tiles.len() as int].same_content(&wt));
                            }
                        }
                    }
                }
                proof {
                    assert(8 * ((k as int) + 1) == 8 * (k as int) + 8) by (nonlinear_arith);
                }
            } else {
                proof {
                    lemma_sum_nonneg(freqs@);
                }
                let ghost pre_tiles = tiles@;
                let ghost pre_freqs = freqs@;
                let wcopy = crate::tile::copy_tile(&wt);
                let ghost wc = wcopy;
                register_tile(&mut tiles, &mut freqs, wcopy);
                proof {
                    assert(wc.wf());
                    lemma_window_same_content(
                        image,
                        origins[k as int].0,
                        origins[k as int].1,
                        tw as int,
                        th as int,
                        wt,
                        wc,
                    );
                    lemma_register_step(
                        image,
                        tw as int,
                        th as int,
                        origins,
                        k as int,
                        wc,
                        pre_tiles,
                        pre_freqs,
                        tiles@,
                        freqs@,
                    );
                    if exists|i: int|
                        0 <= i < pre_tiles.len() && (#[trigger] pre_tiles[i]).same_content(&wc) {
                        let i0 = choose|i0: int|
                            0 <= i0 < pre_tiles.len() && (#[trigger] pre_tiles[i0]).same_content(
                                &wc,
                            );
                        assert(tiles@[i0].same_content(&wt));
                    } else {
                        assert(tiles@[pre_tiles.len() as int] == wc);
                        assert(tiles@[pre_tiles.len() as int].same_content(&wt));
                    }
                }
            }
            let id = match find_tile(&tiles, &wt) {
                Some(i) => i,
                None => {
                    proof {
                        assert(false);
                    }
                    return Err(WfcError::Configuration);
                }
            };
            position_to_tile.push(id);
            proof {
                assert(tiles@[id as int].same_content(&wt));
                lemma_window_same_content(
                    image,
                    origins[k as int].0,
                    origins[k as int].1,
                    tw as int,
                    th as int,
                    wt,
                    tiles@[id as int],
                );
                assert(iter_tiles.len() <= tiles@.len());
                assert forall|k2: int|
                    0 <= k2 < k + 1 implies (#[trigger] position_to_tile@[k2]) < tiles@.len()
                    && spec_window(
                    image,
                    origins[k2].0,
                    origins[k2].1,
                    tw as int,
                    th as int,
                    tiles@[position_to_tile@[k2] as int],
                ) by {
                    if k2 < k {
                        assert(position_to_tile@[k2] < iter_tiles.len());
                        assert(tiles@[position_to_tile@[k2] as int] == iter_tiles[position_to_tile@[k2] as int]);
                    }
                }
            }
            k += 1;
        }
        proof {
            assert(total >= 1) by (nonlinear_arith)
                requires
                    total == (gw as int) * (gh as int),
                    gw >= 1,
                    gh >= 1,
            ;
            if tiles@.len() == 0 {
                assert(freqs@.len() == 0);
                assert(sum_u64(freqs@) == 0);
                assert((if with_tile_variations {
                    8int
                } else {
                    1int
                }) * (total as int) >= total) by (nonlinear_arith)
                    requires
                        total >= 0,
                ;
                assert(false);
            }
        }
        let m = Model {
            mode: Mode::Tile,
            tile_dimensions,
            tiles,
            frequency_hints: freqs,
            positions_width: gw as usize,
            positions_height: gh as usize,
            position_to_tile,
        };
        Ok(m)
    }

    /// How many tile identifiers the catalog holds.
    pub fn num_tiles(&self) -> (n: usize)
        ensures
            n == self.tiles@.len(),
    {
        self.tiles.len()
    }
}

} // verus!
