use vstd::prelude::*;

use crate::grid::{adjacent, grid_set, in_grid, lemma_closed_set_covers, lemma_flat_index_bound,
    lemma_flat_index_distinct, lemma_grid_set};
use crate::pendingkind::{has_key_eq, seq_inserted, seq_removed, PendingKind};
use crate::point::{key_eq, lemma_key_eq_same_coords, lemma_push_fresh_no_dup, mode_complete, Point};
use crate::rng::{gen_range_i64, gen_range_usize, shuffle_coords};
use rand::rngs::SmallRng;

verus! {

/// One committed colour: a red, green and blue byte.
#[derive(Debug, Clone, Copy, PartialEq, Eq, Structural)]
pub struct Color {
    pub r: u8,
    pub g: u8,
    pub b: u8,
}

/// The colour carried by a pending cell.
pub open spec fn point_color(p: Point) -> Color {
    Color { r: p.r, g: p.g, b: p.b }
}

/// Clamps a signed channel sum into the byte range, saturating at 0 and 255.
pub open spec fn clamp_channel(v: int) -> u8 {
    if v < 0 {
        0u8
    } else if v > 255 {
        255u8
    } else {
        v as u8
    }
}

/// Diffuses one channel: adds a uniformly drawn nonzero step from
/// `[-delta, delta]` and clamps the sum to the byte range. A zero bound
/// leaves the channel unchanged, since no nonzero step exists.
pub fn offset(value: u8, delta: i32, rng: &mut SmallRng) -> (r: u8)
    requires
        delta >= 0,
    ensures
        delta == 0 ==> r == value,
        delta > 0 ==> exists|d: int|
            -delta <= d <= delta && d != 0 && r == #[trigger] clamp_channel(value + d),
{
    if delta == 0 {
        return value;
    }
    let span = delta as i64;
    // The magnitudes 1..=span, once for each sign, laid out as 1..=2*span.
    let m = gen_range_i64(rng, 1, 2 * span + 1);
    let d: i64 = if m <= span {
        -m
    } else {
        m - span
    };
    let sum = value as i64 + d;
    let r: u8 = if sum < 0 {
        0
    } else if sum > 255 {
        255
    } else {
        sum as u8
    };
    proof {
        assert(-delta <= d as int <= delta && d as int != 0);
        assert(r == clamp_channel(value + d as int));
    }
    r
}

/// The in-grid neighbours of `(x, y)` in the fixed enumeration order.
pub open spec fn nbr_list(x: usize, y: usize, w: usize, h: usize) -> Seq<(usize, usize)> {
    let s0 = Seq::<(usize, usize)>::empty();
    let s1 = if x > 0 && y > 0 {
        s0.push(((x - 1) as usize, (y - 1) as usize))
    } else {
        s0
    };
    let s2 = if x > 0 {
        s1.push(((x - 1) as usize, y))
    } else {
        s1
    };
    let s3 = if x > 0 && y + 1 < h {
        s2.push(((x - 1) as usize, (y + 1) as usize))
    } else {
        s2
    };
    let s4 = if y > 0 {
        s3.push((x, (y - 1) as usize))
    } else {
        s3
    };
    let s5 = if y + 1 < h {
        s4.push((x, (y + 1) as usize))
    } else {
        s4
    };
    let s6 = if x + 1 < w && y > 0 {
        s5.push(((x + 1) as usize, (y - 1) as usize))
    } else {
        s5
    };
    let s7 = if x + 1 < w {
        s6.push(((x + 1) as usize, y))
    } else {
        s6
    };
    if x + 1 < w && y + 1 < h {
        s7.push(((x + 1) as usize, (y + 1) as usize))
    } else {
        s7
    }
}

/// `q` is an in-grid cell adjacent to `(x, y)`.
pub open spec fn is_grid_nbr(q: (usize, usize), x: usize, y: usize, w: usize, h: usize) -> bool {
    q.0 < w && q.1 < h && adjacent((x as int, y as int), (q.0 as int, q.1 as int))
}

/// The fixed enumeration lists exactly the in-grid neighbours, each once.
pub proof fn lemma_nbr_list(x: usize, y: usize, w: usize, h: usize)
    requires
        x < w,
        y < h,
    ensures
        forall|q: (usize, usize)| #[trigger] nbr_list(x, y, w, h).contains(q) <==> is_grid_nbr(
            q,
            x,
            y,
            w,
            h,
        ),
        nbr_list(x, y, w, h).no_duplicates(),
        nbr_list(x, y, w, h).len() <= 8,
{
    broadcast use vstd::seq_lib::lemma_seq_contains_after_push;

    let s = nbr_list(x, y, w, h);
    let s0 = Seq::<(usize, usize)>::empty();
    let s1 = if x > 0 && y > 0 {
        s0.push(((x - 1) as usize, (y - 1) as usize))
    } else {
        s0
    };
    let s2 = if x > 0 {
        s1.push(((x - 1) as usize, y))
    } else {
        s1
    };
    let s3 = if x > 0 && y + 1 < h {
        s2.push(((x - 1) as usize, (y + 1) as usize))
    } else {
        s2
    };
    let s4 = if y > 0 {
        s3.push((x, (y - 1) as usize))
    } else {
        s3
    };
    let s5 = if y + 1 < h {
        s4.push((x, (y + 1) as usize))
    } else {
        s4
    };
    let s6 = if x + 1 < w && y > 0 {
        s5.push(((x + 1) as usize, (y - 1) as usize))
    } else {
        s5
    };
    let s7 = if x + 1 < w {
        s6.push(((x + 1) as usize, y))
    } else {
        s6
    };
    let s8 = if x + 1 < w && y + 1 < h {
        s7.push(((x + 1) as usize, (y + 1) as usize))
    } else {
        s7
    };
    assert(s == s8);
    assert forall|q: (usize, usize)| #[trigger] s.contains(q) implies is_grid_nbr(
        q,
        x,
        y,
        w,
        h,
    ) by {
        assert(!s0.contains(q));
    }
    assert forall|q: (usize, usize)| is_grid_nbr(q, x, y, w, h) implies s.contains(q) by {
        let qx = q.0 as int;
        let qy = q.1 as int;
        assert(qx == x - 1 || qx == x || qx == x + 1);
        assert(qy == y - 1 || qy == y || qy == y + 1);
        assert(!s0.contains(q));
    }
    if x > 0 && y > 0 {
        lemma_push_fresh_no_dup(s0, ((x - 1) as usize, (y - 1) as usize));
    }
    if x > 0 {
        lemma_push_fresh_no_dup(s1, ((x - 1) as usize, y));
    }
    if x > 0 && y + 1 < h {
        lemma_push_fresh_no_dup(s2, ((x - 1) as usize, (y + 1) as usize));
    }
    if y > 0 {
        lemma_push_fresh_no_dup(s3, (x, (y - 1) as usize));
    }
    if y + 1 < h {
        lemma_push_fresh_no_dup(s4, (x, (y + 1) as usize));
    }
    if x + 1 < w && y > 0 {
        lemma_push_fresh_no_dup(s5, ((x + 1) as usize, (y - 1) as usize));
    }
    if x + 1 < w {
        lemma_push_fresh_no_dup(s6, ((x + 1) as usize, y));
    }
    if x + 1 < w && y + 1 < h {
        lemma_push_fresh_no_dup(s7, ((x + 1) as usize, (y + 1) as usize));
    }
    assert(s8.no_duplicates());
    assert(s8.len() <= 8);
}

/// Enumerates the in-grid neighbours of `(x, y)`. Without shuffling they
/// come in the fixed order of `nbr_list`; when `shuffle_chance` is nonzero,
/// one draw in `[0, 100)` below that chance permutes them uniformly.
pub fn neighbours(x: usize, y: usize, w: usize, h: usize, shuffle_chance: u8, rng: &mut SmallRng)
    -> (r: Vec<(usize, usize)>)
    requires
        x < w,
        y < h,
    ensures
        forall|q: (usize, usize)| #[trigger] r@.contains(q) <==> is_grid_nbr(q, x, y, w, h),
        r@.no_duplicates(),
        shuffle_chance == 0 ==> r@ == nbr_list(x, y, w, h),
{
    let mut result: Vec<(usize, usize)> = Vec::new();
    if x > 0 && y > 0 {
        result.push((x - 1, y - 1));
    }
    if x > 0 {
        result.push((x - 1, y));
    }
    if x > 0 && y + 1 < h {
        result.push((x - 1, y + 1));
    }
    if y > 0 {
        result.push((x, y - 1));
    }
    if y + 1 < h {
        result.push((x, y + 1));
    }
    if x + 1 < w && y > 0 {
        result.push((x + 1, y - 1));
    }
    if x + 1 < w {
        result.push((x + 1, y));
    }
    if x + 1 < w && y + 1 < h {
        result.push((x + 1, y + 1));
    }
    proof {
        assert(result@ == nbr_list(x, y, w, h));
        lemma_nbr_list(x, y, w, h);
    }
    if shuffle_chance != 0 {
        let draw = gen_range_usize(rng, 0, 100);
        if draw < shuffle_chance as usize {
            let ghost before = result@;
            shuffle_coords(rng, &mut result);
            proof {
                before.to_multiset_ensures();
                result@.to_multiset_ensures();
                before.lemma_multiset_has_no_duplicates();
                result@.lemma_multiset_has_no_duplicates_conv();
                assert forall|q: (usize, usize)| #[trigger] result@.contains(q) <==> is_grid_nbr(
                    q,
                    x,
                    y,
                    w,
                    h,
                ) by {
                    assert(result@.contains(q) <==> result@.to_multiset().count(q) > 0);
                    assert(before.contains(q) <==> before.to_multiset().count(q) > 0);
                }
            }
        }
    }
    result
}

/// The flag of the flattened claim grid at coordinate `(xx, yy)`.
pub open spec fn claimed_at(claimed: Seq<bool>, width: usize, xx: int, yy: int) -> bool {
    claimed[yy * width + xx]
}

/// The pixel of the flattened canvas at coordinate `(xx, yy)`.
pub open spec fn pixel_at(canvas: Seq<Color>, width: usize, xx: int, yy: int) -> Color {
    canvas[yy * width + xx]
}

/// Some frontier cell sits at coordinate `(xx, yy)`.
pub open spec fn frontier_has_coord(s: Seq<Point>, xx: int, yy: int) -> bool {
    exists|j: int| 0 <= j < s.len() && (#[trigger] s[j]).x == xx && s[j].y == yy
}

/// No two frontier cells share a coordinate.
pub open spec fn coords_distinct(s: Seq<Point>) -> bool {
    forall|j1: int, j2: int|
        0 <= j1 < j2 < s.len() ==> ((#[trigger] s[j1]).x != (#[trigger] s[j2]).x || s[j1].y
            != s[j2].y)
}

/// One of the seed cells carries exactly this colour.
pub open spec fn has_seed_color(seeds: Seq<Point>, c: Color) -> bool {
    exists|i: int| 0 <= i < seeds.len() && point_color(#[trigger] seeds[i]) == c
}

/// A valid seed list: nonempty, inside the grid, and all seeds sharing one
/// complete sort mode.
pub open spec fn seeds_ok(seeds: Seq<Point>, width: usize, height: usize) -> bool {
    &&& seeds.len() > 0
    &&& forall|i: int| 0 <= i < seeds.len() ==> (#[trigger] seeds[i]).x < width && seeds[i].y
        < height
    &&& forall|i: int| 0 <= i < seeds.len() ==> (#[trigger] seeds[i]).sort_mode
        == seeds[0].sort_mode
    &&& mode_complete(seeds[0].sort_mode)
}

/// What holds of each claimed-but-uncommitted cell while the engine runs.
spec fn frontier_cell_ok(
    p: Point,
    width: usize,
    height: usize,
    seeds: Seq<Point>,
    delta: i32,
    claimed: Seq<bool>,
    committed: Set<(int, int)>,
) -> bool {
    &&& p.x < width
    &&& p.y < height
    &&& claimed_at(claimed, width, p.x as int, p.y as int)
    &&& !committed.contains((p.x as int, p.y as int))
    &&& p.sort_mode == seeds[0].sort_mode
    &&& (delta == 0 ==> has_seed_color(seeds, point_color(p)))
}

/// The engine's main state invariant: the claim grid, the committed set,
/// the frontier and the counters all agree.
spec fn engine_inv(
    width: usize,
    height: usize,
    seeds: Seq<Point>,
    delta: i32,
    canvas: Seq<Color>,
    claimed: Seq<bool>,
    committed: Set<(int, int)>,
    claimed_set: Set<(int, int)>,
    pending: PendingKind,
    commits: usize,
    inserts: usize,
) -> bool {
    &&& canvas.len() == width * height
    &&& claimed.len() == width * height
    &&& pending.wf()
    &&& forall|j: int|
        0 <= j < pending.contents().len() ==> frontier_cell_ok(
            #[trigger] pending.contents()[j],
            width,
            height,
            seeds,
            delta,
            claimed,
            committed,
        )
    &&& coords_distinct(pending.contents())
    &&& committed.finite()
    &&& claimed_set.finite()
    &&& forall|q: (int, int)| #[trigger] committed.contains(q) ==> in_grid(
        q,
        width as int,
        height as int,
    )
    &&& forall|q: (int, int)| #[trigger] claimed_set.contains(q) ==> in_grid(
        q,
        width as int,
        height as int,
    )
    &&& forall|xx: int, yy: int|
        0 <= xx < width && 0 <= yy < height ==> (#[trigger] claimed_at(claimed, width, xx, yy)
            <==> claimed_set.contains((xx, yy)))
    &&& forall|xx: int, yy: int|
        0 <= xx < width && 0 <= yy < height ==> (#[trigger] claimed_set.contains((xx, yy))
            <==> committed.contains((xx, yy)) || frontier_has_coord(pending.contents(), xx, yy))
    &&& commits == committed.len()
    &&& inserts == claimed_set.len()
    &&& inserts == commits + pending.contents().len()
    &&& (delta == 0 ==> forall|q: (int, int)| #[trigger] committed.contains(q) ==> has_seed_color(
        seeds,
        pixel_at(canvas, width, q.0, q.1),
    ))
}

/// Every in-grid neighbour of a committed cell is already claimed.
spec fn closure_ok(
    width: usize,
    height: usize,
    claimed: Seq<bool>,
    committed: Set<(int, int)>,
) -> bool {
    forall|a: (int, int), b: (int, int)|
        committed.contains(a) && #[trigger] adjacent(a, b) && in_grid(
            b,
            width as int,
            height as int,
        ) ==> claimed_at(claimed, width, b.0, b.1)
}

/// Inserting a cell at a fresh coordinate keeps frontier coordinates
/// distinct and extends the coordinate set by exactly that coordinate.
proof fn lemma_insert_frontier(old_s: Seq<Point>, new_s: Seq<Point>, p: Point)
    requires
        seq_inserted(old_s, new_s, p),
        coords_distinct(old_s),
        !frontier_has_coord(old_s, p.x as int, p.y as int),
    ensures
        coords_distinct(new_s),
        new_s.len() == old_s.len() + 1,
        forall|j: int|
            0 <= j < new_s.len() ==> (#[trigger] new_s[j] == p || old_s.contains(new_s[j])),
        forall|xx: int, yy: int| #[trigger]
            frontier_has_coord(new_s, xx, yy) <==> (frontier_has_coord(old_s, xx, yy) || (xx
                == p.x as int && yy == p.y as int)),
{
    let i = choose|i: int| 0 <= i <= old_s.len() && new_s == old_s.insert(i, p);
    old_s.insert_ensures(i, p);
    assert forall|j: int|
        0 <= j < new_s.len() implies (#[trigger] new_s[j] == p || old_s.contains(new_s[j])) by {
        if j < i {
            assert(new_s[j] == old_s[j]);
            assert(old_s.contains(old_s[j]));
        } else if j > i {
            assert(old_s.insert(i, p)[j - 1 + 1] == old_s[j - 1]);
            assert(old_s.contains(old_s[j - 1]));
        }
    }
    assert forall|j1: int, j2: int|
        0 <= j1 < j2 < new_s.len() implies ((#[trigger] new_s[j1]).x != (#[trigger] new_s[j2]).x
        || new_s[j1].y != new_s[j2].y) by {
        let m1: int = if j1 < i {
            j1
        } else {
            j1 - 1
        };
        let m2: int = if j2 < i {
            j2
        } else {
            j2 - 1
        };
        if j1 != i {
            assert(new_s[j1] == old_s[m1]);
        }
        if j2 != i {
            assert(new_s[j2] == old_s[m2]);
        }
        if j1 == i {
            assert(new_s[j1] == p);
            assert(!(old_s[m2].x == p.x && old_s[m2].y == p.y));
        } else if j2 == i {
            assert(new_s[j2] == p);
            assert(!(old_s[m1].x == p.x && old_s[m1].y == p.y));
        }
    }
    assert forall|xx: int, yy: int| #[trigger]
        frontier_has_coord(new_s, xx, yy) implies (frontier_has_coord(old_s, xx, yy) || (xx
        == p.x as int && yy == p.y as int)) by {
        let j = choose|j: int| 0 <= j < new_s.len() && (#[trigger] new_s[j]).x == xx && new_s[j].y
            == yy;
        if j < i {
            assert(old_s[j].x == xx && old_s[j].y == yy);
        } else if j > i {
            assert(old_s.insert(i, p)[j - 1 + 1] == old_s[j - 1]);
            assert(old_s[j - 1].x == xx && old_s[j - 1].y == yy);
        }
    }
    assert forall|xx: int, yy: int|
        frontier_has_coord(old_s, xx, yy) || (xx == p.x as int && yy
        == p.y as int) implies #[trigger] frontier_has_coord(new_s, xx, yy) by {
        if frontier_has_coord(old_s, xx, yy) {
            let j = choose|j: int| 0 <= j < old_s.len() && (#[trigger] old_s[j]).x == xx
                && old_s[j].y == yy;
            if j < i {
                assert(new_s[j] == old_s[j]);
            } else {
                assert(old_s.insert(i, p)[j + 1] == old_s[j]);
            }
        } else {
            assert(new_s[i] == p);
        }
    }
}

/// Removing one frontier cell removes exactly its coordinate: the cell sat
/// at no other position, since coordinates were distinct.
proof fn lemma_remove_frontier(old_s: Seq<Point>, new_s: Seq<Point>, p: Point)
    requires
        seq_removed(old_s, new_s, p),
        coords_distinct(old_s),
    ensures
        coords_distinct(new_s),
        new_s.len() == old_s.len() - 1,
        old_s.contains(p),
        forall|j: int| 0 <= j < new_s.len() ==> old_s.contains(#[trigger] new_s[j]),
        !frontier_has_coord(new_s, p.x as int, p.y as int),
        forall|xx: int, yy: int| #[trigger]
            frontier_has_coord(new_s, xx, yy) ==> frontier_has_coord(old_s, xx, yy),
        forall|xx: int, yy: int| #[trigger]
            frontier_has_coord(old_s, xx, yy) && !(xx == p.x as int && yy == p.y as int)
                ==> frontier_has_coord(new_s, xx, yy),
{
    let i = choose|i: int|
        0 <= i < old_s.len() && p == old_s[i] && new_s == #[trigger] old_s.remove(i);
    old_s.remove_ensures(i);
    assert(old_s.contains(old_s[i]));
    assert forall|j: int| 0 <= j < new_s.len() implies old_s.contains(#[trigger] new_s[j]) by {
        if j < i {
            assert(new_s[j] == old_s[j]);
            assert(old_s.contains(old_s[j]));
        } else {
            assert(new_s[j] == old_s[j + 1]);
            assert(old_s.contains(old_s[j + 1]));
        }
    }
    assert forall|j1: int, j2: int|
        0 <= j1 < j2 < new_s.len() implies ((#[trigger] new_s[j1]).x != (#[trigger] new_s[j2]).x
        || new_s[j1].y != new_s[j2].y) by {
        let m1: int = if j1 < i {
            j1
        } else {
            j1 + 1
        };
        let m2: int = if j2 < i {
            j2
        } else {
            j2 + 1
        };
        assert(new_s[j1] == old_s[m1]);
        assert(new_s[j2] == old_s[m2]);
    }
    assert forall|j: int|
        0 <= j < new_s.len() implies !((#[trigger] new_s[j]).x == p.x && new_s[j].y == p.y) by {
        if j < i {
            assert(new_s[j] == old_s[j]);
        } else {
            assert(new_s[j] == old_s[j + 1]);
        }
    }
    assert forall|xx: int, yy: int| #[trigger]
        frontier_has_coord(new_s, xx, yy) implies frontier_has_coord(old_s, xx, yy) by {
        let j = choose|j: int| 0 <= j < new_s.len() && (#[trigger] new_s[j]).x == xx && new_s[j].y
            == yy;
        if j < i {
            assert(old_s[j].x == xx && old_s[j].y == yy);
        } else {
            assert(old_s[j + 1].x == xx && old_s[j + 1].y == yy);
        }
    }
    assert forall|xx: int, yy: int| #[trigger]
        frontier_has_coord(old_s, xx, yy) && !(xx == p.x as int && yy
        == p.y as int) implies frontier_has_coord(new_s, xx, yy) by {
        let j = choose|j: int| 0 <= j < old_s.len() && (#[trigger] old_s[j]).x == xx && old_s[j].y
            == yy;
        if j < i {
            assert(new_s[j] == old_s[j]);
        } else if j > i {
            assert(new_s[j - 1] == old_s[j - 1 + 1]);
        }
    }
}

/// What one engine run hands back: the finished canvas, the number of
/// commits, the number of frontier insertions, and the committed set.
pub struct RunOutcome {
    pub canvas: Vec<Color>,
    pub commits: usize,
    pub inserts: usize,
    pub committed: Ghost<Set<(int, int)>>,
}

/// Grows the image from the seeds until the frontier drains. Every grid
/// cell is committed exactly once, so the commit count and the insertion
/// count both equal `width * height`; with a zero diffusion bound every
/// pixel keeps some seed's colour.
#[verifier::loop_isolation(false)]
#[verifier::rlimit(60)]
pub fn run(
    width: usize,
    height: usize,
    seeds: &Vec<Point>,
    pending: PendingKind,
    delta: i32,
    rng: &mut SmallRng,
) -> (out: RunOutcome)
    requires
        0 < width,
        0 < height,
        width * height <= usize::MAX,
        seeds_ok(seeds@, width, height),
        pending.wf(),
        pending.contents().len() == 0,
        delta >= 0,
    ensures
        out.canvas@.len() == width * height,
        out.commits == width * height,
        out.inserts == width * height,
        out.committed@ == grid_set(width as int, height as int),
        delta == 0 ==> forall|xx: int, yy: int|
            0 <= xx < width && 0 <= yy < height ==> has_seed_color(
                seeds@,
                #[trigger] pixel_at(out.canvas@, width, xx, yy),
            ),
{
    let total = width * height;
    proof {
        lemma_grid_set(width as int, height as int);
    }
    let mut canvas: Vec<Color> = vec![Color { r: 0, g: 0, b: 0 };total];
    let mut claimed: Vec<bool> = vec![false;total];
    let ghost mut committed: Set<(int, int)> = Set::empty();
    let ghost mut claimed_set: Set<(int, int)> = Set::empty();
    let mut pending = pending;
    let mut commits: usize = 0;
    let mut inserts: usize = 0;
    let ghost seed0q = (seeds@[0].x as int, seeds@[0].y as int);
    proof {
        assert forall|xx: int, yy: int|
            0 <= xx < width && 0 <= yy < height implies !claimed_at(
            claimed@,
            width,
            xx,
            yy,
        ) by {
            lemma_flat_index_bound(width as int, height as int, xx, yy);
        }
    }

    let mut si: usize = 0;
    while si < seeds.len()
        invariant
            si <= seeds@.len(),
            engine_inv(
                width,
                height,
                seeds@,
                delta,
                canvas@,
                claimed@,
                committed,
                claimed_set,
                pending,
                commits,
                inserts,
            ),
            closure_ok(width, height, claimed@, committed),
            committed.is_empty(),
            si > 0 ==> claimed_set.contains(seed0q),
        decreases seeds@.len() - si,
    {
        let s = seeds[si];
        proof {
            lemma_flat_index_bound(width as int, height as int, s.x as int, s.y as int);
        }
        let idx = s.y * width + s.x;
        if !claimed[idx] {
            let ghost prev_claimed = claimed@;
            let ghost prev_contents = pending.contents();
            claimed.set(idx, true);
            proof {
                assert(!frontier_has_coord(prev_contents, s.x as int, s.y as int));
                assert forall|j: int|
                    0 <= j < prev_contents.len() implies !key_eq(
                    #[trigger] prev_contents[j],
                    s,
                ) by {
                    if key_eq(prev_contents[j], s) {
                        lemma_key_eq_same_coords(prev_contents[j], s);
                    }
                }
            }
            pending.add(s);
            proof {
                assert(!has_key_eq(prev_contents, s));
                assert(seq_inserted(prev_contents, pending.contents(), s)) by {
                    if !pending.dedups() && pending.appends() {
                        assert(pending.contents() =~= prev_contents.insert(
                            prev_contents.len() as int,
                            s,
                        ));
                    }
                }
                lemma_insert_frontier(prev_contents, pending.contents(), s);
                assert(!claimed_set.contains((s.x as int, s.y as int)));
                vstd::set::axiom_set_insert_len(claimed_set, (s.x as int, s.y as int));
                claimed_set = claimed_set.insert((s.x as int, s.y as int));
                vstd::set_lib::lemma_len_subset(
                    claimed_set,
                    grid_set(width as int, height as int),
                );
                // claiming flips exactly one flag
                assert forall|xx: int, yy: int|
                    0 <= xx < width && 0 <= yy < height implies (#[trigger] claimed_at(
                    claimed@,
                    width,
                    xx,
                    yy,
                ) <==> claimed_set.contains((xx, yy))) by {
                    lemma_flat_index_bound(width as int, height as int, xx, yy);
                    if xx != s.x as int || yy != s.y as int {
                        lemma_flat_index_distinct(width as int, xx, yy, s.x as int, s.y as int);
                        assert(claimed_at(claimed@, width, xx, yy) == claimed_at(
                            prev_claimed,
                            width,
                            xx,
                            yy,
                        ));
                    }
                }
                assert forall|j: int|
                    0 <= j < pending.contents().len() implies frontier_cell_ok(
                    #[trigger] pending.contents()[j],
                    width,
                    height,
                    seeds@,
                    delta,
                    claimed@,
                    committed,
                ) by {
                    let q = pending.contents()[j];
                    if q == s {
                        assert(claimed_at(claimed@, width, s.x as int, s.y as int));
                    } else {
                        assert(prev_contents.contains(q));
                        let m = choose|m: int|
                            0 <= m < prev_contents.len() && prev_contents[m] == q;
                        assert(frontier_cell_ok(
                            prev_contents[m],
                            width,
                            height,
                            seeds@,
                            delta,
                            prev_claimed,
                            committed,
                        ));
                    }
                }
            }
            inserts += 1;
        }
        proof {
            if si == 0 {
                assert(claimed_at(claimed@, width, s.x as int, s.y as int));
                assert(claimed_set.contains(seed0q));
            }
        }
        si += 1;
    }

    let mut go = pending.has_any();
    while go
        invariant
            go == (pending.contents().len() > 0),
            engine_inv(
                width,
                height,
                seeds@,
                delta,
                canvas@,
                claimed@,
                committed,
                claimed_set,
                pending,
                commits,
                inserts,
            ),
            closure_ok(width, height, claimed@, committed),
            claimed_set.contains(seed0q),
        decreases total - commits,
    {
        let ghost pre_contents = pending.contents();
        let point = pending.pop(rng);
        let ghost curq = (point.x as int, point.y as int);
        proof {
            let i = choose|i: int|
                0 <= i < pre_contents.len() && point == pre_contents[i] && pending.contents()
                    == #[trigger] pre_contents.remove(i);
            assert(frontier_cell_ok(
                point,
                width,
                height,
                seeds@,
                delta,
                claimed@,
                committed,
            ));
            lemma_remove_frontier(pre_contents, pending.contents(), point);
        }
        let cr = offset(point.r, delta, rng);
        let cg = offset(point.g, delta, rng);
        let cb = offset(point.b, delta, rng);
        let col = Color { r: cr, g: cg, b: cb };
        proof {
            lemma_flat_index_bound(width as int, height as int, point.x as int, point.y as int);
        }
        let idx = point.y * width + point.x;
        let ghost prev_canvas = canvas@;
        canvas.set(idx, col);
        proof {
            // the committed set grows by the popped coordinate
            vstd::set::axiom_set_insert_len(committed, curq);
            vstd::set_lib::lemma_len_subset(
                committed.insert(curq),
                grid_set(width as int, height as int),
            );
            committed = committed.insert(curq);
        }
        commits = commits + 1;
        proof {
            // unchanged pixels keep their committed colours
            if delta == 0 {
                assert forall|q: (int, int)| #[trigger]
                    committed.contains(q) implies has_seed_color(
                    seeds@,
                    pixel_at(canvas@, width, q.0, q.1),
                ) by {
                    lemma_flat_index_bound(width as int, height as int, q.0, q.1);
                    if q != curq {
                        lemma_flat_index_distinct(width as int, q.0, q.1, curq.0, curq.1);
                        assert(pixel_at(canvas@, width, q.0, q.1) == pixel_at(
                            prev_canvas,
                            width,
                            q.0,
                            q.1,
                        ));
                    } else {
                        assert(col == point_color(point));
                    }
                }
            }
            // frontier cells sit at other coordinates, so none is committed
            assert forall|j: int|
                0 <= j < pending.contents().len() implies frontier_cell_ok(
                #[trigger] pending.contents()[j],
                width,
                height,
                seeds@,
                delta,
                claimed@,
                committed,
            ) by {
                assert(pre_contents.contains(pending.contents()[j]));
                let m = choose|m: int|
                    0 <= m < pre_contents.len() && pre_contents[m] == pending.contents()[j];
                assert(frontier_cell_ok(
                    pre_contents[m],
                    width,
                    height,
                    seeds@,
                    delta,
                    claimed@,
                    committed.remove(curq),
                ));
                assert(!frontier_has_coord(pending.contents(), curq.0, curq.1));
            }
        }
        let nbrs = neighbours(point.x, point.y, width, height, pending.shuffle_chance(), rng);
        let mut k: usize = 0;
        while k < nbrs.len()
            invariant
                k <= nbrs@.len(),
                engine_inv(
                    width,
                    height,
                    seeds@,
                    delta,
                    canvas@,
                    claimed@,
                    committed,
                    claimed_set,
                    pending,
                    commits,
                    inserts,
                ),
                closure_ok(width, height, claimed@, committed.remove(curq)),
                committed.contains(curq),
                claimed_set.contains(seed0q),
                forall|j: int|
                    0 <= j < k ==> claimed_at(
                        claimed@,
                        width,
                        (#[trigger] nbrs@[j]).0 as int,
                        nbrs@[j].1 as int,
                    ),
            decreases nbrs@.len() - k,
        {
            let (nx, ny) = nbrs[k];
            proof {
                assert(nbrs@.contains(nbrs@[k as int]));
                assert(is_grid_nbr(nbrs@[k as int], point.x, point.y, width, height));
                lemma_flat_index_bound(width as int, height as int, nx as int, ny as int);
            }
            let nidx = ny * width + nx;
            if !claimed[nidx] {
                let np = Point { r: cr, g: cg, b: cb, x: nx, y: ny, sort_mode: point.sort_mode };
                let ghost prev_claimed = claimed@;
                let ghost prev_contents = pending.contents();
                claimed.set(nidx, true);
                proof {
                    assert(!claimed_at(prev_claimed, width, nx as int, ny as int));
                    assert(!frontier_has_coord(prev_contents, nx as int, ny as int)) by {
                        if frontier_has_coord(prev_contents, nx as int, ny as int) {
                            let j = choose|j: int|
                                0 <= j < prev_contents.len() && (#[trigger] prev_contents[j]).x
                                    == nx as int && prev_contents[j].y == ny as int;
                            assert(frontier_cell_ok(
                                prev_contents[j],
                                width,
                                height,
                                seeds@,
                                delta,
                                prev_claimed,
                                committed,
                            ));
                        }
                    }
                    assert forall|j: int|
                        0 <= j < prev_contents.len() implies !key_eq(
                        #[trigger] prev_contents[j],
                        np,
                    ) by {
                        if key_eq(prev_contents[j], np) {
                            lemma_key_eq_same_coords(prev_contents[j], np);
                        }
                    }
                }
                pending.add(np);
                proof {
                    assert(!has_key_eq(prev_contents, np));
                    assert(seq_inserted(prev_contents, pending.contents(), np)) by {
                        if !pending.dedups() && pending.appends() {
                            assert(pending.contents() =~= prev_contents.insert(
                                prev_contents.len() as int,
                                np,
                            ));
                        }
                    }
                    lemma_insert_frontier(prev_contents, pending.contents(), np);
                    assert(!claimed_set.contains((nx as int, ny as int)));
                    vstd::set::axiom_set_insert_len(claimed_set, (nx as int, ny as int));
                    claimed_set = claimed_set.insert((nx as int, ny as int));
                    vstd::set_lib::lemma_len_subset(
                        claimed_set,
                        grid_set(width as int, height as int),
                    );
                    assert forall|xx: int, yy: int|
                        0 <= xx < width && 0 <= yy < height implies (#[trigger] claimed_at(
                        claimed@,
                        width,
                        xx,
                        yy,
                    ) <==> claimed_set.contains((xx, yy))) by {
                        lemma_flat_index_bound(width as int, height as int, xx, yy);
                        if xx != nx as int || yy != ny as int {
                            lemma_flat_index_distinct(width as int, xx, yy, nx as int, ny as int);
                            assert(claimed_at(claimed@, width, xx, yy) == claimed_at(
                                prev_claimed,
                                width,
                                xx,
                                yy,
                            ));
                        }
                    }
                    assert forall|j: int|
                        0 <= j < pending.contents().len() implies frontier_cell_ok(
                        #[trigger] pending.contents()[j],
                        width,
                        height,
                        seeds@,
                        delta,
                        claimed@,
                        committed,
                    ) by {
                        let q = pending.contents()[j];
                        if q == np {
                            assert(claimed_at(claimed@, width, nx as int, ny as int));
                            assert(!committed.contains((nx as int, ny as int)));
                            if delta == 0 {
                                assert(point_color(np) == point_color(point));
                            }
                        } else {
                            assert(prev_contents.contains(q));
                            let m = choose|m: int|
                                0 <= m < prev_contents.len() && prev_contents[m] == q;
                            assert(frontier_cell_ok(
                                prev_contents[m],
                                width,
                                height,
                                seeds@,
                                delta,
                                prev_claimed,
                                committed,
                            ));
                        }
                    }
                }
                inserts += 1;
            }
            proof {
                assert forall|j: int|
                    0 <= j < k + 1 implies claimed_at(
                    claimed@,
                    width,
                    (#[trigger] nbrs@[j]).0 as int,
                    nbrs@[j].1 as int,
                ) by {
                    assert(nbrs@.contains(nbrs@[j]));
                    assert(is_grid_nbr(nbrs@[j], point.x, point.y, width, height));
                    lemma_flat_index_bound(
                        width as int,
                        height as int,
                        nbrs@[j].0 as int,
                        nbrs@[j].1 as int,
                    );
                }
            }
            k += 1;
        }
        proof {
            // the popped cell's neighbours are all claimed now: closure holds
            assert forall|a: (int, int), b: (int, int)|
                committed.contains(a) && #[trigger] adjacent(a, b) && in_grid(
                    b,
                    width as int,
                    height as int,
                ) implies claimed_at(claimed@, width, b.0, b.1) by {
                if a == curq {
                    let q = (b.0 as usize, b.1 as usize);
                    assert(is_grid_nbr(q, point.x, point.y, width, height));
                    assert(nbrs@.contains(q));
                    let j = choose|j: int| 0 <= j < nbrs@.len() && nbrs@[j] == q;
                    assert(claimed_at(claimed@, width, nbrs@[j].0 as int, nbrs@[j].1 as int));
                } else {
                    assert(committed.remove(curq).contains(a));
                }
            }
        }
        go = pending.has_any();
    }

    proof {
        // the frontier is empty: claimed and committed coincide
        assert forall|q: (int, int)| #[trigger]
            claimed_set.contains(q) implies committed.contains(q) by {
            assert(in_grid(q, width as int, height as int));
            assert(claimed_set.contains((q.0, q.1)));
        }
        assert forall|q: (int, int)| #[trigger]
            committed.contains(q) implies claimed_set.contains(q) by {
            assert(in_grid(q, width as int, height as int));
            assert(committed.contains((q.0, q.1)));
        }
        // committed is closed under in-grid adjacency, and holds a seed
        assert forall|a: (int, int), b: (int, int)|
            committed.contains(a) && #[trigger] adjacent(a, b) && in_grid(
                b,
                width as int,
                height as int,
            ) implies committed.contains(b) by {
            assert(claimed_at(claimed@, width, b.0, b.1));
            assert(claimed_set.contains((b.0, b.1)));
        }
        assert(committed.contains(seed0q));
        assert forall|q: (int, int)|
            in_grid(q, width as int, height as int) implies #[trigger] committed.contains(q) by {
            lemma_closed_set_covers(committed, width as int, height as int, seed0q, q);
        }
        assert(committed =~= grid_set(width as int, height as int));
        if delta == 0 {
            assert forall|xx: int, yy: int|
                0 <= xx < width && 0 <= yy < height implies has_seed_color(
                seeds@,
                #[trigger] pixel_at(canvas@, width, xx, yy),
            ) by {
                assert(in_grid((xx, yy), width as int, height as int));
                assert(committed.contains((xx, yy)));
            }
        }
    }
    RunOutcome { canvas, commits, inserts, committed: Ghost(committed) }
}

} // verus!
