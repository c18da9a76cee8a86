use vstd::prelude::*;

verus! {

/// The cells of one grid row: `(0, y)` through `(w - 1, y)`.
pub open spec fn row_set(w: int, y: int) -> Set<(int, int)>
    decreases w,
{
    if w <= 0 {
        Set::empty()
    } else {
        row_set(w - 1, y).insert((w - 1, y))
    }
}

/// All cells of a `w` by `h` grid.
pub open spec fn grid_set(w: int, h: int) -> Set<(int, int)>
    decreases h,
{
    if h <= 0 {
        Set::empty()
    } else {
        grid_set(w, h - 1).union(row_set(w, h - 1))
    }
}

pub open spec fn in_grid(q: (int, int), w: int, h: int) -> bool {
    0 <= q.0 < w && 0 <= q.1 < h
}

/// Two distinct cells within one king-move step of each other.
pub open spec fn adjacent(a: (int, int), b: (int, int)) -> bool {
    a != b && -1 <= a.0 - b.0 <= 1 && -1 <= a.1 - b.1 <= 1
}

proof fn lemma_row_set(w: int, y: int)
    requires
        w >= 0,
    ensures
        row_set(w, y).finite(),
        row_set(w, y).len() == w,
        forall|q: (int, int)| #[trigger] row_set(w, y).contains(q) <==> 0 <= q.0 < w && q.1 == y,
    decreases w,
{
    if w > 0 {
        lemma_row_set(w - 1, y);
    }
}

/// Two finite disjoint sets contribute their lengths in full to the union.
proof fn lemma_disjoint_union_len<A>(s1: Set<A>, s2: Set<A>)
    requires
        s1.finite(),
        s2.finite(),
        s1.disjoint(s2),
    ensures
        s1.union(s2).len() == s1.len() + s2.len(),
        s1.union(s2).finite(),
    decreases s2.len(),
{
    if s2.is_empty() {
        assert(s1.union(s2) =~= s1);
    } else {
        let a = s2.choose();
        assert(s2.contains(a));
        lemma_disjoint_union_len(s1, s2.remove(a));
        assert(s1.union(s2.remove(a)).insert(a) =~= s1.union(s2));
        assert(!s1.union(s2.remove(a)).contains(a));
    }
}

/// A `w` by `h` grid is a finite set of exactly `w * h` cells, holding
/// precisely the in-range coordinates.
pub proof fn lemma_grid_set(w: int, h: int)
    requires
        w >= 0,
        h >= 0,
    ensures
        grid_set(w, h).finite(),
        grid_set(w, h).len() == w * h,
        forall|q: (int, int)| #[trigger] grid_set(w, h).contains(q) <==> in_grid(q, w, h),
    decreases h,
{
    if h > 0 {
        lemma_grid_set(w, h - 1);
        lemma_row_set(w, h - 1);
        assert forall|q: (int, int)| #[trigger] grid_set(w, h - 1).contains(q) implies !row_set(
            w,
            h - 1,
        ).contains(q) by {
            assert(q.1 < h - 1);
        }
        assert(grid_set(w, h - 1).disjoint(row_set(w, h - 1)));
        lemma_disjoint_union_len(grid_set(w, h - 1), row_set(w, h - 1));
        assert(grid_set(w, h).len() == w * (h - 1) + w);
        assert(w * (h - 1) + w == w * h) by (nonlinear_arith);
    } else {
        assert(grid_set(w, h).len() == 0);
        assert(w * h == 0) by (nonlinear_arith)
            requires
                h == 0,
        ;
    }
}

/// A set of grid cells that contains `from` and is closed under in-grid
/// adjacency contains every cell of the grid: king moves connect it all.
pub proof fn lemma_closed_set_covers(
    s: Set<(int, int)>,
    w: int,
    h: int,
    from: (int, int),
    to: (int, int),
)
    requires
        in_grid(from, w, h),
        in_grid(to, w, h),
        s.contains(from),
        forall|a: (int, int), b: (int, int)|
            s.contains(a) && #[trigger] adjacent(a, b) && in_grid(b, w, h) ==> s.contains(b),
    ensures
        s.contains(to),
    decreases
            (if to.0 >= from.0 {
                to.0 - from.0
            } else {
                from.0 - to.0
            }) + (if to.1 >= from.1 {
                to.1 - from.1
            } else {
                from.1 - to.1
            }),
{
    if from != to {
        let nx = from.0 + (if to.0 > from.0 {
            1int
        } else if to.0 < from.0 {
            -1int
        } else {
            0int
        });
        let ny = from.1 + (if to.1 > from.1 {
            1int
        } else if to.1 < from.1 {
            -1int
        } else {
            0int
        });
        let next = (nx, ny);
        assert(adjacent(from, next));
        assert(in_grid(next, w, h));
        assert(s.contains(next));
        lemma_closed_set_covers(s, w, h, next, to);
    }
}

/// Row-major flattening stays inside the canvas.
pub proof fn lemma_flat_index_bound(w: int, h: int, x: int, y: int)
    requires
        0 <= x < w,
        0 <= y < h,
    ensures
        0 <= y * w + x < w * h,
{
    assert(y * w + x < w * h) by (nonlinear_arith)
        requires
            0 <= x < w,
            0 <= y < h,
    ;
    assert(y * w >= 0) by (nonlinear_arith)
        requires
            y >= 0,
            w >= 0,
    ;
}

/// Row-major flattening is injective on in-range coordinates.
pub proof fn lemma_flat_index_injective(w: int, x1: int, y1: int, x2: int, y2: int)
    requires
        0 <= x1 < w,
        0 <= x2 < w,
        0 <= y1,
        0 <= y2,
        y1 * w + x1 == y2 * w + x2,
    ensures
        x1 == x2,
        y1 == y2,
{
    assert(y1 == y2) by (nonlinear_arith)
        requires
            0 <= x1 < w,
            0 <= x2 < w,
            0 <= y1,
            0 <= y2,
            y1 * w + x1 == y2 * w + x2,
    ;
}

/// Distinct in-grid coordinates flatten to distinct indices.
pub proof fn lemma_flat_index_distinct(w: int, x1: int, y1: int, x2: int, y2: int)
    requires
        0 <= x1 < w,
        0 <= x2 < w,
        0 <= y1,
        0 <= y2,
        x1 != x2 || y1 != y2,
    ensures
        y1 * w + x1 != y2 * w + x2,
{
    if y1 * w + x1 == y2 * w + x2 {
        lemma_flat_index_injective(w, x1, y1, x2, y2);
    }
}

} // verus!
