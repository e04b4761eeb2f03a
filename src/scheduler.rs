//! Runs the narrow phase over every candidate group of a grid.
//!
//! The grid's rows are cut into [`WORKERS`] contiguous slices, each worth
//! one worker's share of the broad phase. All mutation of the particles
//! goes through one pass at a time, so the slices are handled one after
//! another, in order: the outcome is that of a worker pool whose narrow
//! phase is serialised by a single lock, with the workers taking that lock
//! in slice order.
use vstd::prelude::*;
use crate::ball::Ball;
use crate::collision::{
    collide, lemma_collide_moves_little, lemma_collide_separates, lemma_collide_no_faster, lemma_separated_pair_unchanged,
    solve_collision,
};
use crate::geometry::{abs, dist_sq};
use crate::config::{MAX_CELLS, MAX_RADIUS, MAX_SPEED};
use crate::ball::inside;
use crate::config::Config;
use crate::grid::{
    all_inside, block, bucket, buckets, cell_of, lemma_close_pairs_share_a_group, Grid,
};

verus! {

/// Number of row slices the grid is cut into.
pub const WORKERS: usize = 8;

/// The pair at positions `a` and `b` of `ids`, resolved with the lower
/// particle index first. An index that appears twice is not a pair.
pub open spec fn resolve_pair(s: Seq<Ball>, ids: Seq<usize>, a: int, b: int, radius: int) -> Seq<
    Ball,
> {
    let lo = if ids[a] < ids[b] {
        ids[a] as int
    } else {
        ids[b] as int
    };
    let hi = if ids[a] < ids[b] {
        ids[b] as int
    } else {
        ids[a] as int
    };
    if lo == hi {
        s
    } else {
        let (x, y) = collide(s[lo], s[hi], radius);
        s.update(lo, x).update(hi, y)
    }
}

/// The pairs `(a, a + 1)`, ..., `(a, b - 1)` of `ids`, in that order.
pub open spec fn resolve_from(s: Seq<Ball>, ids: Seq<usize>, a: int, b: int, radius: int) -> Seq<
    Ball,
>
    decreases b - a,
{
    if b <= a + 1 {
        s
    } else {
        resolve_pair(resolve_from(s, ids, a, b - 1, radius), ids, a, b - 1, radius)
    }
}

/// Every pair `(a, b)` with `a < n` and `a < b`, in lexicographic order.
pub open spec fn resolve_prefix(s: Seq<Ball>, ids: Seq<usize>, n: int, radius: int) -> Seq<Ball>
    decreases n,
{
    if n <= 0 {
        s
    } else {
        resolve_from(resolve_prefix(s, ids, n - 1, radius), ids, n - 1, ids.len() as int, radius)
    }
}

/// Every pair of a candidate group resolved once, in lexicographic order.
pub open spec fn resolve_group(s: Seq<Ball>, ids: Seq<usize>, radius: int) -> Seq<Ball> {
    resolve_prefix(s, ids, ids.len() as int, radius)
}

/// The first `n` candidate groups of the grid `cells` with `cols` columns
/// resolved, in row-major order of their top left cells.
pub open spec fn resolve_groups(
    s: Seq<Ball>,
    cells: Seq<Seq<usize>>,
    cols: int,
    n: int,
    radius: int,
) -> Seq<Ball>
    decreases n,
{
    if n <= 0 {
        s
    } else {
        let w = cols - 1;
        resolve_group(
            resolve_groups(s, cells, cols, n - 1, radius),
            block(cells, cols, (n - 1) / w, (n - 1) % w),
            radius,
        )
    }
}

/// Every candidate group of a grid of `rows` by `cols` cells resolved.
pub open spec fn resolve_grid(s: Seq<Ball>, cells: Seq<Seq<usize>>, rows: int, cols: int, radius: int) -> Seq<Ball> {
    resolve_groups(s, cells, cols, (rows - 1) * (cols - 1), radius)
}

/// What resolution assumes of the particles, and keeps: speeds within
/// the terminal speed.
pub open spec fn movable(s: Seq<Ball>) -> bool {
    forall|i: int| 0 <= i < s.len() ==> #[trigger] s[i].vel.norm_sq() <= MAX_SPEED * MAX_SPEED
}

/// Every centre lies within `bound` of the origin on both axes.
pub open spec fn within(s: Seq<Ball>, bound: int) -> bool {
    forall|i: int|
        0 <= i < s.len() ==> -bound <= #[trigger] s[i].pos.x <= bound && -bound <= s[i].pos.y
            <= bound
}

/// No centre moves by more than `d` on either axis from `s` to `t`.
pub open spec fn drift_within(s: Seq<Ball>, t: Seq<Ball>, d: int) -> bool {
    &&& s.len() == t.len()
    &&& forall|i: int|
        0 <= i < s.len() ==> abs(#[trigger] t[i].pos.x - s[i].pos.x) <= d && abs(t[i].pos.y
            - s[i].pos.y) <= d
}

/// Each pair resolution moves a centre by at most one radius, so a pass
/// over the first `n` groups moves none by more than `radius` times this
/// many: the sum of the squared group sizes.
pub open spec fn pass_budget(cells: Seq<Seq<usize>>, cols: int, n: int) -> int
    decreases n,
{
    if n <= 0 {
        0
    } else {
        let g = block(cells, cols, (n - 1) / (cols - 1), (n - 1) % (cols - 1));
        pass_budget(cells, cols, n - 1) + g.len() * g.len()
    }
}

/// [`pass_budget`] over every group of a grid.
pub open spec fn grid_budget(cells: Seq<Seq<usize>>, rows: int, cols: int) -> int {
    pass_budget(cells, cols, (rows - 1) * (cols - 1))
}

/// The budget grows with the number of groups.
pub proof fn lemma_pass_budget_grows(cells: Seq<Seq<usize>>, cols: int, m: int, n: int)
    requires
        0 <= m <= n,
    ensures
        0 <= pass_budget(cells, cols, m) <= pass_budget(cells, cols, n),
    decreases n,
{
    if n > 0 {
        let g = block(cells, cols, (n - 1) / (cols - 1), (n - 1) % (cols - 1));
        assert(g.len() * g.len() >= 0) by (nonlinear_arith);
        if m < n {
            lemma_pass_budget_grows(cells, cols, m, n - 1);
        } else {
            lemma_pass_budget_grows(cells, cols, 0, n - 1);
        }
    }
}

/// Drifts add up.
proof fn lemma_drift_chain(s: Seq<Ball>, t: Seq<Ball>, u: Seq<Ball>, d: int, e: int)
    requires
        drift_within(s, t, d),
        drift_within(t, u, e),
    ensures
        drift_within(s, u, d + e),
{
    assert forall|i: int| 0 <= i < s.len() implies abs(#[trigger] u[i].pos.x - s[i].pos.x) <= d + e
        && abs(u[i].pos.y - s[i].pos.y) <= d + e by {
        assert(abs(t[i].pos.x - s[i].pos.x) <= d);
        assert(abs(u[i].pos.x - t[i].pos.x) <= e);
    }
}

/// `r * x <= r * y` for `x <= y` and `r >= 0`, and `r * (x + 1) == r * x + r`.
proof fn lemma_scale(r: int, x: int, y: int)
    requires
        0 <= r,
        x <= y,
    ensures
        r * x <= r * y,
        r * (x + 1) == r * x + r,
        r * (y - x) == r * y - r * x,
{
    assert(r * x <= r * y && r * (x + 1) == r * x + r && r * (y - x) == r * y - r * x)
        by (nonlinear_arith)
        requires
            0 <= r,
            x <= y,
    ;
}

/// No particle is faster in `t` than in `s`.
pub open spec fn no_faster(s: Seq<Ball>, t: Seq<Ball>) -> bool {
    &&& s.len() == t.len()
    &&& forall|i: int| 0 <= i < s.len() ==> #[trigger] t[i].vel.norm_sq() <= s[i].vel.norm_sq()
}

/// Every index held by the cells names one of `n` particles.
pub open spec fn indices_below(cells: Seq<Seq<usize>>, n: int) -> bool {
    forall|k: int, m: int| 0 <= k < cells.len() && 0 <= m < cells[k].len() ==> #[trigger] cells[k][m] < n
}

/// Resolves every pair of the candidate group `ids`: see
/// [`resolve_group`]. Each pair is taken by its lower index first, so the
/// two particles are always distinct. A group of `n` indices resolves
/// fewer than `n * n` pairs, each moving a centre by at most one radius,
/// so every centre must start that far inside the range of `i64`.
pub fn check_each_combo(balls: &mut Vec<Ball>, ids: &Vec<usize>, radius: i64)
    requires
        1 <= radius <= MAX_RADIUS,
        movable(old(balls)@),
        forall|m: int| 0 <= m < ids@.len() ==> #[trigger] ids@[m] < old(balls)@.len(),
        within(old(balls)@, i64::MAX - radius * (ids@.len() * ids@.len() + 1)),
    ensures
        final(balls)@ == resolve_group(old(balls)@, ids@, radius as int),
        movable(final(balls)@),
        no_faster(old(balls)@, final(balls)@),
        drift_within(old(balls)@, final(balls)@, radius * (ids@.len() * ids@.len())),
{
    let n = ids.len();
    let ghost nn = n * n;
    let ghost r = radius as int;
    let ghost lim = i64::MAX - r * (nn + 1);
    let ghost mut t: int = 0;
    proof {
        lemma_scale(r, 0, nn);
        assert forall|i: int| 0 <= i < balls@.len() implies abs(#[trigger] balls@[i].pos.x
            - old(balls)@[i].pos.x) <= r * t && abs(balls@[i].pos.y - old(balls)@[i].pos.y) <= r
            * t by {
            assert(r * t == 0) by (nonlinear_arith)
                requires
                    t == 0,
            ;
        }
    }
    let mut a: usize = 0;
    while a < n
        invariant
            1 <= radius <= MAX_RADIUS,
            r == radius,
            n == ids@.len(),
            nn == n * n,
            lim == i64::MAX - r * (nn + 1),
            within(old(balls)@, lim),
            a <= n,
            0 <= t <= a * n,
            forall|m: int| 0 <= m < ids@.len() ==> #[trigger] ids@[m] < balls@.len(),
            balls@ == resolve_prefix(old(balls)@, ids@, a as int, radius as int),
            movable(balls@),
            no_faster(old(balls)@, balls@),
            drift_within(old(balls)@, balls@, r * t),
        decreases n - a,
    {
        let mut b: usize = a + 1;
        proof {
            assert(a * n + n == (a + 1) * n && a * n <= a * n + b) by (nonlinear_arith)
                requires
                    b >= 0,
            ;
        }
        while b < n
            invariant
                1 <= radius <= MAX_RADIUS,
                r == radius,
                n == ids@.len(),
                nn == n * n,
                lim == i64::MAX - r * (nn + 1),
                within(old(balls)@, lim),
                a < n,
                a + 1 <= b <= n,
                0 <= t <= a * n + b,
                forall|m: int| 0 <= m < ids@.len() ==> #[trigger] ids@[m] < balls@.len(),
                balls@ == resolve_from(
                    resolve_prefix(old(balls)@, ids@, a as int, radius as int),
                    ids@,
                    a as int,
                    b as int,
                    radius as int,
                ),
                movable(balls@),
                no_faster(old(balls)@, balls@),
                drift_within(old(balls)@, balls@, r * t),
            decreases n - b,
        {
            let ia = ids[a];
            let ib = ids[b];
            let (lo, hi) = if ia < ib {
                (ia, ib)
            } else {
                (ib, ia)
            };
            proof {
                assert(a * n + b + 1 <= nn) by (nonlinear_arith)
                    requires
                        a < n,
                        b < n,
                        nn == n * n,
                ;
                lemma_scale(r, t, nn - 1);
                lemma_scale(r, nn - 1, nn);
                lemma_scale(r, nn, nn + 1);
            }
            if lo != hi {
                let ghost before = balls@;
                let mut x = balls[lo];
                let mut y = balls[hi];
                proof {
                    assert(before[lo as int].vel.norm_sq() <= MAX_SPEED * MAX_SPEED);
                    assert(before[hi as int].vel.norm_sq() <= MAX_SPEED * MAX_SPEED);
                    assert(-lim <= old(balls)@[lo as int].pos.x <= lim);
                    assert(-lim <= old(balls)@[hi as int].pos.x <= lim);
                    assert(-lim <= old(balls)@[lo as int].pos.y <= lim);
                    assert(-lim <= old(balls)@[hi as int].pos.y <= lim);
                    assert(abs(before[lo as int].pos.x - old(balls)@[lo as int].pos.x) <= r * t);
                    assert(abs(before[hi as int].pos.x - old(balls)@[hi as int].pos.x) <= r * t);
                    assert(abs(before[lo as int].pos.y - old(balls)@[lo as int].pos.y) <= r * t);
                    assert(abs(before[hi as int].pos.y - old(balls)@[hi as int].pos.y) <= r * t);
                    assert(x == before[lo as int] && y == before[hi as int]);
                    lemma_collide_moves_little(x, y, r);
                }
                solve_collision(&mut x, &mut y, radius);
                balls.set(lo, x);
                balls.set(hi, y);
                proof {
                    assert forall|i: int| 0 <= i < balls@.len() implies #[trigger] balls@[i].vel.norm_sq()
                        <= MAX_SPEED * MAX_SPEED by {
                        if i != lo && i != hi {
                            assert(balls@[i] == before[i]);
                        }
                    }
                    assert forall|i: int| 0 <= i < balls@.len() implies #[trigger] balls@[i].vel.norm_sq()
                        <= old(balls)@[i].vel.norm_sq() by {
                        if i != lo && i != hi {
                            assert(balls@[i] == before[i]);
                        }
                        assert(before[i].vel.norm_sq() <= old(balls)@[i].vel.norm_sq());
                    }
                    assert forall|i: int| 0 <= i < balls@.len() implies abs(
                        #[trigger] balls@[i].pos.x - old(balls)@[i].pos.x,
                    ) <= r * (t + 1) && abs(balls@[i].pos.y - old(balls)@[i].pos.y) <= r * (t
                        + 1) by {
                        if i != lo && i != hi {
                            assert(balls@[i] == before[i]);
                        }
                        assert(abs(before[i].pos.x - old(balls)@[i].pos.x) <= r * t);
                        assert(abs(before[i].pos.y - old(balls)@[i].pos.y) <= r * t);
                    }
                }
            } else {
                proof {
                    assert forall|i: int| 0 <= i < balls@.len() implies abs(
                        #[trigger] balls@[i].pos.x - old(balls)@[i].pos.x,
                    ) <= r * (t + 1) && abs(balls@[i].pos.y - old(balls)@[i].pos.y) <= r * (t
                        + 1) by {
                        assert(abs(balls@[i].pos.x - old(balls)@[i].pos.x) <= r * t);
                        assert(abs(balls@[i].pos.y - old(balls)@[i].pos.y) <= r * t);
                    }
                }
            }
            proof {
                t = t + 1;
            }
            b = b + 1;
        }
        a = a + 1;
    }
    proof {
        lemma_scale(r, t, nn);
        assert forall|i: int| 0 <= i < balls@.len() implies abs(#[trigger] balls@[i].pos.x
            - old(balls)@[i].pos.x) <= r * nn && abs(balls@[i].pos.y - old(balls)@[i].pos.y) <= r
            * nn by {
            assert(abs(balls@[i].pos.x - old(balls)@[i].pos.x) <= r * t);
            assert(abs(balls@[i].pos.y - old(balls)@[i].pos.y) <= r * t);
        }
    }
}

/// Rows per worker slice: the rows shared out as evenly as possible.
pub open spec fn slice_len(rows: int) -> int {
    (rows + WORKERS - 1) / WORKERS as int
}

/// The rows before slice `k` whose blocks the earlier slices cover. The
/// last row starts no block, so the slices end at row `rows - 1`.
pub open spec fn slices_done(rows: int, k: int) -> int {
    if k * slice_len(rows) < rows - 1 {
        k * slice_len(rows)
    } else {
        rows - 1
    }
}

/// The slices cover every row that starts a block: slice `k` covers the
/// rows from `slices_done(rows, k)` up to `slices_done(rows, k + 1)`, and
/// all of them together cover the rows from `0` up to `rows - 1`.
pub proof fn lemma_slices_cover(rows: int)
    requires
        rows >= 2,
    ensures
        slices_done(rows, 0) == 0,
        slices_done(rows, WORKERS as int) == rows - 1,
        forall|k: int| 0 <= k < WORKERS ==> #[trigger] slices_done(rows, k) <= slices_done(rows, k + 1),
{
    let z = slice_len(rows);
    assert(z * WORKERS >= rows - 1 && z >= 1) by (nonlinear_arith)
        requires
            z == (rows + WORKERS - 1) / WORKERS as int,
            rows >= 2,
    ;
    assert(0 * z == 0);
    assert forall|k: int| 0 <= k < WORKERS implies #[trigger] slices_done(rows, k) <= slices_done(
        rows,
        k + 1,
    ) by {
        assert(k * z <= (k + 1) * z) by (nonlinear_arith)
            requires
                z >= 1,
        ;
    }
}

proof fn lemma_block_index(i: int, j: int, w: int)
    requires
        0 <= i,
        0 <= j < w,
    ensures
        (i * w + j) / w == i,
        (i * w + j) % w == j,
        (i + 1) * w == i * w + w,
{
    assert((i * w + j) / w == i && (i * w + j) % w == j && (i + 1) * w == i * w + w)
        by (nonlinear_arith)
        requires
            0 <= i,
            0 <= j < w,
    ;
}

/// Resolves every candidate group of `grid`, worker slice by worker slice:
/// see [`resolve_grid`].
pub fn resolve_slices(balls: &mut Vec<Ball>, grid: &Grid, radius: i64)
    requires
        1 <= radius <= MAX_RADIUS,
        movable(old(balls)@),
        2 <= grid.rows,
        2 <= grid.cols,
        grid.cells@.len() == grid.rows * grid.cols,
        grid.rows * grid.cols <= MAX_CELLS,
        indices_below(grid.view_cells(), old(balls)@.len() as int),
        within(
            old(balls)@,
            i64::MAX - radius * (grid_budget(grid.view_cells(), grid.rows as int, grid.cols as int)
                + 1),
        ),
    ensures
        final(balls)@ == resolve_grid(old(balls)@, grid.view_cells(), grid.rows as int, grid.cols as int, radius as int),
        movable(final(balls)@),
        no_faster(old(balls)@, final(balls)@),
        drift_within(
            old(balls)@,
            final(balls)@,
            radius * grid_budget(grid.view_cells(), grid.rows as int, grid.cols as int),
        ),
{
    let ghost bb = grid_budget(grid.view_cells(), grid.rows as int, grid.cols as int);
    let ghost cells = grid.view_cells();
    let rows = grid.rows;
    let cols = grid.cols;
    let w = cols - 1;
    proof {
        assert(rows <= rows * cols) by (nonlinear_arith)
            requires
                cols >= 2,
                rows >= 0,
        ;
    }
    let z = (rows + WORKERS - 1) / WORKERS;
    let ghost n = old(balls)@.len() as int;
    proof {
        lemma_slices_cover(rows as int);
        assert(z * WORKERS <= rows + WORKERS) by (nonlinear_arith)
            requires
                z == (rows + WORKERS - 1) / WORKERS as int,
                rows >= 2,
        ;
    }
    proof {
        assert forall|q: int| 0 <= q < balls@.len() implies abs(#[trigger] balls@[q].pos.x
            - old(balls)@[q].pos.x) <= radius * pass_budget(cells, cols as int, 0) && abs(
            balls@[q].pos.y - old(balls)@[q].pos.y,
        ) <= radius * pass_budget(cells, cols as int, 0) by {}
    }
    let mut k: usize = 0;
    while k < WORKERS
        invariant
            1 <= radius <= MAX_RADIUS,
            rows == grid.rows,
            cols == grid.cols,
            w == cols - 1,
            z == slice_len(rows as int),
            z * WORKERS <= rows + WORKERS,
            2 <= rows <= MAX_CELLS,
            2 <= cols,
            grid.cells@.len() == rows * cols,
            rows * cols <= MAX_CELLS,
            n == balls@.len(),
            indices_below(grid.view_cells(), n),
            k <= WORKERS,
            balls@ == resolve_groups(old(balls)@, grid.view_cells(), cols as int, slices_done(rows as int, k as int) * w, radius as int),
            movable(balls@),
            no_faster(old(balls)@, balls@),
            bb == grid_budget(cells, rows as int, cols as int),
            cells == grid.view_cells(),
            within(old(balls)@, i64::MAX - radius * (bb + 1)),
            drift_within(old(balls)@, balls@, radius * pass_budget(cells, cols as int, slices_done(rows as int, k as int) * w)),
            slices_done(rows as int, 0) == 0,
            slices_done(rows as int, WORKERS as int) == rows - 1,
            forall|q: int| 0 <= q < WORKERS ==> #[trigger] slices_done(rows as int, q) <= slices_done(rows as int, q + 1),
        decreases WORKERS - k,
    {
        proof {
            assert(z * k <= z * WORKERS && z * (k + 1) <= z * WORKERS) by (nonlinear_arith)
                requires
                    k < WORKERS,
                    z >= 0,
            ;
        }
        let from = z * k;
        let to = if z * (k + 1) < rows - 1 {
            z * (k + 1)
        } else {
            rows - 1
        };
        proof {
            assert(k * z == z * k && (k + 1) * z == z * (k + 1)) by (nonlinear_arith);
            assert(to == slices_done(rows as int, k + 1));
            if from < to {
                assert(from == slices_done(rows as int, k as int));
            } else {
                assert(slices_done(rows as int, k as int) == slices_done(rows as int, k + 1));
            }
        }
        let mut i: usize = if from < to {
            from
        } else {
            to
        };
        while i < to
            invariant
                1 <= radius <= MAX_RADIUS,
                rows == grid.rows,
                cols == grid.cols,
                w == cols - 1,
                2 <= cols,
                grid.cells@.len() == rows * cols,
                rows * cols <= MAX_CELLS,
                n == balls@.len(),
                indices_below(grid.view_cells(), n),
                i <= to,
                to <= rows - 1,
                balls@ == resolve_groups(old(balls)@, grid.view_cells(), cols as int, i * w, radius as int),
                movable(balls@),
                no_faster(old(balls)@, balls@),
                bb == grid_budget(cells, rows as int, cols as int),
                cells == grid.view_cells(),
                within(old(balls)@, i64::MAX - radius * (bb + 1)),
                drift_within(old(balls)@, balls@, radius * pass_budget(cells, cols as int, i * w)),
            decreases to - i,
        {
            let mut j: usize = 0;
            while j < w
                invariant
                    1 <= radius <= MAX_RADIUS,
                    rows == grid.rows,
                    cols == grid.cols,
                    w == cols - 1,
                    2 <= cols,
                    grid.cells@.len() == rows * cols,
                    rows * cols <= MAX_CELLS,
                    n == balls@.len(),
                    indices_below(grid.view_cells(), n),
                    i < to <= rows - 1,
                    j <= w,
                    balls@ == resolve_groups(old(balls)@, grid.view_cells(), cols as int, i * w + j, radius as int),
                    movable(balls@),
                    no_faster(old(balls)@, balls@),
                    bb == grid_budget(cells, rows as int, cols as int),
                    cells == grid.view_cells(),
                    within(old(balls)@, i64::MAX - radius * (bb + 1)),
                    i + 1 <= rows - 1,
                    drift_within(old(balls)@, balls@, radius * pass_budget(cells, cols as int, i * w + j)),
                decreases w - j,
            {
                let ids = grid.group(i, j);
                proof {
                    lemma_block_index(i as int, j as int, w as int);
                    assert((i + 1) * cols + j + 1 < rows * cols) by (nonlinear_arith)
                        requires
                            0 <= i,
                            i + 1 < rows,
                            0 <= j,
                            j + 1 < cols,
                    ;
                    lemma_group_indices(grid.view_cells(), cols as int, i as int, j as int, n);
                }
                let ghost before = balls@;
                let ghost g = i * w + j;
                let ghost pb = pass_budget(cells, cols as int, g);
                let ghost ll: int = (ids@.len() * ids@.len()) as int;
                proof {
                    assert(g + 1 <= (rows - 1) * w) by (nonlinear_arith)
                        requires
                            g == i * w + j,
                            i + 1 <= rows - 1,
                            j + 1 <= w,
                    ;
                    assert(pass_budget(cells, cols as int, g + 1) == pb + ll);
                    lemma_pass_budget_grows(cells, cols as int, g + 1, (rows - 1) * w);
                    lemma_pass_budget_grows(cells, cols as int, 0, g);
                    assert(ll >= 0);
                    lemma_scale(radius as int, ll + 1, bb + 1 - pb);
                    lemma_scale(radius as int, pb, bb + 1);
                    lemma_scale(radius as int, pb, pb + ll);
                    let lim = i64::MAX - radius * (ll + 1);
                    assert forall|q: int| 0 <= q < before.len() implies -lim <= #[trigger] before[q].pos.x
                        <= lim && -lim <= before[q].pos.y <= lim by {
                        assert(abs(before[q].pos.x - old(balls)@[q].pos.x) <= radius * pb);
                        assert(abs(before[q].pos.y - old(balls)@[q].pos.y) <= radius * pb);
                        let o = old(balls)@[q].pos;
                        assert(-(i64::MAX - radius * (bb + 1)) <= o.x <= i64::MAX - radius * (bb + 1));
                        assert(-(i64::MAX - radius * (bb + 1)) <= o.y <= i64::MAX - radius * (bb + 1));
                    }
                }
                check_each_combo(balls, &ids, radius);
                proof {
                    lemma_drift_chain(old(balls)@, before, balls@, radius * pb, radius * ll);
                    assert forall|q: int| 0 <= q < balls@.len() implies #[trigger] balls@[q].vel.norm_sq()
                        <= old(balls)@[q].vel.norm_sq() by {
                        assert(balls@[q].vel.norm_sq() <= before[q].vel.norm_sq());
                        assert(before[q].vel.norm_sq() <= old(balls)@[q].vel.norm_sq());
                    }
                }
                j = j + 1;
            }
            proof {
                lemma_block_index(i as int, 0, w as int);
            }
            i = i + 1;
        }
        k = k + 1;
    }
}

/// Every index in a candidate group names a particle.
proof fn lemma_group_indices(cells: Seq<Seq<usize>>, cols: int, i: int, j: int, n: int)
    requires
        0 <= i,
        0 <= j,
        j + 1 < cols,
        (i + 1) * cols + j + 1 < cells.len(),
        indices_below(cells, n),
    ensures
        forall|m: int|
            0 <= m < block(cells, cols, i, j).len() ==> #[trigger] block(cells, cols, i, j)[m] < n,
{
    assert(i * cols + j >= 0 && (i + 1) * cols == i * cols + cols) by (nonlinear_arith)
        requires
            0 <= i,
            0 <= j,
            j + 1 < cols,
    ;
    let k0 = i * cols + j;
    let k2 = (i + 1) * cols + j;
    let a = cells[k0];
    let b = cells[k0 + 1];
    let d = cells[k2];
    assert forall|m: int| 0 <= m < block(cells, cols, i, j).len() implies #[trigger] block(
        cells,
        cols,
        i,
        j,
    )[m] < n by {
        let g = block(cells, cols, i, j);
        if m < a.len() {
            assert(g[m] == cells[k0][m]);
        } else if m < a.len() + b.len() {
            assert(g[m] == cells[k0 + 1][m - a.len()]);
        } else if m < a.len() + b.len() + d.len() {
            assert(g[m] == cells[k2][m - a.len() - b.len()]);
        } else {
            assert(g[m] == cells[k2 + 1][m - a.len() - b.len() - d.len()]);
        }
    }
}

/// `r * x <= room` exactly when `x <= room / r`.
proof fn lemma_fits_quotient(r: int, x: int, room: int)
    requires
        r >= 1,
        room >= 0,
    ensures
        (r * x <= room) == (x <= room / r),
{
    let q = room / r;
    vstd::arithmetic::div_mod::lemma_fundamental_div_mod(room, r);
    assert((r * x <= room) == (x <= q)) by (nonlinear_arith)
        requires
            r >= 1,
            room == r * q + room % r,
            0 <= room % r < r,
    ;
}

/// Whether a pass over `grid` keeps every centre that starts within
/// `room` of the ends of `i64` inside that range: whether `radius` times
/// one more than the grid's [`grid_budget`] is at most `room`.
pub fn pass_fits(grid: &Grid, radius: i64, room: i64) -> (ok: bool)
    requires
        1 <= radius <= MAX_RADIUS,
        0 <= room,
        2 <= grid.rows,
        2 <= grid.cols,
        grid.cells@.len() == grid.rows * grid.cols,
        grid.rows * grid.cols <= MAX_CELLS,
    ensures
        ok == (radius * (grid_budget(grid.view_cells(), grid.rows as int, grid.cols as int) + 1)
            <= room),
{
    let ghost cells = grid.view_cells();
    let rows = grid.rows;
    let cols = grid.cols;
    let w = cols - 1;
    let ghost total = (rows - 1) * w;
    proof {
        assert(room / radius <= room) by (nonlinear_arith)
            requires
                radius >= 1,
                room >= 0,
        ;
    }
    let limit = (room / radius) as u128;
    proof {
        lemma_fits_quotient(radius as int, grid_budget(cells, rows as int, cols as int) + 1, room as int);
        lemma_pass_budget_grows(cells, cols as int, 0, total);
    }
    if limit < 1 {
        return false;
    }
    let mut acc: u128 = 0;
    let mut i: usize = 0;
    while i < rows - 1
        invariant
            cells == grid.view_cells(),
            cells.len() == rows * cols,
            rows == grid.rows,
            cols == grid.cols,
            w == cols - 1,
            2 <= cols,
            grid.cells@.len() == rows * cols,
            rows * cols <= MAX_CELLS,
            total == (rows - 1) * w,
            limit == room / radius,
            limit <= 0x8000_0000_0000_0000,
            i <= rows - 1,
            acc == pass_budget(cells, cols as int, i * w),
            acc + 1 <= limit,
            (radius * (grid_budget(cells, rows as int, cols as int) + 1) <= room) == (
            grid_budget(cells, rows as int, cols as int) + 1 <= limit),
        decreases rows - 1 - i,
    {
        let mut j: usize = 0;
        while j < w
            invariant
                cells == grid.view_cells(),
                cells.len() == rows * cols,
                rows == grid.rows,
                cols == grid.cols,
                w == cols - 1,
                2 <= cols,
                grid.cells@.len() == rows * cols,
                rows * cols <= MAX_CELLS,
                total == (rows - 1) * w,
                limit == room / radius,
                limit <= 0x8000_0000_0000_0000,
                i < rows - 1,
                j <= w,
                acc == pass_budget(cells, cols as int, i * w + j),
                acc + 1 <= limit,
                (radius * (grid_budget(cells, rows as int, cols as int) + 1) <= room) == (
                grid_budget(cells, rows as int, cols as int) + 1 <= limit),
            decreases w - j,
        {
            proof {
                lemma_block_index(i as int, j as int, w as int);
                assert((i + 1) * cols + j + 1 < rows * cols && i * w + j + 1 <= total && i * cols
                    + j >= 0 && (i + 1) * cols == i * cols + cols) by (nonlinear_arith)
                    requires
                        0 <= i,
                        i + 1 < rows,
                        0 <= j,
                        j + 1 < cols,
                        w == cols - 1,
                        total == (rows - 1) * w,
                ;
                lemma_pass_budget_grows(cells, cols as int, i * w + j + 1, total);
                assert(cells[i * cols + j] == grid.cells@[i * cols + j]@);
                assert(cells[i * cols + j + 1] == grid.cells@[i * cols + j + 1]@);
                assert(cells[(i + 1) * cols + j] == grid.cells@[(i + 1) * cols + j]@);
                assert(cells[(i + 1) * cols + j + 1] == grid.cells@[(i + 1) * cols + j + 1]@);
            }
            let len = grid.cells[i * cols + j].len() as u128 + grid.cells[i * cols + j + 1].len() as u128
                + grid.cells[(i + 1) * cols + j].len() as u128 + grid.cells[(i + 1) * cols + j + 1].len() as u128;
            let ghost g = block(cells, cols as int, i as int, j as int);
            proof {
                assert(len == g.len());
            }
            if len >= limit {
                proof {
                    assert(len * len >= len) by (nonlinear_arith)
                        requires
                            len >= 1,
                    ;
                }
                return false;
            }
            proof {
                assert(len * len < 0x4000_0000_0000_0000_0000_0000_0000_0000) by (nonlinear_arith)
                    requires
                        len < limit,
                        limit <= 0x8000_0000_0000_0000,
                ;
            }
            acc = acc + len * len;
            if acc + 1 > limit {
                return false;
            }
            j = j + 1;
        }
        proof {
            lemma_block_index(i as int, 0, w as int);
        }
        i = i + 1;
    }
    true
}

/// No two distinct particles overlap.
pub open spec fn all_separated(s: Seq<Ball>, radius: int) -> bool {
    forall|i: int, j: int|
        0 <= i < s.len() && 0 <= j < s.len() && i != j ==> dist_sq(#[trigger] s[i].pos, #[trigger] s[j].pos)
            >= (2 * radius) * (2 * radius)
}

proof fn lemma_separated_pair_kept(s: Seq<Ball>, ids: Seq<usize>, a: int, b: int, radius: int)
    requires
        all_separated(s, radius),
        0 <= a < ids.len(),
        0 <= b < ids.len(),
        forall|m: int| 0 <= m < ids.len() ==> #[trigger] ids[m] < s.len(),
    ensures
        resolve_pair(s, ids, a, b, radius) == s,
{
    let lo = if ids[a] < ids[b] {
        ids[a] as int
    } else {
        ids[b] as int
    };
    let hi = if ids[a] < ids[b] {
        ids[b] as int
    } else {
        ids[a] as int
    };
    if lo != hi {
        assert(dist_sq(s[lo].pos, s[hi].pos) >= (2 * radius) * (2 * radius));
        lemma_separated_pair_unchanged(s[lo], s[hi], radius);
        assert(s.update(lo, s[lo]).update(hi, s[hi]) =~= s);
    }
}

proof fn lemma_separated_from_kept(s: Seq<Ball>, ids: Seq<usize>, a: int, b: int, radius: int)
    requires
        all_separated(s, radius),
        0 <= a,
        b <= ids.len(),
        forall|m: int| 0 <= m < ids.len() ==> #[trigger] ids[m] < s.len(),
    ensures
        resolve_from(s, ids, a, b, radius) == s,
    decreases b - a,
{
    if b > a + 1 {
        lemma_separated_from_kept(s, ids, a, b - 1, radius);
        lemma_separated_pair_kept(s, ids, a, b - 1, radius);
    }
}

proof fn lemma_separated_prefix_kept(s: Seq<Ball>, ids: Seq<usize>, n: int, radius: int)
    requires
        all_separated(s, radius),
        n <= ids.len(),
        forall|m: int| 0 <= m < ids.len() ==> #[trigger] ids[m] < s.len(),
    ensures
        resolve_prefix(s, ids, n, radius) == s,
    decreases n,
{
    if n > 0 {
        lemma_separated_prefix_kept(s, ids, n - 1, radius);
        lemma_separated_from_kept(s, ids, n - 1, ids.len() as int, radius);
    }
}

/// A group whose particles are already separated is left as it is:
/// resolving it again, or in another group, changes nothing.
pub proof fn lemma_separated_group_unchanged(s: Seq<Ball>, ids: Seq<usize>, radius: int)
    requires
        all_separated(s, radius),
        forall|m: int| 0 <= m < ids.len() ==> #[trigger] ids[m] < s.len(),
    ensures
        resolve_group(s, ids, radius) == s,
{
    lemma_separated_prefix_kept(s, ids, ids.len() as int, radius);
}

/// A grid pass over particles that are already separated changes nothing,
/// however many groups share each pair.
pub proof fn lemma_separated_grid_unchanged(
    s: Seq<Ball>,
    cells: Seq<Seq<usize>>,
    rows: int,
    cols: int,
    radius: int,
)
    requires
        all_separated(s, radius),
        2 <= rows,
        2 <= cols,
        cells.len() == rows * cols,
        indices_below(cells, s.len() as int),
    ensures
        resolve_grid(s, cells, rows, cols, radius) == s,
{
    lemma_separated_groups_kept(s, cells, rows, cols, (rows - 1) * (cols - 1), radius);
}

proof fn lemma_separated_groups_kept(
    s: Seq<Ball>,
    cells: Seq<Seq<usize>>,
    rows: int,
    cols: int,
    n: int,
    radius: int,
)
    requires
        all_separated(s, radius),
        2 <= rows,
        2 <= cols,
        cells.len() == rows * cols,
        indices_below(cells, s.len() as int),
        n <= (rows - 1) * (cols - 1),
    ensures
        resolve_groups(s, cells, cols, n, radius) == s,
    decreases n,
{
    if n > 0 {
        lemma_separated_groups_kept(s, cells, rows, cols, n - 1, radius);
        let w = cols - 1;
        let i = (n - 1) / w;
        let j = (n - 1) % w;
        assert(0 <= i && i + 1 < rows && 0 <= j && j + 1 < cols && (i + 1) * cols + j + 1 < rows
            * cols) by (nonlinear_arith)
            requires
                w == cols - 1,
                w >= 1,
                0 <= n - 1 < (rows - 1) * w,
                i == (n - 1) / w,
                j == (n - 1) % w,
        ;
        lemma_group_indices(cells, cols, i, j, s.len() as int);
        lemma_separated_group_unchanged(s, block(cells, cols, i, j), radius);
    }
}

/// The pair `s` after one resolution.
pub open spec fn pair_resolved(s: Seq<Ball>, radius: int) -> Seq<Ball> {
    s.update(0, collide(s[0], s[1], radius).0).update(1, collide(s[0], s[1], radius).1)
}

/// A group over two particles resolves the pair once if it holds both,
/// and nothing otherwise.
proof fn lemma_group_of_two(t: Seq<Ball>, ids: Seq<usize>, radius: int)
    requires
        t.len() == 2,
        ids == seq![0usize, 1usize] || ids == seq![1usize, 0usize] || ids.len() <= 1,
    ensures
        ids.len() == 2 ==> resolve_group(t, ids, radius) == pair_resolved(t, radius),
        ids.len() <= 1 ==> resolve_group(t, ids, radius) == t,
{
    if ids.len() == 2 {
        assert(resolve_from(t, ids, 0, 1, radius) == t);
        assert(resolve_from(t, ids, 0, 2, radius) == resolve_pair(t, ids, 0, 1, radius));
        assert(resolve_prefix(t, ids, 0, radius) == t);
        assert(resolve_prefix(t, ids, 1, radius) == resolve_from(t, ids, 0, 2, radius));
        let u = resolve_prefix(t, ids, 1, radius);
        assert(resolve_from(u, ids, 1, 2, radius) == u);
        assert(resolve_prefix(t, ids, 2, radius) == u);
    } else if ids.len() == 1 {
        assert(resolve_prefix(t, ids, 0, radius) == t);
        assert(resolve_from(t, ids, 0, 1, radius) == t);
    }
}

/// Two overlapping particles inside the domain end the grid pass at
/// least one diameter apart: some group holds both, the first such group
/// separates them, and every later group leaves them so.
pub proof fn lemma_grid_separates_pair(s: Seq<Ball>, cfg: Config)
    requires
        cfg.wf(),
        s.len() == 2,
        all_inside(s, cfg),
        0 < dist_sq(s[0].pos, s[1].pos) < (2 * cfg.radius) * (2 * cfg.radius),
    ensures
        ({
            let t = resolve_grid(s, buckets(s, cfg), cfg.rows(), cfg.cols(), cfg.radius as int);
            dist_sq(t[0].pos, t[1].pos) >= (2 * cfg.radius) * (2 * cfg.radius)
        }),
{
    let r = cfg.radius as int;
    let cols = cfg.cols();
    let rows = cfg.rows();
    let cells = buckets(s, cfg);
    cfg.lemma_grid_dims();
    assert(inside(s[0].pos, cfg.rect, r));
    assert(inside(s[1].pos, cfg.rect, r));
    lemma_collide_separates(s[0], s[1], r);
    let done = pair_resolved(s, r);
    assert(all_separated(done, r)) by {
        assert forall|i: int, j: int|
            0 <= i < done.len() && 0 <= j < done.len() && i != j implies dist_sq(
            #[trigger] done[i].pos,
            #[trigger] done[j].pos,
        ) >= (2 * r) * (2 * r) by {
            let a = done[0].pos;
            let b = done[1].pos;
            assert(dist_sq(a, b) == dist_sq(b, a)) by (nonlinear_arith)
                requires
                    dist_sq(a, b) == (a.x - b.x) * (a.x - b.x) + (a.y - b.y) * (a.y - b.y),
                    dist_sq(b, a) == (b.x - a.x) * (b.x - a.x) + (b.y - a.y) * (b.y - a.y),
            ;
        }
    }
    lemma_close_pairs_share_a_group(s, cfg, 0, 1);
    let (gi, gj) = choose|i: int, j: int|
        0 <= i < rows - 1 && 0 <= j < cols - 1 && #[trigger] block(cells, cols, i, j).contains(
            0usize,
        ) && block(cells, cols, i, j).contains(1usize);
    lemma_block_index(gi, gj, cols - 1);
    assert(gi * (cols - 1) + gj < (rows - 1) * (cols - 1)) by (nonlinear_arith)
        requires
            0 <= gi < rows - 1,
            0 <= gj < cols - 1,
    ;
    lemma_groups_of_two(s, cfg, (rows - 1) * (cols - 1), gi * (cols - 1) + gj);
}

/// `[v]` if `c`, else empty.
pub open spec fn one_if(c: bool, v: usize) -> Seq<usize> {
    if c {
        seq![v]
    } else {
        Seq::<usize>::empty()
    }
}

/// The bucket of cell `k` over two particles holds the index of each
/// particle whose cell it is.
proof fn lemma_buckets_of_two(s: Seq<Ball>, cfg: Config, k: int)
    requires
        s.len() == 2,
    ensures
        bucket(s, 2, k, cfg.radius as int, cfg.cols()) == one_if(
            cell_of(s[0].pos, cfg.radius as int, cfg.cols()) == k,
            0,
        ) + one_if(cell_of(s[1].pos, cfg.radius as int, cfg.cols()) == k, 1),
{
    reveal_with_fuel(bucket, 3);
    let r = cfg.radius as int;
    let c = cfg.cols();
    let a = one_if(cell_of(s[0].pos, r, c) == k, 0);
    let b = one_if(cell_of(s[1].pos, r, c) == k, 1);
    assert(bucket(s, 1, k, r, c) =~= a);
    assert(bucket(s, 2, k, r, c) =~= a + b);
}

/// A candidate group over two particles holds each index at most once.
proof fn lemma_block_of_two(s: Seq<Ball>, cfg: Config, i: int, j: int)
    requires
        cfg.wf(),
        s.len() == 2,
        0 <= i < cfg.rows() - 1,
        0 <= j < cfg.cols() - 1,
    ensures
        ({
            let g = block(buckets(s, cfg), cfg.cols(), i, j);
            &&& g.len() <= 2
            &&& forall|m: int| 0 <= m < g.len() ==> #[trigger] g[m] < 2
            &&& g.len() == 2 ==> g[0] != g[1]
            &&& (g.contains(0usize) && g.contains(1usize)) ==> g.len() == 2
        }),
{
    let r = cfg.radius as int;
    let cols = cfg.cols();
    let rows = cfg.rows();
    let cells = buckets(s, cfg);
    assert((i + 1) * cols + j + 1 < rows * cols && i * cols + j >= 0 && (i + 1) * cols == i * cols
        + cols) by (nonlinear_arith)
        requires
            0 <= i,
            i + 1 < rows,
            0 <= j,
            j + 1 < cols,
    ;
    let k0 = i * cols + j;
    let k2 = k0 + cols;
    lemma_buckets_of_two(s, cfg, k0);
    lemma_buckets_of_two(s, cfg, k0 + 1);
    lemma_buckets_of_two(s, cfg, k2);
    lemma_buckets_of_two(s, cfg, k2 + 1);
    let c0 = cell_of(s[0].pos, r, cols);
    let c1 = cell_of(s[1].pos, r, cols);
    let g = block(cells, cols, i, j);
    let z = one_if(c0 == k0, 0) + one_if(c1 == k0, 1) + (one_if(c0 == k0 + 1, 0) + one_if(
        c1 == k0 + 1,
        1,
    )) + (one_if(c0 == k2, 0) + one_if(c1 == k2, 1)) + (one_if(c0 == k2 + 1, 0) + one_if(
        c1 == k2 + 1,
        1,
    ));
    assert(g =~= z);
    let in0 = c0 == k0 || c0 == k0 + 1 || c0 == k2 || c0 == k2 + 1;
    let in1 = c1 == k0 || c1 == k0 + 1 || c1 == k2 || c1 == k2 + 1;
    if in0 && in1 {
        if c0 == c1 || (c0 == k0) || (c0 == k0 + 1 && c1 != k0) || (c0 == k2 && c1 == k2 + 1) {
            assert(z =~= seq![0usize, 1usize]);
        } else {
            assert(z =~= seq![1usize, 0usize]);
        }
    } else if in0 {
        assert(z =~= seq![0usize]);
    } else if in1 {
        assert(z =~= seq![1usize]);
    } else {
        assert(z =~= Seq::<usize>::empty());
    }
}

/// Over two particles, the first `n` groups leave them as they were
/// until a group holds both, and resolved from then on.
proof fn lemma_groups_of_two(s: Seq<Ball>, cfg: Config, n: int, hit: int)
    requires
        cfg.wf(),
        s.len() == 2,
        all_separated(pair_resolved(s, cfg.radius as int), cfg.radius as int),
        0 <= n <= (cfg.rows() - 1) * (cfg.cols() - 1),
        0 <= hit < (cfg.rows() - 1) * (cfg.cols() - 1),
        ({
            let w = cfg.cols() - 1;
            let g = block(buckets(s, cfg), cfg.cols(), hit / w, hit % w);
            g.contains(0usize) && g.contains(1usize)
        }),
    ensures
        resolve_groups(s, buckets(s, cfg), cfg.cols(), n, cfg.radius as int) == s || resolve_groups(
            s,
            buckets(s, cfg),
            cfg.cols(),
            n,
            cfg.radius as int,
        ) == pair_resolved(s, cfg.radius as int),
        n > hit ==> resolve_groups(s, buckets(s, cfg), cfg.cols(), n, cfg.radius as int)
            == pair_resolved(s, cfg.radius as int),
    decreases n,
{
    let r = cfg.radius as int;
    let cols = cfg.cols();
    let rows = cfg.rows();
    let cells = buckets(s, cfg);
    let done = pair_resolved(s, r);
    if n > 0 {
        lemma_groups_of_two(s, cfg, n - 1, hit);
        let prev = resolve_groups(s, cells, cols, n - 1, r);
        let w = cols - 1;
        let i = (n - 1) / w;
        let j = (n - 1) % w;
        cfg.lemma_grid_dims();
        assert(0 <= i < rows - 1 && 0 <= j < w) by (nonlinear_arith)
            requires
                w >= 1,
                0 <= n - 1 < (rows - 1) * w,
                i == (n - 1) / w,
                j == (n - 1) % w,
        ;
        let g = block(cells, cols, i, j);
        lemma_block_of_two(s, cfg, i, j);
        assert(g.len() == 2 ==> g == seq![0usize, 1usize] || g == seq![1usize, 0usize]) by {
            if g.len() == 2 {
                if g[0] == 0 {
                    assert(g =~= seq![0usize, 1usize]);
                } else {
                    assert(g =~= seq![1usize, 0usize]);
                }
            }
        }
        lemma_group_of_two(prev, g, r);
        assert(pair_resolved(done, r) =~= done) by {
            assert(dist_sq(done[0].pos, done[1].pos) >= (2 * r) * (2 * r));
            lemma_separated_pair_unchanged(done[0], done[1], r);
        }
        assert(pair_resolved(s, r) == done);
        if n - 1 == hit {
            assert(g.len() == 2);
        }
    }
}

} // verus!
