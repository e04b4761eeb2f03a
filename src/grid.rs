//! The broad phase: a uniform grid of cells one particle diameter wide,
//! each holding the indices of the particles whose centres fall in it.
use vstd::prelude::*;
use crate::ball::{inside, Ball};
use crate::config::{Config, MAX_CELLS};
use crate::geometry::{dist_sq, Vec2};

verus! {

/// The cell, in row-major order, that holds a centre `p`, for cells of
/// side `2 * radius` and `cols` columns.
pub open spec fn cell_of(p: Vec2, radius: int, cols: int) -> int {
    (p.y as int / (2 * radius)) * cols + p.x as int / (2 * radius)
}

/// The indices below `n` of the particles in cell `cell`, in increasing
/// order.
pub open spec fn bucket(balls: Seq<Ball>, n: int, cell: int, radius: int, cols: int) -> Seq<usize>
    decreases n,
{
    if n <= 0 {
        seq![]
    } else {
        let prev = bucket(balls, n - 1, cell, radius, cols);
        if cell_of(balls[n - 1].pos, radius, cols) == cell {
            prev.push((n - 1) as usize)
        } else {
            prev
        }
    }
}

/// Every centre lies inside the domain.
pub open spec fn all_inside(balls: Seq<Ball>, cfg: Config) -> bool {
    forall|i: int| 0 <= i < balls.len() ==> #[trigger] inside(balls[i].pos, cfg.rect, cfg.radius as int)
}

/// The buckets of every cell, in row-major order.
pub open spec fn buckets(balls: Seq<Ball>, cfg: Config) -> Seq<Seq<usize>> {
    Seq::new(
        (cfg.rows() * cfg.cols()) as nat,
        |k: int| bucket(balls, balls.len() as int, k, cfg.radius as int, cfg.cols()),
    )
}

/// The candidate group of the 2 by 2 block of `cells` whose top left cell
/// is at row `i`, column `j`: the four buckets one after another.
pub open spec fn block(cells: Seq<Seq<usize>>, cols: int, i: int, j: int) -> Seq<usize> {
    cells[i * cols + j] + cells[i * cols + j + 1] + cells[(i + 1) * cols + j] + cells[(i + 1) * cols
        + j + 1]
}

/// Each bucket lists indices of particles only.
pub proof fn lemma_bucket_below(balls: Seq<Ball>, n: int, cell: int, radius: int, cols: int)
    ensures
        forall|m: int|
            0 <= m < bucket(balls, n, cell, radius, cols).len() ==> #[trigger] bucket(
                balls,
                n,
                cell,
                radius,
                cols,
            )[m] < n,
    decreases n,
{
    if n > 0 {
        lemma_bucket_below(balls, n - 1, cell, radius, cols);
        let prev = bucket(balls, n - 1, cell, radius, cols);
        let cur = bucket(balls, n, cell, radius, cols);
        assert forall|m: int| 0 <= m < cur.len() implies #[trigger] cur[m] < n by {
            if m < prev.len() {
                assert(cur[m] == prev[m]);
            }
        }
    }
}

/// The grid of one sub-step; `cells` holds `rows * cols` buckets in
/// row-major order.
pub struct Grid {
    pub rows: usize,
    pub cols: usize,
    pub cells: Vec<Vec<usize>>,
}

impl Grid {
    /// The buckets as sequences of indices.
    pub open spec fn view_cells(self) -> Seq<Seq<usize>> {
        self.cells@.map_values(|c: Vec<usize>| c@)
    }

    /// The grid holds exactly the buckets of `balls` under `cfg`.
    pub open spec fn of(self, balls: Seq<Ball>, cfg: Config) -> bool {
        &&& self.rows == cfg.rows()
        &&& self.cols == cfg.cols()
        &&& self.cells@.len() == self.rows * self.cols
        &&& self.view_cells() == buckets(balls, *&cfg)
    }

    /// Sorts every particle into its cell.
    pub fn build(balls: &Vec<Ball>, cfg: &Config) -> (g: Grid)
        requires
            cfg.wf(),
            all_inside(balls@, *cfg),
        ensures
            g.of(balls@, *cfg),
    {
        let rows = cfg.grid_rows();
        let cols = cfg.grid_cols();
        let n = rows * cols;
        let mut cells: Vec<Vec<usize>> = Vec::new();
        let mut k: usize = 0;
        while k < n
            invariant
                k <= n,
                n == rows * cols,
                cells@.len() == k,
                forall|c: int| 0 <= c < k ==> (#[trigger] cells@[c])@ == Seq::<usize>::empty(),
            decreases n - k,
        {
            cells.push(Vec::new());
            k = k + 1;
        }
        let d = 2 * cfg.radius;
        let mut i: usize = 0;
        while i < balls.len()
            invariant
                cfg.wf(),
                all_inside(balls@, *cfg),
                i <= balls.len(),
                n == rows * cols,
                rows == cfg.rows(),
                cols == cfg.cols(),
                d == 2 * cfg.radius,
                cells@.len() == n,
                forall|c: int|
                    0 <= c < n ==> (#[trigger] cells@[c])@ == bucket(
                        balls@,
                        i as int,
                        c,
                        cfg.radius as int,
                        cols as int,
                    ),
            decreases balls.len() - i,
        {
            let p = balls[i].pos;
            proof {
                assert(inside(balls@[i as int].pos, cfg.rect, cfg.radius as int));
                cfg.lemma_grid_dims();
                lemma_cell_in_range(p, *cfg);
            }
            let c = (p.y / d) as usize * cols + (p.x / d) as usize;
            let ghost before = cells@;
            cells[c].push(i);
            proof {
                assert forall|e: int| 0 <= e < n implies (#[trigger] cells@[e])@ == bucket(
                    balls@,
                    i + 1,
                    e,
                    cfg.radius as int,
                    cols as int,
                ) by {
                    if e != c {
                        assert(cells@[e] == before[e]);
                    }
                }
            }
            i = i + 1;
        }
        let g = Grid { rows, cols, cells };
        assert(g.view_cells() =~= buckets(balls@, *cfg));
        g
    }

    /// The candidate group at row `i`, column `j`: the indices of the four
    /// cells of that 2 by 2 block, one cell after another.
    pub fn group(&self, i: usize, j: usize) -> (ids: Vec<usize>)
        requires
            i + 1 < self.rows,
            j + 1 < self.cols,
            self.cells@.len() == self.rows * self.cols,
            self.rows * self.cols <= MAX_CELLS,
        ensures
            ids@ == block(self.view_cells(), self.cols as int, i as int, j as int),
    {
        proof {
            lemma_block_in_range(self.rows as int, self.cols as int, i as int, j as int);
        }
        let c = self.cols;
        proof {
            assert(self.view_cells()[i * c + j] == self.cells@[i * c + j]@);
            assert(self.view_cells()[i * c + j + 1] == self.cells@[i * c + j + 1]@);
            assert(self.view_cells()[(i + 1) * c + j] == self.cells@[(i + 1) * c + j]@);
            assert(self.view_cells()[(i + 1) * c + j + 1] == self.cells@[(i + 1) * c + j + 1]@);
        }
        let mut ids: Vec<usize> = Vec::new();
        append_all(&mut ids, &self.cells[i * c + j]);
        append_all(&mut ids, &self.cells[i * c + j + 1]);
        append_all(&mut ids, &self.cells[(i + 1) * c + j]);
        append_all(&mut ids, &self.cells[(i + 1) * c + j + 1]);
        ids
    }
}

proof fn lemma_block_in_range(rows: int, cols: int, i: int, j: int)
    requires
        0 <= i,
        i + 1 < rows,
        0 <= j,
        j + 1 < cols,
        rows * cols <= MAX_CELLS,
    ensures
        (i + 1) * cols + j + 1 < rows * cols,
        i * cols + j >= 0,
        (i + 1) * cols == i * cols + cols,
{
    assert((i + 1) * cols + j + 1 < rows * cols && i * cols + j >= 0 && (i + 1) * cols == i * cols
        + cols) by (nonlinear_arith)
        requires
            0 <= i,
            i + 1 < rows,
            0 <= j,
            j + 1 < cols,
    ;
}

/// The cell of a centre inside the domain exists.
proof fn lemma_cell_in_range(p: Vec2, cfg: Config)
    requires
        cfg.wf(),
        inside(p, cfg.rect, cfg.radius as int),
    ensures
        0 <= p.x as int / (2 * cfg.radius) < cfg.cols(),
        0 <= p.y as int / (2 * cfg.radius) < cfg.rows(),
        0 <= cell_of(p, cfg.radius as int, cfg.cols()) < cfg.rows() * cfg.cols(),
{
    cfg.lemma_grid_dims();
    let d = 2 * cfg.radius;
    let cx = p.x as int / d;
    let cy = p.y as int / d;
    let rows = cfg.rows();
    let cols = cfg.cols();
    assert(0 <= cx < cols) by (nonlinear_arith)
        requires
            d >= 2,
            0 <= p.x < cfg.rect.width,
            cols * d >= cfg.rect.width,
            cx == p.x as int / d,
    ;
    assert(0 <= cy < rows) by (nonlinear_arith)
        requires
            d >= 2,
            0 <= p.y < cfg.rect.height,
            rows * d >= cfg.rect.height,
            cy == p.y as int / d,
    ;
    assert(0 <= cy * cols + cx < rows * cols) by (nonlinear_arith)
        requires
            0 <= cx < cols,
            0 <= cy < rows,
    ;
}

/// Appends every element of `src` to `dst`.
fn append_all(dst: &mut Vec<usize>, src: &Vec<usize>)
    ensures
        final(dst)@ == old(dst)@ + src@,
{
    let mut k: usize = 0;
    while k < src.len()
        invariant
            k <= src.len(),
            dst@ == old(dst)@ + src@.take(k as int),
        decreases src.len() - k,
    {
        dst.push(src[k]);
        k = k + 1;
        proof {
            assert(src@.take(k as int) == src@.take(k - 1).push(src@[k - 1]));
        }
    }
    proof {
        assert(src@.take(src.len() as int) == src@);
    }
}

/// A particle lies in the bucket of its own cell.
pub proof fn lemma_bucket_contains(balls: Seq<Ball>, n: int, p: int, radius: int, cols: int)
    requires
        0 <= p < n <= balls.len(),
    ensures
        bucket(balls, n, cell_of(balls[p].pos, radius, cols), radius, cols).contains(p as usize),
    decreases n,
{
    let k = cell_of(balls[p].pos, radius, cols);
    let cur = bucket(balls, n, k, radius, cols);
    if p == n - 1 {
        assert(cur[cur.len() - 1] == p as usize);
    } else {
        lemma_bucket_contains(balls, n - 1, p, radius, cols);
        let prev = bucket(balls, n - 1, k, radius, cols);
        let m = choose|m: int| 0 <= m < prev.len() && prev[m] == p as usize;
        assert(cur[m] == p as usize);
    }
}

/// Two cell coordinates of centres less than one cell apart differ by at
/// most one, and a block origin covering both exists.
proof fn lemma_near_cells(a: int, b: int, d: int, extent: int, n: int)
    requires
        d >= 2,
        0 <= a < extent,
        0 <= b < extent,
        -d < a - b < d,
        n * d >= extent,
        n >= 2,
    ensures
        0 <= a / d < n,
        0 <= b / d < n,
        ({
            let o = if a / d < b / d {
                a / d
            } else {
                b / d
            };
            let o2 = if o == n - 1 {
                o - 1
            } else {
                o
            };
            0 <= o2 < n - 1 && o2 <= a / d <= o2 + 1 && o2 <= b / d <= o2 + 1
        }),
{
    let ca = a / d;
    let cb = b / d;
    assert(0 <= ca < n && 0 <= cb < n && -1 <= ca - cb <= 1) by (nonlinear_arith)
        requires
            d >= 2,
            0 <= a < extent,
            0 <= b < extent,
            -d < a - b < d,
            n * d >= extent,
            ca == a / d,
            cb == b / d,
    ;
}

/// Two particles closer than one diameter share a candidate group: the
/// grid never hides an overlapping pair from the narrow phase.
pub proof fn lemma_close_pairs_share_a_group(balls: Seq<Ball>, cfg: Config, p: int, q: int)
    requires
        cfg.wf(),
        all_inside(balls, cfg),
        0 <= p < balls.len(),
        0 <= q < balls.len(),
        dist_sq(balls[p].pos, balls[q].pos) < (2 * cfg.radius) * (2 * cfg.radius),
    ensures
        exists|i: int, j: int|
            0 <= i < cfg.rows() - 1 && 0 <= j < cfg.cols() - 1 && #[trigger] block(
                buckets(balls, cfg),
                cfg.cols(),
                i,
                j,
            ).contains(p as usize) && block(buckets(balls, cfg), cfg.cols(), i, j).contains(
                q as usize,
            ),
{
    cfg.lemma_grid_dims();
    let d = 2 * cfg.radius as int;
    let r = cfg.radius as int;
    let cols = cfg.cols();
    let rows = cfg.rows();
    let a = balls[p].pos;
    let b = balls[q].pos;
    assert(inside(a, cfg.rect, r));
    assert(inside(b, cfg.rect, r));
    assert(-d < a.x - b.x < d && -d < a.y - b.y < d) by (nonlinear_arith)
        requires
            (a.x - b.x) * (a.x - b.x) + (a.y - b.y) * (a.y - b.y) < d * d,
            d >= 2,
    ;
    lemma_near_cells(a.x as int, b.x as int, d, cfg.rect.width as int, cols);
    lemma_near_cells(a.y as int, b.y as int, d, cfg.rect.height as int, rows);
    let ox = if a.x as int / d < b.x as int / d {
        a.x as int / d
    } else {
        b.x as int / d
    };
    let j = if ox == cols - 1 {
        ox - 1
    } else {
        ox
    };
    let oy = if a.y as int / d < b.y as int / d {
        a.y as int / d
    } else {
        b.y as int / d
    };
    let i = if oy == rows - 1 {
        oy - 1
    } else {
        oy
    };
    lemma_block_holds(balls, cfg, p, i, j);
    lemma_block_holds(balls, cfg, q, i, j);
}

/// A particle whose cell lies in the block at `(i, j)` is in its group.
proof fn lemma_block_holds(balls: Seq<Ball>, cfg: Config, p: int, i: int, j: int)
    requires
        cfg.wf(),
        0 <= p < balls.len(),
        0 <= i < cfg.rows() - 1,
        0 <= j < cfg.cols() - 1,
        i <= balls[p].pos.y as int / (2 * cfg.radius) <= i + 1,
        j <= balls[p].pos.x as int / (2 * cfg.radius) <= j + 1,
    ensures
        block(buckets(balls, cfg), cfg.cols(), i, j).contains(p as usize),
{
    let d = 2 * cfg.radius as int;
    let cols = cfg.cols();
    let rows = cfg.rows();
    let cx = balls[p].pos.x as int / d;
    let cy = balls[p].pos.y as int / d;
    let k = cell_of(balls[p].pos, cfg.radius as int, cols);
    let n = balls.len() as int;
    lemma_bucket_contains(balls, n, p, cfg.radius as int, cols);
    let cells = buckets(balls, cfg);
    assert((i + 1) * cols + j + 1 < rows * cols && i * cols + j >= 0 && (i + 1) * cols == i * cols
        + cols && k == cy * cols + cx) by (nonlinear_arith)
        requires
            0 <= i,
            i + 1 < rows,
            0 <= j,
            j + 1 < cols,
            k == cy * cols + cx,
    ;
    let k0 = i * cols + j;
    let k2 = (i + 1) * cols + j;
    assert(k == k0 || k == k0 + 1 || k == k2 || k == k2 + 1) by (nonlinear_arith)
        requires
            k == cy * cols + cx,
            i <= cy <= i + 1,
            j <= cx <= j + 1,
            k0 == i * cols + j,
            k2 == (i + 1) * cols + j,
    ;
    assert(cells[k] == bucket(balls, n, k, cfg.radius as int, cols));
    let g = block(cells, cols, i, j);
    let m = choose|m: int| 0 <= m < cells[k].len() && cells[k][m] == p as usize;
    let l0 = cells[k0].len();
    let l1 = cells[k0 + 1].len();
    let l2 = cells[k2].len();
    if k == k0 {
        assert(g[m] == p as usize);
    } else if k == k0 + 1 {
        assert(g[l0 + m] == p as usize);
    } else if k == k2 {
        assert(g[l0 + l1 + m] == p as usize);
    } else {
        assert(g[l0 + l1 + l2 + m] == p as usize);
    }
}

} // verus!
