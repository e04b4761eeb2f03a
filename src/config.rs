//! The static description of a simulation: its domain, particle size,
//! forces and spawn policy.
use vstd::prelude::*;
use crate::geometry::Vec2;

verus! {

/// Microseconds in one second.
pub const MICROS_PER_SECOND: u64 = 1_000_000;

/// Largest accepted width or height of the domain.
pub const MAX_EXTENT: i64 = 1_073_741_824;

/// Largest accepted particle radius.
pub const MAX_RADIUS: i64 = 1_048_576;

/// The terminal speed, in length units per second: the largest speed the
/// integer model carries. A step that would leave a particle faster scales
/// its velocity down to this length.
pub const MAX_SPEED: i64 = 1_073_741_824;

/// Largest accepted gravity component.
pub const MAX_ACCEL: i64 = 1_073_741_824;

/// Largest accepted denominator of the damping ratio.
pub const MAX_DAMPING_DEN: i64 = 1_048_576;

/// Largest accepted number of grid cells.
pub const MAX_CELLS: i64 = 16_777_216;

/// Largest accepted spawn rate, in waves per second.
pub const MAX_SPAWN_RATE: u64 = 1_000_000;

/// The domain rectangle. Particle positions are relative to its corner
/// `(x, y)`, which only places it on screen; the walls lie at `0` and
/// `width` across, at `0` and `height` down.
#[derive(Clone, Copy, Debug, PartialEq, Eq, Structural)]
pub struct Rect {
    pub x: i64,
    pub y: i64,
    pub width: i64,
    pub height: i64,
}

/// Everything that stays fixed while a simulation runs.
#[derive(Clone, Copy, Debug, PartialEq, Eq, Structural)]
pub struct Config {
    pub rect: Rect,
    /// The radius shared by every particle.
    pub radius: i64,
    /// Acceleration, in length units per second squared.
    pub gravity: Vec2,
    /// Each sub-step multiplies velocity by `damping_num / damping_den`.
    pub damping_num: i64,
    pub damping_den: i64,
    /// Spawn waves per second.
    pub spawn_rate: u64,
    /// A frame of this many microseconds or more spawns nothing.
    pub spawn_ceiling: u32,
    /// Where the first spawner places its particles.
    pub spawn_origin: Vec2,
    /// Vertical distance between neighbouring spawners.
    pub spawn_spacing: i64,
    /// Initial velocity of spawned particles.
    pub spawn_velocity: Vec2,
}

/// The standard setup, at 1000 length units per pixel: a 650 by 650
/// pixel box, particles of radius 5 pixels, gravity of 980 pixels per
/// second squared, 30 spawn waves per second, and a spawn ceiling of 12
/// milliseconds.
pub open spec fn standard_config() -> Config {
    Config {
        rect: Rect { x: 25_000, y: 25_000, width: 650_000, height: 650_000 },
        radius: 5_000,
        gravity: Vec2 { x: 0, y: 980_000 },
        damping_num: 9_999,
        damping_den: 10_000,
        spawn_rate: 30,
        spawn_ceiling: 12_000,
        spawn_origin: Vec2 { x: 5_000, y: 100_000 },
        spawn_spacing: 15_000,
        spawn_velocity: Vec2 { x: 500_000, y: 0 },
    }
}

/// Number of cells of side `2 * radius` needed to cover `extent`.
pub open spec fn cells_across(extent: int, radius: int) -> int {
    (extent + 2 * radius - 1) / (2 * radius)
}

impl Config {
    pub open spec fn rows(self) -> int {
        cells_across(self.rect.height as int, self.radius as int)
    }

    pub open spec fn cols(self) -> int {
        cells_across(self.rect.width as int, self.radius as int)
    }

    /// The limits under which every computation of the library stays
    /// within its integer types.
    pub open spec fn wf(self) -> bool {
        &&& 1 <= self.radius <= MAX_RADIUS
        &&& 2 * self.radius < self.rect.width <= MAX_EXTENT
        &&& 2 * self.radius < self.rect.height <= MAX_EXTENT
        &&& self.rows() * self.cols() <= MAX_CELLS
        &&& -MAX_ACCEL <= self.gravity.x <= MAX_ACCEL
        &&& -MAX_ACCEL <= self.gravity.y <= MAX_ACCEL
        &&& 1 <= self.damping_den <= MAX_DAMPING_DEN
        &&& 0 <= self.damping_num <= self.damping_den
        &&& self.spawn_rate <= MAX_SPAWN_RATE
        &&& -MAX_EXTENT <= self.spawn_origin.x <= MAX_EXTENT
        &&& -MAX_EXTENT <= self.spawn_origin.y <= MAX_EXTENT
        &&& -MAX_EXTENT <= self.spawn_spacing <= MAX_EXTENT
        &&& self.spawn_velocity.norm_sq() <= MAX_SPEED * MAX_SPEED
    }

    /// The standard setup: see [`standard_config`].
    pub fn standard() -> (c: Config)
        ensures
            c == standard_config(),
            c.wf(),
    {
        let c = Config {
            rect: Rect { x: 25_000, y: 25_000, width: 650_000, height: 650_000 },
            radius: 5_000,
            gravity: Vec2 { x: 0, y: 980_000 },
            damping_num: 9_999,
            damping_den: 10_000,
                spawn_rate: 30,
            spawn_ceiling: 12_000,
            spawn_origin: Vec2 { x: 5_000, y: 100_000 },
            spawn_spacing: 15_000,
            spawn_velocity: Vec2 { x: 500_000, y: 0 },
        };
        assert(659_999int / 10_000int == 65) by (nonlinear_arith);
        assert(cells_across(650_000, 5_000) == 65);
        assert(c.rows() == 65 && c.cols() == 65);
        assert(c.rows() * c.cols() == 4225);
        assert(c.spawn_velocity.norm_sq() == 250_000_000_000);
        assert(MAX_SPEED * MAX_SPEED == 1_152_921_504_606_846_976);
        c
    }

    /// Number of grid rows.
    pub fn grid_rows(&self) -> (n: usize)
        requires
            self.wf(),
        ensures
            n == self.rows(),
            2 <= n,
            n * self.cols() <= MAX_CELLS,
    {
        proof {
            self.lemma_grid_dims();
        }
        let d = 2 * self.radius;
        ((self.rect.height + d - 1) / d) as usize
    }

    /// Number of grid columns.
    pub fn grid_cols(&self) -> (n: usize)
        requires
            self.wf(),
        ensures
            n == self.cols(),
            2 <= n,
            self.rows() * n <= MAX_CELLS,
    {
        proof {
            self.lemma_grid_dims();
        }
        let d = 2 * self.radius;
        ((self.rect.width + d - 1) / d) as usize
    }

    /// The grid has at least two rows and two columns, and covers the
    /// domain.
    pub proof fn lemma_grid_dims(self)
        requires
            self.wf(),
        ensures
            2 <= self.rows() <= MAX_EXTENT,
            2 <= self.cols() <= MAX_EXTENT,
            self.rows() * (2 * self.radius) >= self.rect.height,
            self.cols() * (2 * self.radius) >= self.rect.width,
    {
        lemma_cells_across(self.rect.height as int, self.radius as int);
        lemma_cells_across(self.rect.width as int, self.radius as int);
    }

    /// Whether the configuration lies within the accepted limits.
    pub fn is_valid(&self) -> (ok: bool)
        ensures
            ok == self.wf(),
    {
        if !(1 <= self.radius && self.radius <= MAX_RADIUS) {
            return false;
        }
        if !(2 * self.radius < self.rect.width && self.rect.width <= MAX_EXTENT) {
            return false;
        }
        if !(2 * self.radius < self.rect.height && self.rect.height <= MAX_EXTENT) {
            return false;
        }
        let d = 2 * self.radius;
        let rows = (self.rect.height + d - 1) / d;
        let cols = (self.rect.width + d - 1) / d;
        proof {
            lemma_cells_across(self.rect.height as int, self.radius as int);
            lemma_cells_across(self.rect.width as int, self.radius as int);
            assert(rows * cols <= MAX_EXTENT * MAX_EXTENT) by (nonlinear_arith)
                requires
                    0 <= rows <= MAX_EXTENT,
                    0 <= cols <= MAX_EXTENT,
            ;
        }
        let v = self.spawn_velocity;
        let m = MAX_SPEED;
        if !(-m <= v.x && v.x <= m && -m <= v.y && v.y <= m) {
            proof {
                if v.norm_sq() <= m * m {
                    lemma_component_bound(v, m as int);
                }
            }
            return false;
        }
        proof {
            assert(0 <= v.x * v.x <= m * m && 0 <= v.y * v.y <= m * m) by (nonlinear_arith)
                requires
                    -m <= v.x <= m,
                    -m <= v.y <= m,
            ;
            assert(m * m <= MAX_SPEED * MAX_SPEED) by (nonlinear_arith)
                requires
                    0 <= m <= MAX_SPEED,
            ;
        }
        let vx = v.x as i128;
        let vy = v.y as i128;
        let mm = m as i128;
        let vv = vx * vx + vy * vy;
        (rows as i128) * (cols as i128) <= MAX_CELLS as i128
            && -MAX_ACCEL <= self.gravity.x && self.gravity.x <= MAX_ACCEL
            && -MAX_ACCEL <= self.gravity.y && self.gravity.y <= MAX_ACCEL
            && 1 <= self.damping_den && self.damping_den <= MAX_DAMPING_DEN
            && 0 <= self.damping_num && self.damping_num <= self.damping_den
            && self.spawn_rate <= MAX_SPAWN_RATE
            && -MAX_EXTENT <= self.spawn_origin.x && self.spawn_origin.x <= MAX_EXTENT
            && -MAX_EXTENT <= self.spawn_origin.y && self.spawn_origin.y <= MAX_EXTENT
            && -MAX_EXTENT <= self.spawn_spacing && self.spawn_spacing <= MAX_EXTENT
            && vv <= mm * mm
    }
}

/// A vector no longer than `m` has no component longer than `m`.
pub proof fn lemma_component_bound(v: Vec2, m: int)
    requires
        0 <= m,
        v.norm_sq() <= m * m,
    ensures
        -m <= v.x <= m,
        -m <= v.y <= m,
{
    assert(-m <= v.x <= m && -m <= v.y <= m) by (nonlinear_arith)
        requires
            0 <= m,
            v.x * v.x + v.y * v.y <= m * m,
    ;
}

proof fn lemma_cells_across(extent: int, radius: int)
    requires
        1 <= radius,
        2 * radius < extent <= MAX_EXTENT,
    ensures
        2 <= cells_across(extent, radius) <= MAX_EXTENT,
        cells_across(extent, radius) * (2 * radius) >= extent,
{
    let d = 2 * radius;
    let n = cells_across(extent, radius);
    assert(n * d >= extent && n >= 2 && n <= extent) by (nonlinear_arith)
        requires
            d >= 2,
            d < extent,
            n == (extent + d - 1) / d,
    ;
}

} // verus!
