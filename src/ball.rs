//! Particles and their motion between collisions.
use vstd::prelude::*;
use crate::config::{Config, Rect, MAX_ACCEL, MAX_EXTENT, MAX_RADIUS, MAX_SPEED, MICROS_PER_SECOND};
use crate::geometry::{
    abs, ceil_isqrt, dist_sq, ceil_sqrt, div_toward_zero, lemma_ceil_sqrt, lemma_quot_toward_zero,
    quot_toward_zero, Vec2,
};

verus! {

/// A particle: its centre and its velocity.
#[derive(Clone, Copy, Debug, PartialEq, Eq, Structural)]
pub struct Ball {
    pub pos: Vec2,
    pub vel: Vec2,
}

/// `a * dt` for `dt` in microseconds: the change over `dt` of a quantity
/// that changes by `a` per second, rounded toward zero.
pub open spec fn scaled(a: int, dt: int) -> int {
    quot_toward_zero(a * dt, MICROS_PER_SECOND as int)
}

/// The velocity `(vx, vy)` held to the terminal speed `max`: a faster one
/// is scaled down to that length, rounding toward zero.
pub open spec fn capped(vx: int, vy: int, max: int) -> (int, int) {
    let n = vx * vx + vy * vy;
    if n <= max * max {
        (vx, vy)
    } else {
        let c = ceil_sqrt(n as nat) as int;
        (quot_toward_zero(vx * max, c), quot_toward_zero(vy * max, c))
    }
}

/// One explicit Euler step of `dt` microseconds: gravity, then damping,
/// then the move. A velocity faster than [`MAX_SPEED`], the largest the
/// integer model carries, is first scaled down to that speed.
pub open spec fn integrated(b: Ball, cfg: Config, dt: int) -> Ball {
    let ux = quot_toward_zero(
        (b.vel.x + scaled(cfg.gravity.x as int, dt)) * cfg.damping_num,
        cfg.damping_den as int,
    );
    let uy = quot_toward_zero(
        (b.vel.y + scaled(cfg.gravity.y as int, dt)) * cfg.damping_num,
        cfg.damping_den as int,
    );
    let (vx, vy) = capped(ux, uy, MAX_SPEED as int);
    Ball {
        pos: Vec2 { x: (b.pos.x + scaled(vx, dt)) as i64, y: (b.pos.y + scaled(vy, dt)) as i64 },
        vel: Vec2 { x: vx as i64, y: vy as i64 },
    }
}

/// A coordinate brought back between the walls `lo` and `hi`: mirrored in
/// the wall it crossed, and held at the wall if it was so far out that the
/// mirror image lies beyond the other one.
pub open spec fn reflect_axis(p: int, lo: int, hi: int) -> int {
    let once = if p > hi {
        2 * hi - p
    } else {
        p
    };
    let twice = if once < lo {
        2 * lo - once
    } else {
        once
    };
    if twice > hi {
        hi
    } else if twice < lo {
        lo
    } else {
        twice
    }
}

/// The velocity component along an axis after [`reflect_axis`]: inverted
/// at each mirroring.
pub open spec fn bounce_axis(p: int, v: int, lo: int, hi: int) -> int {
    let once = if p > hi {
        2 * hi - p
    } else {
        p
    };
    let v_once = if p > hi {
        -v
    } else {
        v
    };
    if once < lo {
        -v_once
    } else {
        v_once
    }
}

/// The rectangle holds a particle of this radius with room to move.
pub open spec fn fits(rect: Rect, radius: int) -> bool {
    &&& 1 <= radius <= MAX_RADIUS
    &&& 2 * radius < rect.width <= MAX_EXTENT
    &&& 2 * radius < rect.height <= MAX_EXTENT
}

/// The centre `p` lies where a particle of this radius touches no wall
/// from outside: `radius <= x <= width - radius`, likewise for `y`.
pub open spec fn inside(p: Vec2, rect: Rect, radius: int) -> bool {
    &&& radius <= p.x <= rect.width - radius
    &&& radius <= p.y <= rect.height - radius
}

pub open spec fn contained(b: Ball, rect: Rect, radius: int) -> Ball {
    let lo = radius;
    let hx = rect.width - radius;
    let hy = rect.height - radius;
    Ball {
        pos: Vec2 {
            x: reflect_axis(b.pos.x as int, lo, hx) as i64,
            y: reflect_axis(b.pos.y as int, lo, hy) as i64,
        },
        vel: Vec2 {
            x: bounce_axis(b.pos.x as int, b.vel.x as int, lo, hx) as i64,
            y: bounce_axis(b.pos.y as int, b.vel.y as int, lo, hy) as i64,
        },
    }
}

/// `|quot_toward_zero(n, d)| <= bound` whenever `|n| <= bound * d`.
proof fn lemma_quot_bound(n: int, d: int, bound: int)
    requires
        d > 0,
        bound >= 0,
        -(bound * d) <= n <= bound * d,
    ensures
        -bound <= quot_toward_zero(n, d) <= bound,
{
    lemma_quot_toward_zero(n, d);
    let q = quot_toward_zero(n, d);
    assert(abs(n) <= bound * d);
    assert(abs(q) <= bound) by (nonlinear_arith)
        requires
            abs(q) * d <= abs(n),
            abs(n) <= bound * d,
            d > 0,
            abs(q) >= 0,
    ;
}

/// A scaled-down velocity is within the terminal speed.
proof fn lemma_capped(vx: int, vy: int, max: int)
    requires
        0 <= max,
        vx * vx + vy * vy > max * max,
    ensures
        capped(vx, vy, max).0 * capped(vx, vy, max).0 + capped(vx, vy, max).1 * capped(
            vx,
            vy,
            max,
        ).1 <= max * max,
        ceil_sqrt((vx * vx + vy * vy) as nat) > 0,
{
    let n = vx * vx + vy * vy;
    lemma_ceil_sqrt(n as nat);
    let c = ceil_sqrt(n as nat) as int;
    assert(n > 0) by (nonlinear_arith)
        requires
            n > max * max,
            max >= 0,
    ;
    let qx = quot_toward_zero(vx * max, c);
    let qy = quot_toward_zero(vy * max, c);
    lemma_quot_toward_zero(vx * max, c);
    lemma_quot_toward_zero(vy * max, c);
    let mm = max * max;
    let cc = c * c;
    assert((vx * max) * (vx * max) == vx * vx * mm && (vy * max) * (vy * max) == vy * vy * mm)
        by (nonlinear_arith)
        requires
            mm == max * max,
    ;
    let s = qx * qx + qy * qy;
    assert(s * cc <= n * mm) by (nonlinear_arith)
        requires
            qx * qx * cc <= vx * vx * mm,
            qy * qy * cc <= vy * vy * mm,
            n == vx * vx + vy * vy,
            s == qx * qx + qy * qy,
    ;
    assert(n * mm <= cc * mm) by (nonlinear_arith)
        requires
            n <= cc,
            mm >= 0,
    ;
    assert(s <= mm) by (nonlinear_arith)
        requires
            s * cc <= cc * mm,
            cc > 0,
    ;
}

impl Ball {
    pub fn new(pos: Vec2, vel: Vec2) -> (b: Ball)
        ensures
            b.pos == pos,
            b.vel == vel,
    {
        Ball { pos, vel }
    }

    /// Advances the particle by `dt` microseconds: see [`integrated`].
    pub fn update(&mut self, dt: u32, cfg: &Config)
        requires
            cfg.wf(),
            -MAX_EXTENT <= old(self).pos.x <= MAX_EXTENT,
            -MAX_EXTENT <= old(self).pos.y <= MAX_EXTENT,
            old(self).vel.norm_sq() <= MAX_SPEED * MAX_SPEED,
        ensures
            *final(self) == integrated(*old(self), *cfg, dt as int),
            final(self).vel.norm_sq() <= MAX_SPEED * MAX_SPEED,
    {
        let m = MAX_SPEED;
        proof {
            crate::config::lemma_component_bound(self.vel, m as int);
            assert(-MAX_ACCEL * 0x1_0000_0000 <= cfg.gravity.x * dt <= MAX_ACCEL * 0x1_0000_0000
                && -MAX_ACCEL * 0x1_0000_0000 <= cfg.gravity.y * dt <= MAX_ACCEL * 0x1_0000_0000)
                by (nonlinear_arith)
                requires
                    -MAX_ACCEL <= cfg.gravity.x <= MAX_ACCEL,
                    -MAX_ACCEL <= cfg.gravity.y <= MAX_ACCEL,
                    0 <= dt < 0x1_0000_0000,
            ;
            lemma_quot_bound(cfg.gravity.x * dt, MICROS_PER_SECOND as int, 0x800_0000_0000);
            lemma_quot_bound(cfg.gravity.y * dt, MICROS_PER_SECOND as int, 0x800_0000_0000);
        }
        let w = dt as i128;
        let gx = div_toward_zero(cfg.gravity.x as i128 * w, MICROS_PER_SECOND as i128);
        let gy = div_toward_zero(cfg.gravity.y as i128 * w, MICROS_PER_SECOND as i128);
        let sx = self.vel.x as i128 + gx;
        let sy = self.vel.y as i128 + gy;
        let num = cfg.damping_num as i128;
        let den = cfg.damping_den as i128;
        proof {
            assert(-0x1000_0000_0000 * den <= sx * num <= 0x1000_0000_0000 * den
                && -0x1000_0000_0000 * den <= sy * num <= 0x1000_0000_0000 * den)
                by (nonlinear_arith)
                requires
                    -0x1000_0000_0000 <= sx <= 0x1000_0000_0000,
                    -0x1000_0000_0000 <= sy <= 0x1000_0000_0000,
                    0 <= num <= den,
            ;
            assert(0x1000_0000_0000 * den <= 0x1000_0000_0000 * MAX_SPEED) by (nonlinear_arith)
                requires
                    den <= MAX_SPEED,
            ;
            lemma_quot_bound(sx * num, den as int, 0x1000_0000_0000);
            lemma_quot_bound(sy * num, den as int, 0x1000_0000_0000);
        }
        let ux = div_toward_zero(sx * num, den);
        let uy = div_toward_zero(sy * num, den);
        proof {
            assert(0 <= ux * ux <= 0x100_0000_0000_0000_0000_0000 && 0 <= uy * uy
                <= 0x100_0000_0000_0000_0000_0000 && 0 <= m * m <= MAX_SPEED * MAX_SPEED)
                by (nonlinear_arith)
                requires
                    -0x1000_0000_0000 <= ux <= 0x1000_0000_0000,
                    -0x1000_0000_0000 <= uy <= 0x1000_0000_0000,
                    0 <= m <= MAX_SPEED,
            ;
        }
        let n = ux * ux + uy * uy;
        let wm = m as i128;
        let (vx, vy) = if n <= wm * wm {
            (ux, uy)
        } else {
            let c = ceil_isqrt(n as u128) as i128;
            proof {
                lemma_capped(ux as int, uy as int, m as int);
                assert(-0x1000_0000_0000 * MAX_SPEED <= ux * m <= 0x1000_0000_0000 * MAX_SPEED
                    && -0x1000_0000_0000 * MAX_SPEED <= uy * m <= 0x1000_0000_0000 * MAX_SPEED)
                    by (nonlinear_arith)
                    requires
                        -0x1000_0000_0000 <= ux <= 0x1000_0000_0000,
                        -0x1000_0000_0000 <= uy <= 0x1000_0000_0000,
                        0 <= m <= MAX_SPEED,
                ;
            }
            (div_toward_zero(ux * wm, c), div_toward_zero(uy * wm, c))
        };
        proof {
            assert(vx * vx + vy * vy <= m * m);
            assert(-m <= vx <= m && -m <= vy <= m) by (nonlinear_arith)
                requires
                    vx * vx + vy * vy <= m * m,
                    m >= 0,
            ;
            assert(-MAX_SPEED * 0x1_0000_0000 <= vx * dt <= MAX_SPEED * 0x1_0000_0000
                && -MAX_SPEED * 0x1_0000_0000 <= vy * dt <= MAX_SPEED * 0x1_0000_0000)
                by (nonlinear_arith)
                requires
                    -m <= vx <= m,
                    -m <= vy <= m,
                    0 <= m <= MAX_SPEED,
                    0 <= dt < 0x1_0000_0000,
            ;
            lemma_quot_bound(vx * dt, MICROS_PER_SECOND as int, 0x800_0000_0000);
            lemma_quot_bound(vy * dt, MICROS_PER_SECOND as int, 0x800_0000_0000);
        }
        let dx = div_toward_zero(vx * w, MICROS_PER_SECOND as i128);
        let dy = div_toward_zero(vy * w, MICROS_PER_SECOND as i128);
        self.vel = Vec2 { x: vx as i64, y: vy as i64 };
        self.pos = Vec2 { x: self.pos.x + dx as i64, y: self.pos.y + dy as i64 };
    }

    /// Reflects the particle off the walls of `rect`: see [`contained`].
    /// Afterwards its centre is inside: `radius <= x <= width - radius`,
    /// likewise for `y`, and its speed is unchanged.
    pub fn move_in_bounds(&mut self, rect: Rect, radius: i64)
        requires
            fits(rect, radius as int),
            old(self).vel.x > i64::MIN,
            old(self).vel.y > i64::MIN,
        ensures
            *final(self) == contained(*old(self), rect, radius as int),
            inside(final(self).pos, rect, radius as int),
            final(self).vel.norm_sq() == old(self).vel.norm_sq(),
    {
        let (px, vx) = reflect(self.pos.x, self.vel.x, radius, rect.width - radius);
        let (py, vy) = reflect(self.pos.y, self.vel.y, radius, rect.height - radius);
        proof {
            assert(vx * vx == self.vel.x * self.vel.x) by (nonlinear_arith)
                requires
                    vx == self.vel.x || vx == -self.vel.x,
            ;
            assert(vy * vy == self.vel.y * self.vel.y) by (nonlinear_arith)
                requires
                    vy == self.vel.y || vy == -self.vel.y,
            ;
        }
        self.pos = Vec2 { x: px, y: py };
        self.vel = Vec2 { x: vx, y: vy };
    }
}

/// Drag of the positional integrator, per second squared.
pub const DRAG: i64 = 40;

/// The longest move the positional integrator accepts in one step.
pub const MAX_STEP: i64 = 5_000;

/// Bound on the coordinates the positional integrator accepts, so that
/// the drag term over a step of up to `u32::MAX` microseconds fits `i128`.
pub const VERLET_RANGE: i64 = 1_099_511_627_776;

pub open spec fn within_verlet_range(p: Vec2) -> bool {
    -VERLET_RANGE <= p.x <= VERLET_RANGE && -VERLET_RANGE <= p.y <= VERLET_RANGE
}

/// A particle whose velocity is implicit in the move from `prev_pos` to
/// `pos`.
#[derive(Clone, Copy, Debug, PartialEq, Eq, Structural)]
pub struct VerletBall {
    pub pos: Vec2,
    pub prev_pos: Vec2,
}

/// The move the positional integrator proposes for a step of `dt`
/// microseconds: the last move, plus gravity less drag on the last move,
/// times `dt` squared.
pub open spec fn verlet_move(b: VerletBall, dt: int, g: Vec2) -> (int, int) {
    let mx = b.pos.x - b.prev_pos.x;
    let my = b.pos.y - b.prev_pos.y;
    let s = (MICROS_PER_SECOND * MICROS_PER_SECOND) as int;
    (
        mx + quot_toward_zero((g.x - mx * DRAG) * (dt * dt), s),
        my + quot_toward_zero((g.y - my * DRAG) * (dt * dt), s),
    )
}

/// One positional step. A proposed move longer than [`MAX_STEP`] is
/// rejected: the particle stays where it is and loses its implicit
/// velocity.
pub open spec fn verlet_advanced(b: VerletBall, dt: int, g: Vec2) -> VerletBall {
    let (sx, sy) = verlet_move(b, dt, g);
    if sx * sx + sy * sy > MAX_STEP * MAX_STEP {
        VerletBall { pos: b.pos, prev_pos: b.pos }
    } else {
        VerletBall { pos: Vec2 { x: (b.pos.x + sx) as i64, y: (b.pos.y + sy) as i64 }, prev_pos: b.pos }
    }
}

impl VerletBall {
    /// Advances the particle by `dt` microseconds under gravity `g`: see
    /// [`verlet_advanced`]. The particle never moves farther than
    /// [`MAX_STEP`].
    pub fn update(&mut self, dt: u32, g: Vec2)
        requires
            within_verlet_range(old(self).pos),
            within_verlet_range(old(self).prev_pos),
            -MAX_ACCEL <= g.x <= MAX_ACCEL,
            -MAX_ACCEL <= g.y <= MAX_ACCEL,
        ensures
            *final(self) == verlet_advanced(*old(self), dt as int, g),
            final(self).prev_pos == old(self).pos,
            dist_sq(final(self).pos, old(self).pos) <= MAX_STEP * MAX_STEP,
    {
        let p = self.pos;
        let mx = p.x as i128 - self.prev_pos.x as i128;
        let my = p.y as i128 - self.prev_pos.y as i128;
        let w = dt as i128;
        proof {
            assert(0 <= dt * dt < 0x1_0000_0000_0000_0000) by (nonlinear_arith)
                requires
                    0 <= dt < 0x1_0000_0000,
            ;
            let e: int = 0x1_0000_0000_0000;
            assert(-(e * 0x1_0000_0000_0000_0000) <= (g.x - mx * DRAG) * (dt * dt) <= e
                * 0x1_0000_0000_0000_0000 && -(e * 0x1_0000_0000_0000_0000) <= (g.y - my * DRAG)
                * (dt * dt) <= e * 0x1_0000_0000_0000_0000) by (nonlinear_arith)
                requires
                    -0x400_0000_0000 <= mx <= 0x400_0000_0000,
                    -0x400_0000_0000 <= my <= 0x400_0000_0000,
                    -MAX_ACCEL <= g.x <= MAX_ACCEL,
                    -MAX_ACCEL <= g.y <= MAX_ACCEL,
                    0 <= dt * dt < 0x1_0000_0000_0000_0000,
                    e == 0x1_0000_0000_0000,
            ;
        }
        let t = w * w;
        let s = (MICROS_PER_SECOND * MICROS_PER_SECOND) as i128;
        let sx = mx + div_toward_zero((g.x as i128 - mx * DRAG as i128) * t, s);
        let sy = my + div_toward_zero((g.y as i128 - my * DRAG as i128) * t, s);
        let lim = MAX_STEP as i128;
        if sx > lim || sx < -lim || sy > lim || sy < -lim {
            proof {
                assert(sx * sx + sy * sy > MAX_STEP * MAX_STEP) by (nonlinear_arith)
                    requires
                        sx > lim || sx < -lim || sy > lim || sy < -lim,
                        lim == MAX_STEP,
                ;
            }
            self.prev_pos = p;
            return;
        }
        proof {
            assert(0 <= sx * sx <= lim * lim && 0 <= sy * sy <= lim * lim) by (nonlinear_arith)
                requires
                    -lim <= sx <= lim,
                    -lim <= sy <= lim,
            ;
        }
        if sx * sx + sy * sy > lim * lim {
            self.prev_pos = p;
            return;
        }
        self.prev_pos = p;
        self.pos = Vec2 { x: p.x + sx as i64, y: p.y + sy as i64 };
    }

    /// Brings the centre back inside `rect` as [`Ball::move_in_bounds`]
    /// does. Only the position is mirrored: the previous position, and
    /// with it the implicit velocity, is kept as it is.
    pub fn move_in_bounds(&mut self, rect: Rect, radius: i64)
        requires
            fits(rect, radius as int),
        ensures
            final(self).pos.x == reflect_axis(old(self).pos.x as int, radius as int, rect.width
                - radius),
            final(self).pos.y == reflect_axis(old(self).pos.y as int, radius as int, rect.height
                - radius),
            final(self).prev_pos == old(self).prev_pos,
            inside(final(self).pos, rect, radius as int),
    {
        let (px, _) = reflect(self.pos.x, 0, radius, rect.width - radius);
        let (py, _) = reflect(self.pos.y, 0, radius, rect.height - radius);
        self.pos = Vec2 { x: px, y: py };
    }
}

/// One axis of [`Ball::move_in_bounds`].
fn reflect(p: i64, v: i64, lo: i64, hi: i64) -> (r: (i64, i64))
    requires
        1 <= lo < hi <= MAX_EXTENT,
        v > i64::MIN,
    ensures
        r.0 == reflect_axis(p as int, lo as int, hi as int),
        r.1 == bounce_axis(p as int, v as int, lo as int, hi as int),
        lo <= r.0 <= hi,
        r.1 == v || r.1 == -v,
{
    let w = p as i128;
    let l = lo as i128;
    let h = hi as i128;
    let (once, v_once) = if w > h {
        (2 * h - w, -v)
    } else {
        (w, v)
    };
    let (twice, v_twice) = if once < l {
        (2 * l - once, -v_once)
    } else {
        (once, v_once)
    };
    let held = if twice > h {
        h
    } else if twice < l {
        l
    } else {
        twice
    };
    (held as i64, v_twice)
}

} // verus!
