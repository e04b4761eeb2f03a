//! The narrow phase: pairwise overlap correction.
use vstd::prelude::*;
use crate::ball::Ball;
use crate::config::{MAX_RADIUS, MAX_SPEED};
use crate::geometry::{
    abs, dist_sq, lemma_quot_toward_zero, div_away_from_zero, div_toward_zero, floor_sqrt, isqrt, lemma_floor_sqrt,
    quot_away_from_zero, quot_toward_zero, Vec2,
};

verus! {

/// The centre `p` lies at least `margin` inside the range of `i64` on both
/// axes, so that it can move by `margin` and still be represented.
pub open spec fn clear_of_ends(p: Vec2, margin: int) -> bool {
    &&& -(i64::MAX - margin) <= p.x <= i64::MAX - margin
    &&& -(i64::MAX - margin) <= p.y <= i64::MAX - margin
}

/// The pair overlaps and its centres do not coincide.
pub open spec fn needs_resolution(a: Ball, b: Ball, radius: int) -> bool {
    0 < dist_sq(a.pos, b.pos) < (2 * radius) * (2 * radius)
}

/// The share of the overlap that one particle of a pair moves along one
/// axis, for a centre offset `d` on that axis, rounded away from zero so
/// that the corrected pair never still overlaps.
pub open spec fn push_out(d: int, overlap: int, len: int) -> int {
    quot_away_from_zero(d * overlap, 2 * len)
}

/// Velocity `v` without its component along the normal `(dx, dy)`:
/// its projection on the tangent `(dy, -dx)`, rounded toward zero.
pub open spec fn shed(v: Vec2, dx: int, dy: int) -> Vec2 {
    let l2 = dx * dx + dy * dy;
    let c = v.x * dy - v.y * dx;
    Vec2 { x: quot_toward_zero(dy * c, l2) as i64, y: quot_toward_zero(-dx * c, l2) as i64 }
}

/// The pair after one resolution. An overlapping pair is pushed apart
/// symmetrically along the line between the centres until they touch;
/// each particle that moves toward the other loses that component of its
/// velocity. A pair that does not overlap is returned as it is, and so is
/// a pair with coincident centres, for which no direction exists.
pub open spec fn collide(a: Ball, b: Ball, radius: int) -> (Ball, Ball) {
    if needs_resolution(a, b, radius) {
        let dx = a.pos.x - b.pos.x;
        let dy = a.pos.y - b.pos.y;
        let len = floor_sqrt((dx * dx + dy * dy) as nat) as int;
        let overlap = 2 * radius - len;
        let cx = push_out(dx, overlap, len);
        let cy = push_out(dy, overlap, len);
        let a_vel = if dx * a.vel.x + dy * a.vel.y < 0 {
            shed(a.vel, dx, dy)
        } else {
            a.vel
        };
        let b_vel = if dx * b.vel.x + dy * b.vel.y > 0 {
            shed(b.vel, dx, dy)
        } else {
            b.vel
        };
        (
            Ball { pos: Vec2 { x: (a.pos.x + cx) as i64, y: (a.pos.y + cy) as i64 }, vel: a_vel },
            Ball { pos: Vec2 { x: (b.pos.x - cx) as i64, y: (b.pos.y - cy) as i64 }, vel: b_vel },
        )
    } else {
        (a, b)
    }
}

proof fn lemma_sq_nonneg(a: int)
    ensures
        a * a >= 0,
{
    assert(a * a >= 0) by (nonlinear_arith);
}

/// Removing the normal component never makes a particle faster.
pub proof fn lemma_shed_slower(v: Vec2, dx: int, dy: int)
    requires
        dx * dx + dy * dy > 0,
    ensures
        quot_toward_zero(dy * (v.x * dy - v.y * dx), dx * dx + dy * dy) * quot_toward_zero(
            dy * (v.x * dy - v.y * dx),
            dx * dx + dy * dy,
        ) + quot_toward_zero(-dx * (v.x * dy - v.y * dx), dx * dx + dy * dy) * quot_toward_zero(
            -dx * (v.x * dy - v.y * dx),
            dx * dx + dy * dy,
        ) <= v.norm_sq(),
{
    let l2 = dx * dx + dy * dy;
    let c = v.x * dy - v.y * dx;
    let dot = dx * v.x + dy * v.y;
    let qx = quot_toward_zero(dy * c, l2);
    let qy = quot_toward_zero(-dx * c, l2);
    lemma_quot_toward_zero(dy * c, l2);
    lemma_quot_toward_zero(-dx * c, l2);
    let vv = v.norm_sq();
    lemma_lagrange(v.x as int, v.y as int, dx, dy);
    lemma_sq_nonneg(dot);
    assert((dy * c) * (dy * c) + (-dx * c) * (-dx * c) == c * c * l2) by (nonlinear_arith)
        requires
            l2 == dx * dx + dy * dy,
    ;
    let s = qx * qx + qy * qy;
    assert(s * (l2 * l2) <= c * c * l2) by (nonlinear_arith)
        requires
            s == qx * qx + qy * qy,
            qx * qx * (l2 * l2) <= (dy * c) * (dy * c),
            qy * qy * (l2 * l2) <= (-dx * c) * (-dx * c),
            (dy * c) * (dy * c) + (-dx * c) * (-dx * c) == c * c * l2,
    ;
    assert(s <= vv) by (nonlinear_arith)
        requires
            s * (l2 * l2) <= c * c * l2,
            c * c <= vv * l2,
            l2 > 0,
    ;
}

/// `(a² + b²)(x² + y²) == (ax + by)² + (ay - bx)²`.
proof fn lemma_lagrange(a: int, b: int, x: int, y: int)
    ensures
        (a * a + b * b) * (x * x + y * y) == (x * a + y * b) * (x * a + y * b) + (a * y - b * x) * (
        a * y - b * x),
{
    let p = a * x;
    let q = b * y;
    let r = a * y;
    let t = b * x;
    assert((p + q) * (p + q) == p * p + 2 * (p * q) + q * q) by (nonlinear_arith);
    assert((r - t) * (r - t) == r * r - 2 * (r * t) + t * t) by (nonlinear_arith);
    assert(p * q == r * t) by (nonlinear_arith)
        requires
            p == a * x,
            q == b * y,
            r == a * y,
            t == b * x,
    ;
    let aa = a * a;
    let bb = b * b;
    let xx = x * x;
    let yy = y * y;
    assert((aa + bb) * (xx + yy) == aa * xx + aa * yy + bb * xx + bb * yy) by (nonlinear_arith);
    assert(p * p == aa * xx) by (nonlinear_arith)
        requires
            p == a * x,
            aa == a * a,
            xx == x * x,
    ;
    assert(q * q == bb * yy) by (nonlinear_arith)
        requires
            q == b * y,
            bb == b * b,
            yy == y * y,
    ;
    assert(r * r == aa * yy) by (nonlinear_arith)
        requires
            r == a * y,
            aa == a * a,
            yy == y * y,
    ;
    assert(t * t == bb * xx) by (nonlinear_arith)
        requires
            t == b * x,
            bb == b * b,
            xx == x * x,
    ;
    assert(x * a + y * b == p + q) by (nonlinear_arith)
        requires
            p == a * x,
            q == b * y,
    ;
}

/// The centre offset after the push: at least `2 * radius / len` times the
/// offset before it, on each axis.
proof fn lemma_push_out(d: int, overlap: int, len: int, radius: int)
    requires
        len >= 1,
        overlap == 2 * radius - len,
        overlap >= 1,
        abs(d) <= len,
    ensures
        abs(d + 2 * push_out(d, overlap, len)) * len >= 2 * radius * abs(d),
        abs(push_out(d, overlap, len)) <= radius,
{
    let m = abs(d);
    let l = 2 * len;
    let q = (m * overlap + l - 1) / l;
    assert(q * l >= m * overlap && q >= 0) by (nonlinear_arith)
        requires
            l >= 2,
            m >= 0,
            overlap >= 1,
            q == (m * overlap + l - 1) / l,
    ;
    assert(q <= radius) by (nonlinear_arith)
        requires
            l == 2 * len,
            len >= 1,
            0 <= m <= len,
            overlap == 2 * radius - len,
            overlap >= 1,
            q == (m * overlap + l - 1) / l,
    ;
    assert((m + 2 * q) * len >= 2 * radius * m) by (nonlinear_arith)
        requires
            q * (2 * len) >= m * overlap,
            overlap == 2 * radius - len,
    ;
    if d >= 0 {
        assert(d * overlap >= 0) by (nonlinear_arith)
            requires
                d >= 0,
                overlap >= 1,
        ;
        assert(push_out(d, overlap, len) == q);
    } else {
        assert(d * overlap < 0 && -(d * overlap) == m * overlap) by (nonlinear_arith)
            requires
                d < 0,
                m == -d,
                overlap >= 1,
        ;
        assert(push_out(d, overlap, len) == -q);
        assert(d + 2 * push_out(d, overlap, len) == -(m + 2 * q));
    }
}

/// A resolved pair no longer overlaps.
pub proof fn lemma_collide_separates(a: Ball, b: Ball, radius: int)
    requires
        1 <= radius <= MAX_RADIUS,
        clear_of_ends(a.pos, radius),
        clear_of_ends(b.pos, radius),
        needs_resolution(a, b, radius),
    ensures
        dist_sq(collide(a, b, radius).0.pos, collide(a, b, radius).1.pos) >= (2 * radius) * (2
            * radius),
{
    let dx = a.pos.x - b.pos.x;
    let dy = a.pos.y - b.pos.y;
    let l2 = dx * dx + dy * dy;
    let len = floor_sqrt(l2 as nat) as int;
    let overlap = 2 * radius - len;
    lemma_offsets(dx, dy, radius);
    let cx = push_out(dx, overlap, len);
    let cy = push_out(dy, overlap, len);
    lemma_push_out(dx, overlap, len, radius);
    lemma_push_out(dy, overlap, len, radius);
    let (a2, b2) = collide(a, b, radius);
    assert(a2.pos.x - b2.pos.x == dx + 2 * cx);
    assert(a2.pos.y - b2.pos.y == dy + 2 * cy);
    let ex = abs(dx + 2 * cx);
    let ey = abs(dy + 2 * cy);
    let r2 = 2 * radius;
    assert(ex * ex * (len * len) >= r2 * r2 * (dx * dx)) by (nonlinear_arith)
        requires
            ex * len >= r2 * abs(dx),
            abs(dx) >= 0,
            r2 >= 0,
    ;
    assert(ey * ey * (len * len) >= r2 * r2 * (dy * dy)) by (nonlinear_arith)
        requires
            ey * len >= r2 * abs(dy),
            abs(dy) >= 0,
            r2 >= 0,
    ;
    assert(ex * ex + ey * ey >= r2 * r2) by (nonlinear_arith)
        requires
            ex * ex * (len * len) >= r2 * r2 * (dx * dx),
            ey * ey * (len * len) >= r2 * r2 * (dy * dy),
            len * len <= dx * dx + dy * dy,
            len >= 1,
    ;
    assert(ex * ex == (dx + 2 * cx) * (dx + 2 * cx)) by (nonlinear_arith)
        requires
            ex == dx + 2 * cx || ex == -(dx + 2 * cx),
    ;
    assert(ey * ey == (dy + 2 * cy) * (dy + 2 * cy)) by (nonlinear_arith)
        requires
            ey == dy + 2 * cy || ey == -(dy + 2 * cy),
    ;
}

/// Facts about the centre offset of an overlapping pair.
proof fn lemma_offsets(dx: int, dy: int, radius: int)
    requires
        1 <= radius,
        0 < dx * dx + dy * dy < (2 * radius) * (2 * radius),
    ensures
        1 <= floor_sqrt((dx * dx + dy * dy) as nat) < 2 * radius,
        abs(dx) <= floor_sqrt((dx * dx + dy * dy) as nat),
        abs(dy) <= floor_sqrt((dx * dx + dy * dy) as nat),
        floor_sqrt((dx * dx + dy * dy) as nat) * floor_sqrt((dx * dx + dy * dy) as nat) <= dx * dx
            + dy * dy,
{
    let l2 = dx * dx + dy * dy;
    lemma_floor_sqrt(l2 as nat);
    let s = floor_sqrt(l2 as nat) as int;
    let r2 = 2 * radius;
    assert(1 <= s < r2 && abs(dx) <= s && abs(dy) <= s) by (nonlinear_arith)
        requires
            s >= 0,
            s * s <= l2,
            l2 < (s + 1) * (s + 1),
            0 < l2 < r2 * r2,
            r2 >= 2,
            l2 == dx * dx + dy * dy,
            abs(dx) == dx || abs(dx) == -dx,
            abs(dy) == dy || abs(dy) == -dy,
            abs(dx) >= 0,
            abs(dy) >= 0,
    ;
}

/// Resolving an already separated pair changes nothing.
pub proof fn lemma_separated_pair_unchanged(a: Ball, b: Ball, radius: int)
    requires
        dist_sq(a.pos, b.pos) >= (2 * radius) * (2 * radius),
    ensures
        collide(a, b, radius) == (a, b),
{
}

/// A resolved pair is a fixed point: resolving it again changes nothing.
pub proof fn lemma_collide_fixed_point(a: Ball, b: Ball, radius: int)
    requires
        1 <= radius <= MAX_RADIUS,
        clear_of_ends(a.pos, radius),
        clear_of_ends(b.pos, radius),
    ensures
        collide(collide(a, b, radius).0, collide(a, b, radius).1, radius) == collide(a, b, radius),
{
    if needs_resolution(a, b, radius) {
        lemma_collide_separates(a, b, radius);
    }
}

/// Resolution moves each centre by at most one radius on each axis.
pub proof fn lemma_collide_moves_little(a: Ball, b: Ball, radius: int)
    requires
        1 <= radius <= MAX_RADIUS,
        clear_of_ends(a.pos, radius),
        clear_of_ends(b.pos, radius),
    ensures
        abs(collide(a, b, radius).0.pos.x - a.pos.x) <= radius,
        abs(collide(a, b, radius).0.pos.y - a.pos.y) <= radius,
        abs(collide(a, b, radius).1.pos.x - b.pos.x) <= radius,
        abs(collide(a, b, radius).1.pos.y - b.pos.y) <= radius,
{
    if needs_resolution(a, b, radius) {
        let dx = a.pos.x - b.pos.x;
        let dy = a.pos.y - b.pos.y;
        let len = floor_sqrt((dx * dx + dy * dy) as nat) as int;
        lemma_offsets(dx, dy, radius);
        lemma_push_out(dx, 2 * radius - len, len, radius);
        lemma_push_out(dy, 2 * radius - len, len, radius);
    }
}

/// Resolution never makes either particle of the pair faster, so the
/// pair's combined speed never grows.
pub proof fn lemma_collide_no_faster(a: Ball, b: Ball, radius: int)
    requires
        1 <= radius <= MAX_RADIUS,
        a.vel.norm_sq() <= MAX_SPEED * MAX_SPEED,
        b.vel.norm_sq() <= MAX_SPEED * MAX_SPEED,
    ensures
        collide(a, b, radius).0.vel.norm_sq() <= a.vel.norm_sq(),
        collide(a, b, radius).1.vel.norm_sq() <= b.vel.norm_sq(),
        collide(a, b, radius).0.vel.norm_sq() + collide(a, b, radius).1.vel.norm_sq()
            <= a.vel.norm_sq() + b.vel.norm_sq(),
{
    if needs_resolution(a, b, radius) {
        let dx = a.pos.x - b.pos.x;
        let dy = a.pos.y - b.pos.y;
        lemma_shed_fits(a.vel, dx, dy);
        lemma_shed_fits(b.vel, dx, dy);
    }
}

/// The velocity left by [`shed`] fits its type and is no faster.
proof fn lemma_shed_fits(v: Vec2, dx: int, dy: int)
    requires
        dx * dx + dy * dy > 0,
        v.norm_sq() <= MAX_SPEED * MAX_SPEED,
    ensures
        shed(v, dx, dy).norm_sq() <= v.norm_sq(),
        shed(v, dx, dy).x == quot_toward_zero(dy * (v.x * dy - v.y * dx), dx * dx + dy * dy),
        shed(v, dx, dy).y == quot_toward_zero(-dx * (v.x * dy - v.y * dx), dx * dx + dy * dy),
        -MAX_SPEED <= quot_toward_zero(dy * (v.x * dy - v.y * dx), dx * dx + dy * dy) <= MAX_SPEED,
        -MAX_SPEED <= quot_toward_zero(-dx * (v.x * dy - v.y * dx), dx * dx + dy * dy)
            <= MAX_SPEED,
{
    let l2 = dx * dx + dy * dy;
    let c = v.x * dy - v.y * dx;
    let qx = quot_toward_zero(dy * c, l2);
    let qy = quot_toward_zero(-dx * c, l2);
    lemma_shed_slower(v, dx, dy);
    let m = MAX_SPEED as int;
    assert(-m <= qx <= m && -m <= qy <= m) by (nonlinear_arith)
        requires
            qx * qx + qy * qy <= m * m,
            m >= 0,
    ;
}

/// One component of [`shed`].
fn shed_component(n: i128, l2: i128) -> (q: i64)
    requires
        l2 > 0,
        n > i128::MIN,
        -MAX_SPEED <= quot_toward_zero(n as int, l2 as int) <= MAX_SPEED,
    ensures
        q == quot_toward_zero(n as int, l2 as int),
{
    div_toward_zero(n, l2) as i64
}

/// Resolves one pair: see [`collide`]. Each centre moves by at most one
/// radius per axis, so both must lie at least that far inside the range of
/// `i64`.
pub fn solve_collision(a: &mut Ball, b: &mut Ball, radius: i64)
    requires
        1 <= radius <= MAX_RADIUS,
        old(a).vel.norm_sq() <= MAX_SPEED * MAX_SPEED,
        old(b).vel.norm_sq() <= MAX_SPEED * MAX_SPEED,
        clear_of_ends(old(a).pos, radius as int),
        clear_of_ends(old(b).pos, radius as int),
    ensures
        (*final(a), *final(b)) == collide(*old(a), *old(b), radius as int),
        needs_resolution(*old(a), *old(b), radius as int) ==> dist_sq(final(a).pos, final(b).pos)
            >= (2 * radius) * (2 * radius),
        final(a).vel.norm_sq() <= old(a).vel.norm_sq(),
        final(b).vel.norm_sq() <= old(b).vel.norm_sq(),
{
    proof {
        lemma_collide_no_faster(*a, *b, radius as int);
        if needs_resolution(*a, *b, radius as int) {
            lemma_collide_separates(*a, *b, radius as int);
        }
    }
    let pa = a.pos;
    let pb = b.pos;
    let wx = pa.x as i128 - pb.x as i128;
    let wy = pa.y as i128 - pb.y as i128;
    let d = 2 * radius;
    let wd = d as i128;
    if wx <= -wd || wx >= wd || wy <= -wd || wy >= wd {
        let dx = wx;
        let dy = wy;
        proof {
            assert(dx * dx + dy * dy >= d * d) by (nonlinear_arith)
                requires
                    dx <= -d || dx >= d || dy <= -d || dy >= d,
                    d > 0,
            ;
        }
        return;
    }
    let dx = wx as i64;
    let dy = wy as i64;
    proof {
        assert(0 <= dx * dx <= d * d && 0 <= dy * dy <= d * d && d * d <= 4 * MAX_RADIUS
            * MAX_RADIUS)
            by (nonlinear_arith)
            requires
                -d < dx < d,
                -d < dy < d,
                0 < d <= 2 * MAX_RADIUS,
        ;
    }
    let l2 = dx * dx + dy * dy;
    if l2 == 0 || l2 >= d * d {
        return;
    }
    let len = isqrt(l2 as u128) as i64;
    proof {
        lemma_offsets(dx as int, dy as int, radius as int);
    }
    let overlap = d - len;
    proof {
        assert(-(d * d) <= dx * overlap <= d * d && -(d * d) <= dy * overlap <= d * d)
            by (nonlinear_arith)
            requires
                -d < dx < d,
                -d < dy < d,
                0 < overlap <= d,
        ;
    }
    let cx = div_away_from_zero((dx * overlap) as i128, (2 * len) as i128);
    let cy = div_away_from_zero((dy * overlap) as i128, (2 * len) as i128);
    proof {
        lemma_push_out(dx as int, overlap as int, len as int, radius as int);
        lemma_push_out(dy as int, overlap as int, len as int, radius as int);
    }
    let cx = cx as i64;
    let cy = cy as i64;
    a.pos = Vec2 { x: pa.x + cx, y: pa.y + cy };
    b.pos = Vec2 { x: pb.x - cx, y: pb.y - cy };
    let wdx = dx as i128;
    let wdy = dy as i128;
    let wl2 = l2 as i128;
    let va = a.vel;
    let vb = b.vel;
    proof {
        crate::config::lemma_component_bound(va, MAX_SPEED as int);
        crate::config::lemma_component_bound(vb, MAX_SPEED as int);
        lemma_small_products(va, dx as int, dy as int, d as int);
        lemma_small_products(vb, dx as int, dy as int, d as int);
        lemma_shed_fits(va, dx as int, dy as int);
        lemma_shed_fits(vb, dx as int, dy as int);
    }
    let dot_a = wdx * (va.x as i128) + wdy * (va.y as i128);
    if dot_a < 0 {
        let c = (va.x as i128) * wdy - (va.y as i128) * wdx;
        a.vel = Vec2 { x: shed_component(wdy * c, wl2), y: shed_component(-wdx * c, wl2) };
    }
    let dot_b = wdx * (vb.x as i128) + wdy * (vb.y as i128);
    if dot_b > 0 {
        let c = (vb.x as i128) * wdy - (vb.y as i128) * wdx;
        b.vel = Vec2 { x: shed_component(wdy * c, wl2), y: shed_component(-wdx * c, wl2) };
    }
}

/// Bounds on the products formed while removing a velocity component.
proof fn lemma_small_products(v: Vec2, dx: int, dy: int, d: int)
    requires
        -MAX_SPEED <= v.x <= MAX_SPEED,
        -MAX_SPEED <= v.y <= MAX_SPEED,
        -d < dx < d,
        -d < dy < d,
        0 < d <= 2 * MAX_RADIUS,
    ensures
        -0x80_0000_0000_0000 <= dx * v.x <= 0x80_0000_0000_0000,
        -0x80_0000_0000_0000 <= dy * v.y <= 0x80_0000_0000_0000,
        -0x80_0000_0000_0000 <= v.x * dy <= 0x80_0000_0000_0000,
        -0x80_0000_0000_0000 <= v.y * dx <= 0x80_0000_0000_0000,
        -0x1000_0000_0000_0000_0000 < dx * v.x + dy * v.y < 0x1000_0000_0000_0000_0000,
        -0x1000_0000_0000_0000_0000 < v.x * dy - v.y * dx < 0x1000_0000_0000_0000_0000,
        -0x1_0000_0000_0000_0000_0000_0000 < dy * (v.x * dy - v.y * dx)
            < 0x1_0000_0000_0000_0000_0000_0000,
        -0x1_0000_0000_0000_0000_0000_0000 < -dx * (v.x * dy - v.y * dx)
            < 0x1_0000_0000_0000_0000_0000_0000,
{
    let m = MAX_SPEED as int;
    let e = 2 * MAX_RADIUS as int;
    assert(-e * m <= dx * v.x <= e * m && -e * m <= dy * v.y <= e * m && -e * m <= v.x * dy
        <= e * m && -e * m <= v.y * dx <= e * m) by (nonlinear_arith)
        requires
            -m <= v.x <= m,
            -m <= v.y <= m,
            -e <= dx <= e,
            -e <= dy <= e,
    ;
    assert(-0x1_0000_0000_0000_0000_0000_0000 < dy * (v.x * dy - v.y * dx)
        < 0x1_0000_0000_0000_0000_0000_0000 && -0x1_0000_0000_0000_0000_0000_0000 < -dx * (v.x
        * dy - v.y * dx) < 0x1_0000_0000_0000_0000_0000_0000) by (nonlinear_arith)
        requires
            -2 * 0x20_0000 * 0x4000_0000 <= v.x * dy - v.y * dx <= 2 * 0x20_0000 * 0x4000_0000,
            -0x20_0000 <= dx <= 0x20_0000,
            -0x20_0000 <= dy <= 0x20_0000,
    ;
}

} // verus!
