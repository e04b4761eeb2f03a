use collision_sim::collision::solve_collision;
use collision_sim::{Ball, Vec2};

fn ball(x: i64, y: i64, vx: i64, vy: i64) -> Ball {
    Ball::new(Vec2::new(x, y), Vec2::new(vx, vy))
}

fn dist_sq(a: &Ball, b: &Ball) -> i64 {
    let dx = a.pos.x - b.pos.x;
    let dy = a.pos.y - b.pos.y;
    dx * dx + dy * dy
}

#[test]
fn overlap_split_evenly_along_axis() {
    // radius 2.5 px, centres 3 px apart, at 1000 units per pixel
    let mut a = ball(10_000, 20_000, 0, 0);
    let mut b = ball(13_000, 20_000, 0, 0);
    solve_collision(&mut a, &mut b, 2_500);
    assert_eq!(a.pos, Vec2::new(9_000, 20_000));
    assert_eq!(b.pos, Vec2::new(14_000, 20_000));
    assert_eq!(dist_sq(&a, &b), 5_000 * 5_000);
    assert_eq!(a.vel, Vec2::new(0, 0));
    assert_eq!(b.vel, Vec2::new(0, 0));
}

#[test]
fn diagonal_overlap_is_fully_separated() {
    let r = 2_500;
    let cases = [(1, 1), (3, 4), (1_000, 7), (-1_234, 2_345), (17, -4_001), (2, 0)];
    for (dx, dy) in cases {
        let mut a = ball(100_000 + dx, 100_000 + dy, 0, 0);
        let mut b = ball(100_000, 100_000, 0, 0);
        let before = dist_sq(&a, &b);
        assert!(before < (2 * r) * (2 * r));
        let (sa, sb) = (a.pos.x + b.pos.x, a.pos.y + b.pos.y);
        solve_collision(&mut a, &mut b, r);
        assert!(dist_sq(&a, &b) >= (2 * r) * (2 * r), "offset {:?}", (dx, dy));
        // symmetric correction keeps the midpoint
        assert_eq!((a.pos.x + b.pos.x, a.pos.y + b.pos.y), (sa, sb));
    }
}

#[test]
fn separated_pair_is_left_alone() {
    let mut a = ball(0, 0, 10, 20);
    let mut b = ball(5_000, 0, -30, 40);
    let (a0, b0) = (a, b);
    solve_collision(&mut a, &mut b, 2_500);
    assert_eq!((a, b), (a0, b0));
    let mut c = ball(3_000, 4_000, 1, 1);
    let mut d = ball(0, 0, 1, 1);
    let (c0, d0) = (c, d);
    solve_collision(&mut c, &mut d, 2_500);
    assert_eq!((c, d), (c0, d0));
}

#[test]
fn resolving_twice_changes_nothing_more() {
    let mut a = ball(50_000, 50_000, 300, -200);
    let mut b = ball(51_234, 49_321, -700, 100);
    solve_collision(&mut a, &mut b, 4_000);
    let (a1, b1) = (a, b);
    solve_collision(&mut a, &mut b, 4_000);
    assert_eq!((a, b), (a1, b1));
}

#[test]
fn coincident_centres_are_skipped() {
    let mut a = ball(7_000, 7_000, 5, 5);
    let mut b = ball(7_000, 7_000, -5, 5);
    let (a0, b0) = (a, b);
    solve_collision(&mut a, &mut b, 2_500);
    assert_eq!((a, b), (a0, b0));
}

#[test]
fn approach_component_is_removed() {
    // a moves right toward b; only its sideways motion survives
    let mut a = ball(0, 0, 100, 50);
    let mut b = ball(3_000, 0, 0, 0);
    solve_collision(&mut a, &mut b, 2_500);
    assert_eq!(a.vel, Vec2::new(0, 50));
    assert_eq!(b.vel, Vec2::new(0, 0));
    // b moving away from a keeps its velocity
    let mut c = ball(0, 0, 0, 0);
    let mut d = ball(3_000, 0, 70, -9);
    solve_collision(&mut c, &mut d, 2_500);
    assert_eq!(d.vel, Vec2::new(70, -9));
    // both approaching: both lose the normal part
    let mut e = ball(0, 0, 40, 0);
    let mut f = ball(3_000, 0, -60, 25);
    solve_collision(&mut e, &mut f, 2_500);
    assert_eq!(e.vel, Vec2::new(0, 0));
    assert_eq!(f.vel, Vec2::new(0, 25));
}

#[test]
fn collision_never_adds_speed() {
    let cases = [
        ((0, 0, 1_000, 333), (2_000, 1_500, -700, 900)),
        ((10, -20, -5_000, 77), (-1_500, 2_000, 4_000, -4_000)),
        ((0, 0, 123_456, -654_321), (1, 1, -999, 1)),
    ];
    for ((ax, ay, avx, avy), (bx, by, bvx, bvy)) in cases {
        let mut a = ball(ax, ay, avx, avy);
        let mut b = ball(bx, by, bvx, bvy);
        let sa = avx * avx + avy * avy;
        let sb = bvx * bvx + bvy * bvy;
        solve_collision(&mut a, &mut b, 2_500);
        let ta = a.vel.x * a.vel.x + a.vel.y * a.vel.y;
        let tb = b.vel.x * b.vel.x + b.vel.y * b.vel.y;
        assert!(ta <= sa);
        assert!(tb <= sb);
        assert!(ta + tb <= sa + sb);
    }
}

#[test]
fn far_pair_is_resolved() {
    let x = 1i64 << 41;
    let mut a = ball(x, 0, 0, 0);
    let mut b = ball(x + 1, 0, -500, 0);
    solve_collision(&mut a, &mut b, 2_500);
    assert!(dist_sq(&a, &b) >= 5_000 * 5_000);
    assert_eq!(a.pos.x + b.pos.x, 2 * x + 1);
    assert_eq!(b.vel, Vec2::new(0, 0));
}

#[test]
fn pair_near_the_ends_of_the_range_is_resolved() {
    let x = i64::MAX - 2_500;
    let mut a = ball(x - 1_000, -x, 0, 0);
    let mut b = ball(x, -x, 0, 0);
    solve_collision(&mut a, &mut b, 2_500);
    assert!(dist_sq(&a, &b) >= 5_000 * 5_000);
    assert_eq!(b.pos.x, i64::MAX - 500);
}
