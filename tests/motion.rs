use collision_sim::ball::MAX_STEP;
use collision_sim::config::MAX_SPEED;
use collision_sim::{Ball, Config, Rect, Vec2, VerletBall};

fn still_config() -> Config {
    let mut c = Config::standard();
    c.gravity = Vec2::new(0, 980_000);
    c.damping_num = 1;
    c.damping_den = 1;
    c
}

#[test]
fn euler_step_exact_values() {
    let cfg = still_config();
    let mut b = Ball::new(Vec2::new(100_000, 100_000), Vec2::new(0, 0));
    b.update(10_000, &cfg);
    // v = 980_000 * 0.01 = 9_800; move = 9_800 * 0.01 = 98
    assert_eq!(b.vel, Vec2::new(0, 9_800));
    assert_eq!(b.pos, Vec2::new(100_000, 100_098));
}

#[test]
fn euler_damping_applies() {
    let mut cfg = still_config();
    cfg.gravity = Vec2::new(0, 0);
    cfg.damping_num = 1;
    cfg.damping_den = 2;
    let mut b = Ball::new(Vec2::new(100_000, 100_000), Vec2::new(1_000, -3_001));
    b.update(1_000_000, &cfg);
    assert_eq!(b.vel, Vec2::new(500, -1_500));
    assert_eq!(b.pos, Vec2::new(100_500, 98_500));
}

#[test]
fn euler_speed_is_held_at_the_machine_limit() {
    let mut cfg = still_config();
    cfg.gravity = Vec2::new(0, 300_000);
    let mut b = Ball::new(Vec2::new(100_000, 100_000), Vec2::new(MAX_SPEED, 0));
    b.update(10_000, &cfg);
    // (MAX_SPEED, 3000) is scaled down to length at most MAX_SPEED
    assert_eq!(b.vel, Vec2::new(MAX_SPEED - 1, 2_999));
    let s = (b.vel.x as i128) * (b.vel.x as i128) + (b.vel.y as i128) * (b.vel.y as i128);
    assert!(s <= (MAX_SPEED as i128) * (MAX_SPEED as i128));
}

#[test]
fn fast_particle_below_the_limit_is_not_slowed() {
    let mut cfg = still_config();
    cfg.gravity = Vec2::new(0, 0);
    let mut b = Ball::new(Vec2::new(100_000, 100_000), Vec2::new(20_000_000, -30_000_000));
    b.update(1_000, &cfg);
    assert_eq!(b.vel, Vec2::new(20_000_000, -30_000_000));
    assert_eq!(b.pos, Vec2::new(120_000, 70_000));
}

#[test]
fn wall_reflects_position_and_velocity() {
    let rect = Rect { x: 0, y: 0, width: 100_000, height: 80_000 };
    let r = 5_000;
    let mut b = Ball::new(Vec2::new(95_100, 3_000), Vec2::new(40, -70));
    b.move_in_bounds(rect, r);
    assert_eq!(b.pos, Vec2::new(94_900, 7_000));
    assert_eq!(b.vel, Vec2::new(-40, 70));
    let mut c = Ball::new(Vec2::new(50_000, 75_000), Vec2::new(1, 1));
    c.move_in_bounds(rect, r);
    assert_eq!(c.pos, Vec2::new(50_000, 75_000));
    assert_eq!(c.vel, Vec2::new(1, 1));
}

#[test]
fn far_outside_is_held_at_the_wall() {
    let rect = Rect { x: 0, y: 0, width: 100_000, height: 80_000 };
    let r = 5_000;
    let mut b = Ball::new(Vec2::new(1_000_000, -1_000_000), Vec2::new(3, 4));
    b.move_in_bounds(rect, r);
    assert!(b.pos.x >= r && b.pos.x <= rect.width - r);
    assert!(b.pos.y >= r && b.pos.y <= rect.height - r);
}

#[test]
fn verlet_step_follows_last_move() {
    let mut b = VerletBall { pos: Vec2::new(10_000, 10_000), prev_pos: Vec2::new(9_990, 10_000) };
    b.update(0, Vec2::new(0, 980_000));
    assert_eq!(b.prev_pos, Vec2::new(10_000, 10_000));
    assert_eq!(b.pos, Vec2::new(10_010, 10_000));
    let mut c = VerletBall { pos: Vec2::new(10_000, 10_000), prev_pos: Vec2::new(10_000, 10_000) };
    c.update(10_000, Vec2::new(0, 980_000));
    // 980_000 * 0.01^2 = 98
    assert_eq!(c.pos, Vec2::new(10_000, 10_098));
}

#[test]
fn verlet_rejects_long_moves() {
    let mut b = VerletBall { pos: Vec2::new(50_000, 50_000), prev_pos: Vec2::new(40_000, 50_000) };
    b.update(1_000, Vec2::new(0, 0));
    assert_eq!(b.pos, Vec2::new(50_000, 50_000));
    assert_eq!(b.prev_pos, Vec2::new(50_000, 50_000));
    // exactly at the limit is accepted
    let mut c = VerletBall {
        pos: Vec2::new(50_000, 50_000),
        prev_pos: Vec2::new(50_000 - MAX_STEP, 50_000),
    };
    c.update(0, Vec2::new(0, 0));
    assert_eq!(c.pos, Vec2::new(50_000 + MAX_STEP, 50_000));
    // a diagonal move longer than the limit, though short on each axis
    let mut d = VerletBall { pos: Vec2::new(50_000, 50_000), prev_pos: Vec2::new(46_000, 46_000) };
    d.update(0, Vec2::new(0, 0));
    assert_eq!(d.pos, Vec2::new(50_000, 50_000));
    assert_eq!(d.prev_pos, Vec2::new(50_000, 50_000));
}

#[test]
fn verlet_wall_moves_position_only() {
    let rect = Rect { x: 0, y: 0, width: 100_000, height: 80_000 };
    let mut b = VerletBall { pos: Vec2::new(96_000, 40_000), prev_pos: Vec2::new(94_000, 40_000) };
    b.move_in_bounds(rect, 5_000);
    assert_eq!(b.pos, Vec2::new(94_000, 40_000));
    assert_eq!(b.prev_pos, Vec2::new(94_000, 40_000));
}
