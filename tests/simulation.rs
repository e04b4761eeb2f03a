use collision_sim::config::{MAX_ACCEL, MAX_EXTENT, MAX_RADIUS, MAX_SPEED};
use collision_sim::grid::Grid;
use collision_sim::scheduler::{check_each_combo, pass_fits, resolve_slices};
use collision_sim::simulation::SUB_STEPS;
use collision_sim::{Ball, Config, Input, Simulation, Vec2};

fn plain_config() -> Config {
    let mut c = Config::standard();
    c.damping_num = 1;
    c.damping_den = 1;
    c
}

fn energy(b: &Ball, g: f64, floor: f64) -> f64 {
    let vx = b.vel.x as f64;
    let vy = b.vel.y as f64;
    0.5 * (vx * vx + vy * vy) + g * (floor - b.pos.y as f64)
}

#[test]
fn dropped_particle_keeps_its_energy_through_a_bounce() {
    let cfg = plain_config();
    let mut sim = Simulation::with_config(cfg).unwrap();
    let floor = (cfg.rect.height - cfg.radius) as f64;
    let h = 200_000;
    sim.request_spawn(Vec2::new(300_000, cfg.rect.height - cfg.radius - h));
    let g = cfg.gravity.y as f64;
    let start = energy(&sim.balls()[0], g, floor);
    assert_eq!(start, g * h as f64);
    let mut bounced = false;
    for _ in 0..200 {
        sim.update(16_000);
        let b = sim.balls()[0];
        if b.vel.y < 0 {
            bounced = true;
            let e = energy(&b, g, floor);
            assert!((e - start).abs() <= 0.02 * start, "energy {} against {}", e, start);
            break;
        }
    }
    assert!(bounced);
}

#[test]
fn spawn_count_follows_rate_times_time() {
    // 30 waves per second, frames of 10 ms (below the 12 ms ceiling)
    let mut sim = Simulation::new();
    for _ in 0..100 {
        sim.spawn(10_000);
    }
    assert_eq!(sim.ball_count(), 30);
    let mut sim = Simulation::new();
    for _ in 0..55 {
        sim.spawn(10_000);
    }
    assert_eq!(sim.ball_count(), 16);
    let mut sim = Simulation::new();
    for _ in 0..7 {
        sim.spawn(11_999);
    }
    // 30 * 83_993 us = 2.52 waves
    assert_eq!(sim.ball_count(), 2);
}

#[test]
fn stalled_frame_spawns_nothing() {
    let mut sim = Simulation::new();
    for _ in 0..3 {
        sim.spawn(11_000);
    }
    assert_eq!(sim.ball_count(), 0);
    // two waves are due, but the frame is above the ceiling
    sim.spawn(50_000);
    assert_eq!(sim.ball_count(), 0);
    // exactly at the ceiling is a stall too
    let mut sim = Simulation::new();
    sim.spawn(12_000);
    sim.spawn(12_000);
    sim.spawn(12_000);
    assert_eq!(sim.ball_count(), 0);
    // the dropped waves are not made up later
    sim.spawn(10_000);
    assert_eq!(sim.ball_count(), 0);
}

#[test]
fn wave_places_one_particle_per_spawner() {
    let cfg = Config::standard();
    let mut sim = Simulation::new();
    sim.input(Input::AddSpawner);
    sim.input(Input::AddSpawner);
    assert_eq!(sim.spawner_count(), 3);
    sim.spawn(10_000);
    sim.spawn(10_000);
    sim.spawn(10_000);
    sim.spawn(10_000);
    assert_eq!(sim.ball_count(), 3);
    for (i, b) in sim.balls().iter().enumerate() {
        assert_eq!(b.pos, Vec2::new(cfg.spawn_origin.x, cfg.spawn_origin.y + cfg.spawn_spacing * i as i64));
        assert_eq!(b.vel, cfg.spawn_velocity);
    }
}

#[test]
fn spawner_count_stops_at_zero() {
    let mut sim = Simulation::new();
    sim.input(Input::RemoveSpawner);
    sim.input(Input::RemoveSpawner);
    assert_eq!(sim.spawner_count(), 0);
    for _ in 0..10 {
        sim.spawn(10_000);
    }
    assert_eq!(sim.ball_count(), 0);
}

#[test]
fn requested_particle_is_placed_inside() {
    let cfg = Config::standard();
    let mut sim = Simulation::new();
    sim.input(Input::Spawn(Vec2::new(123_000, 456_000)));
    sim.request_spawn(Vec2::new(-50_000, 10_000_000));
    assert_eq!(sim.ball_count(), 2);
    assert_eq!(sim.balls()[0].pos, Vec2::new(123_000, 456_000));
    assert_eq!(sim.balls()[0].vel, Vec2::new(0, 0));
    assert_eq!(sim.balls()[1].pos, Vec2::new(cfg.radius, cfg.rect.height - cfg.radius));
}

#[test]
fn particles_stay_between_the_walls() {
    let cfg = Config::standard();
    let mut sim = Simulation::new();
    sim.input(Input::AddSpawner);
    sim.input(Input::AddSpawner);
    sim.input(Input::AddSpawner);
    for k in 0..120i64 {
        sim.spawn(10_000);
        if k % 7 == 0 {
            sim.request_spawn(Vec2::new(20_000 + 4_000 * k, 30_000));
        }
        sim.update(16_000);
        for b in sim.balls() {
            assert!(b.pos.x >= cfg.radius && b.pos.x <= cfg.rect.width - cfg.radius);
            assert!(b.pos.y >= cfg.radius && b.pos.y <= cfg.rect.height - cfg.radius);
            assert!(b.vel.x * b.vel.x + b.vel.y * b.vel.y <= MAX_SPEED * MAX_SPEED);
        }
    }
    assert!(sim.ball_count() > 100);
}

#[test]
fn resting_pile_separates() {
    // two overlapping particles at rest, no gravity: one frame pushes them apart
    let mut cfg = plain_config();
    cfg.gravity = Vec2::new(0, 0);
    let mut sim = Simulation::with_config(cfg).unwrap();
    sim.request_spawn(Vec2::new(100_000, 100_000));
    sim.request_spawn(Vec2::new(104_000, 100_000));
    sim.update(16_000);
    let a = sim.balls()[0];
    let b = sim.balls()[1];
    let dx = a.pos.x - b.pos.x;
    let dy = a.pos.y - b.pos.y;
    assert!(dx * dx + dy * dy >= (2 * cfg.radius) * (2 * cfg.radius));
    assert_eq!(a.pos.x + b.pos.x, 204_000);
}

#[test]
fn frame_is_split_into_sub_steps() {
    let cfg = plain_config();
    let mut sim = Simulation::with_config(cfg).unwrap();
    sim.request_spawn(Vec2::new(300_000, 100_000));
    sim.update(16_000);
    let sub = 16_000 / SUB_STEPS as i64;
    let mut b = Ball::new(Vec2::new(300_000, 100_000), Vec2::new(0, 0));
    for _ in 0..SUB_STEPS {
        b.update(sub as u32, &cfg);
        b.move_in_bounds(cfg.rect, cfg.radius);
    }
    assert_eq!(sim.balls()[0], b);
}

#[test]
fn invalid_config_is_refused() {
    let mut c = Config::standard();
    c.radius = 0;
    assert!(!c.is_valid());
    assert!(Simulation::with_config(c).is_none());
    let mut c = Config::standard();
    c.rect.width = 2 * c.radius;
    assert!(Simulation::with_config(c).is_none());
    let mut c = Config::standard();
    c.damping_num = c.damping_den + 1;
    assert!(!c.is_valid());
    let mut c = Config::standard();
    c.spawn_velocity = Vec2::new(MAX_SPEED, 1);
    assert!(!c.is_valid());
    let mut c = Config::standard();
    c.radius = 1;
    // too many grid cells
    assert!(!c.is_valid());
    assert!(Config::standard().is_valid());
}

#[test]
fn grid_sorts_particles_into_cells() {
    let cfg = Config::standard();
    let d = 2 * cfg.radius;
    let balls = vec![
        Ball::new(Vec2::new(5_000, 5_000), Vec2::new(0, 0)),
        Ball::new(Vec2::new(d + 1, 5_000), Vec2::new(0, 0)),
        Ball::new(Vec2::new(9_999, 9_999), Vec2::new(0, 0)),
        Ball::new(Vec2::new(645_000, 645_000), Vec2::new(0, 0)),
        Ball::new(Vec2::new(5_000, d), Vec2::new(0, 0)),
    ];
    let g = Grid::build(&balls, &cfg);
    assert_eq!((g.rows, g.cols), (65, 65));
    assert_eq!(g.cells.len(), 65 * 65);
    assert_eq!(g.cells[0], vec![0, 2]);
    assert_eq!(g.cells[1], vec![1]);
    assert_eq!(g.cells[65], vec![4]);
    assert_eq!(g.cells[64 * 65 + 64], vec![3]);
    assert_eq!(g.cells.iter().map(|c| c.len()).sum::<usize>(), 5);
    assert_eq!(g.group(0, 0), vec![0, 2, 1, 4]);
}

#[test]
fn group_pass_resolves_every_pair() {
    let r = 5_000;
    let mut balls = vec![
        Ball::new(Vec2::new(100_000, 100_000), Vec2::new(0, 0)),
        Ball::new(Vec2::new(108_000, 100_000), Vec2::new(0, 0)),
        Ball::new(Vec2::new(300_000, 300_000), Vec2::new(0, 0)),
    ];
    check_each_combo(&mut balls, &vec![2, 1, 0], r);
    let dx = balls[0].pos.x - balls[1].pos.x;
    assert!(dx * dx >= (2 * r) * (2 * r));
    assert_eq!(balls[0].pos, Vec2::new(99_000, 100_000));
    assert_eq!(balls[1].pos, Vec2::new(109_000, 100_000));
    assert_eq!(balls[2].pos, Vec2::new(300_000, 300_000));
}

#[test]
fn grid_pass_resolves_neighbours_across_cells() {
    let cfg = Config::standard();
    let mut balls = vec![
        Ball::new(Vec2::new(99_000, 100_000), Vec2::new(0, 0)),
        Ball::new(Vec2::new(101_000, 100_000), Vec2::new(0, 0)),
        Ball::new(Vec2::new(100_000, 108_000), Vec2::new(0, 0)),
    ];
    let g = Grid::build(&balls, &cfg);
    resolve_slices(&mut balls, &g, cfg.radius);
    for i in 0..3 {
        for j in (i + 1)..3 {
            let dx = balls[i].pos.x - balls[j].pos.x;
            let dy = balls[i].pos.y - balls[j].pos.y;
            assert!(dx * dx + dy * dy >= 9_000 * 9_000, "pair {} {}", i, j);
        }
    }
}

#[test]
fn longest_frame_keeps_particles_inside() {
    let cfg = Config::standard();
    let mut sim = Simulation::new();
    sim.request_spawn(Vec2::new(100_000, 100_000));
    sim.request_spawn(Vec2::new(104_000, 100_000));
    sim.request_spawn(Vec2::new(600_000, 20_000));
    sim.update(u32::MAX);
    sim.update(u32::MAX);
    for b in sim.balls() {
        assert!(b.pos.x >= cfg.radius && b.pos.x <= cfg.rect.width - cfg.radius);
        assert!(b.pos.y >= cfg.radius && b.pos.y <= cfg.rect.height - cfg.radius);
        assert!(b.vel.x * b.vel.x + b.vel.y * b.vel.y <= MAX_SPEED * MAX_SPEED);
    }
}

#[test]
fn largest_accepted_domain() {
    let mut cfg = Config::standard();
    cfg.rect.width = MAX_EXTENT;
    cfg.rect.height = MAX_EXTENT;
    cfg.radius = MAX_RADIUS;
    cfg.gravity = Vec2::new(-MAX_ACCEL, MAX_ACCEL);
    cfg.spawn_velocity = Vec2::new(MAX_SPEED, 0);
    assert!(cfg.is_valid());
    let mut sim = Simulation::with_config(cfg).unwrap();
    sim.request_spawn(Vec2::new(MAX_EXTENT / 2, MAX_EXTENT / 2));
    sim.request_spawn(Vec2::new(MAX_EXTENT / 2 + 1, MAX_EXTENT / 2));
    sim.spawn(11_000);
    for _ in 0..5 {
        sim.update(u32::MAX);
        sim.update(16_000);
    }
    for b in sim.balls() {
        assert!(b.pos.x >= cfg.radius && b.pos.x <= cfg.rect.width - cfg.radius);
        assert!(b.pos.y >= cfg.radius && b.pos.y <= cfg.rect.height - cfg.radius);
    }
}

#[test]
fn separated_group_is_left_alone() {
    let balls0 = vec![
        Ball::new(Vec2::new(100_000, 100_000), Vec2::new(7, 0)),
        Ball::new(Vec2::new(110_000, 100_000), Vec2::new(-7, 0)),
        Ball::new(Vec2::new(100_000, 110_000), Vec2::new(0, -3)),
    ];
    let mut balls = balls0.clone();
    check_each_combo(&mut balls, &vec![0, 1, 2, 1], 5_000);
    assert_eq!(balls, balls0);
    let cfg = Config::standard();
    let g = Grid::build(&balls, &cfg);
    resolve_slices(&mut balls, &g, cfg.radius);
    assert_eq!(balls, balls0);
}

#[test]
fn pass_budget_is_checked() {
    let cfg = Config::standard();
    let balls = vec![
        Ball::new(Vec2::new(5_000, 5_000), Vec2::new(0, 0)),
        Ball::new(Vec2::new(6_000, 5_000), Vec2::new(0, 0)),
    ];
    let g = Grid::build(&balls, &cfg);
    // both particles share cell 0, which only the block at (0, 0) holds:
    // a budget of 2 * 2 pair moves
    assert!(pass_fits(&g, cfg.radius, cfg.radius * 5));
    assert!(!pass_fits(&g, cfg.radius, cfg.radius * 5 - 1));
    assert!(pass_fits(&g, cfg.radius, i64::MAX - 1_073_741_824));
}
