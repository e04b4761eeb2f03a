use collision_sim::database::GRAPH_SIZE;
use collision_sim::{Database, Input, Simulation, Vec2};

#[test]
fn database_counts_and_ring() {
    let mut sim = Simulation::new();
    sim.input(Input::AddSpawner);
    sim.request_spawn(Vec2::new(100_000, 100_000));
    let mut db = Database::new();
    assert_eq!(db.mean_frame_time(), 0);
    db.update(&sim, 16_000, 2_000);
    assert_eq!(db.ball_count(), 1);
    assert_eq!(db.spawner_count(), 2);
    assert_eq!(db.index(), 1);
    assert_eq!(db.frame_times()[0], 16_000);
    assert_eq!(db.simulation_times()[0], 2_000);
    for k in 1..GRAPH_SIZE {
        db.update(&sim, 1_000 + k as u32, 10);
    }
    assert_eq!(db.index(), 0);
    db.update(&sim, 7, 3);
    assert_eq!(db.frame_times()[0], 7);
    assert_eq!(db.index(), 1);
    db.input();
    assert_eq!(db.index(), 1);
}

#[test]
fn database_mean_and_peak() {
    let sim = Simulation::new();
    let mut db = Database::new();
    for k in 0..GRAPH_SIZE {
        db.update(&sim, if k == 17 { 90_000 } else { 300 }, 0);
    }
    assert_eq!(db.peak_frame_time(), 90_000);
    assert_eq!(db.mean_frame_time(), (299 * 300 + 90_000) / 300);
}
