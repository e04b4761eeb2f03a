//! The simulation controller: owns the particles, runs the fixed
//! sub-steps of a frame, and spawns new particles.
use vstd::prelude::*;
use crate::ball::{contained, inside, integrated, Ball};
use crate::config::{standard_config, Config, MAX_EXTENT, MAX_SPAWN_RATE, MAX_SPEED, MICROS_PER_SECOND};
use vstd::arithmetic::div_mod::{lemma_fundamental_div_mod, lemma_fundamental_div_mod_converse};
use crate::grid::{all_inside, buckets, lemma_bucket_below, Grid};
use crate::geometry::Vec2;
use crate::scheduler::{
    grid_budget, indices_below, movable, pass_fits, resolve_grid, resolve_slices, within,
};

verus! {

/// Sub-steps per frame.
pub const SUB_STEPS: u32 = 8;

/// Every particle is inside the domain and no faster than the terminal
/// speed.
pub open spec fn settled(s: Seq<Ball>, cfg: Config) -> bool {
    forall|i: int|
        0 <= i < s.len() ==> #[trigger] inside(s[i].pos, cfg.rect, cfg.radius as int)
            && s[i].vel.norm_sq() <= MAX_SPEED * MAX_SPEED
}

/// The collision pass over the grid `cells` cannot carry a centre that
/// starts inside the domain out of the range of `i64`: each pair it
/// resolves moves a centre by at most one radius, and the pass resolves
/// at most [`grid_budget`] pairs.
pub open spec fn pass_in_range(cells: Seq<Seq<usize>>, cfg: Config) -> bool {
    cfg.radius * (grid_budget(cells, cfg.rows(), cfg.cols()) + 1) <= i64::MAX - MAX_EXTENT
}

/// Every particle integrated over `dt` and reflected off the walls.
pub open spec fn moved(s: Seq<Ball>, cfg: Config, dt: int) -> Seq<Ball> {
    Seq::new(s.len(), |i: int| contained(integrated(s[i], cfg, dt), cfg.rect, cfg.radius as int))
}

/// Every particle reflected off the walls.
pub open spec fn confined(s: Seq<Ball>, cfg: Config) -> Seq<Ball> {
    Seq::new(s.len(), |i: int| contained(s[i], cfg.rect, cfg.radius as int))
}

/// One sub-step of `dt` microseconds: integrate and reflect every
/// particle, sort them into a fresh grid, resolve every candidate group,
/// and reflect again whatever the corrections pushed past a wall. A
/// collision pass that could carry a centre out of the range of `i64`
/// (more than about `9.2e18 / radius` pair resolutions in one sub-step) is
/// not run.
pub open spec fn substep(s: Seq<Ball>, cfg: Config, dt: int) -> Seq<Ball> {
    let m = moved(s, cfg, dt);
    let cells = buckets(m, cfg);
    let resolved = if pass_in_range(cells, cfg) {
        resolve_grid(m, cells, cfg.rows(), cfg.cols(), cfg.radius as int)
    } else {
        m
    };
    confined(resolved, cfg)
}

/// `n` sub-steps of `dt` microseconds each.
pub open spec fn advanced(s: Seq<Ball>, cfg: Config, dt: int, n: int) -> Seq<Ball>
    decreases n,
{
    if n <= 0 {
        s
    } else {
        substep(advanced(s, cfg, dt, n - 1), cfg, dt)
    }
}

pub open spec fn clamp(v: int, lo: int, hi: int) -> int {
    if v < lo {
        lo
    } else if v > hi {
        hi
    } else {
        v
    }
}

/// The point inside the domain nearest to `p`.
pub open spec fn nearest_inside(p: Vec2, cfg: Config) -> Vec2 {
    Vec2 {
        x: clamp(p.x as int, cfg.radius as int, cfg.rect.width - cfg.radius) as i64,
        y: clamp(p.y as int, cfg.radius as int, cfg.rect.height - cfg.radius) as i64,
    }
}

/// Where spawner `i` places its particle: `i` spacings below the origin,
/// brought inside the domain.
pub open spec fn spawn_point(cfg: Config, i: int) -> Vec2 {
    Vec2 {
        x: clamp(cfg.spawn_origin.x as int, cfg.radius as int, cfg.rect.width - cfg.radius) as i64,
        y: clamp(
            cfg.spawn_origin.y + cfg.spawn_spacing * i,
            cfg.radius as int,
            cfg.rect.height - cfg.radius,
        ) as i64,
    }
}

/// One wave: a particle from each of `n` spawners, in spawner order.
pub open spec fn wave(cfg: Config, n: int) -> Seq<Ball> {
    Seq::new(n as nat, |i: int| Ball { pos: spawn_point(cfg, i), vel: cfg.spawn_velocity })
}

/// `k` waves of `n` spawners.
pub open spec fn waves(cfg: Config, n: int, k: int) -> Seq<Ball>
    decreases k,
{
    if k <= 0 {
        seq![]
    } else {
        waves(cfg, n, k - 1) + wave(cfg, n)
    }
}

/// The spawn clock counts elapsed microseconds times the spawn rate; a
/// wave is due for each full million.
pub open spec fn waves_due(clock: int, rate: int, dt: int) -> int {
    (clock + rate * dt) / MICROS_PER_SECOND as int
}

/// The spawn clock after a frame of `dt` microseconds.
pub open spec fn clock_after(clock: int, rate: int, dt: int) -> int {
    (clock + rate * dt) % MICROS_PER_SECOND as int
}

/// The total length of a run of frames.
pub open spec fn total_time(frames: Seq<u32>) -> int
    decreases frames.len(),
{
    if frames.len() == 0 {
        0
    } else {
        total_time(frames.drop_last()) + frames.last()
    }
}

/// The spawn clock after a run of frames.
pub open spec fn clock_over(clock: int, rate: int, frames: Seq<u32>) -> int
    decreases frames.len(),
{
    if frames.len() == 0 {
        clock
    } else {
        clock_after(clock_over(clock, rate, frames.drop_last()), rate, frames.last() as int)
    }
}

/// The waves released over a run of frames, frame by frame.
pub open spec fn waves_over(clock: int, rate: int, frames: Seq<u32>) -> int
    decreases frames.len(),
{
    if frames.len() == 0 {
        0
    } else {
        waves_over(clock, rate, frames.drop_last()) + waves_due(
            clock_over(clock, rate, frames.drop_last()),
            rate,
            frames.last() as int,
        )
    }
}

/// The cadence neither loses nor invents time: over any run of frames the
/// waves released add up to the floor of the starting clock plus the rate
/// times the total time, in millions, and the clock keeps the remainder.
/// Starting from an empty clock, a run of total length `T` microseconds at
/// `R` waves per second releases exactly `floor(R * T / 1_000_000)` waves;
/// when every frame is below the spawn ceiling, each wave adds one
/// particle per spawner.
pub proof fn lemma_spawn_cadence(clock: int, rate: int, frames: Seq<u32>)
    requires
        0 <= clock < MICROS_PER_SECOND,
        0 <= rate,
    ensures
        waves_over(clock, rate, frames) == (clock + rate * total_time(frames))
            / MICROS_PER_SECOND as int,
        clock_over(clock, rate, frames) == (clock + rate * total_time(frames))
            % MICROS_PER_SECOND as int,
    decreases frames.len(),
{
    let m = MICROS_PER_SECOND as int;
    if frames.len() == 0 {
        lemma_fundamental_div_mod_converse(clock, m, 0, clock);
    } else {
        let rest = frames.drop_last();
        let t = frames.last() as int;
        lemma_spawn_cadence(clock, rate, rest);
        let a = clock + rate * total_time(rest);
        let w = waves_over(clock, rate, rest);
        let c = clock_over(clock, rate, rest);
        lemma_fundamental_div_mod(a, m);
        let b = c + rate * t;
        lemma_fundamental_div_mod(b, m);
        assert(rate * total_time(frames) == rate * total_time(rest) + rate * t) by (nonlinear_arith)
            requires
                total_time(frames) == total_time(rest) + t,
        ;
        assert(clock + rate * total_time(frames) == (w + b / m) * m + b % m) by (nonlinear_arith)
            requires
                a == m * w + c,
                b == m * (b / m) + b % m,
                b == c + rate * t,
                a == clock + rate * total_time(rest),
                rate * total_time(frames) == rate * total_time(rest) + rate * t,
        ;
        lemma_fundamental_div_mod_converse(clock + rate * total_time(frames), m, w + b / m, b % m);
    }
}

/// `k` waves of `n` spawners hold `n * k` particles.
pub proof fn lemma_waves_len(cfg: Config, n: int, k: int)
    requires
        0 <= n,
        0 <= k,
    ensures
        waves(cfg, n, k).len() == n * k,
    decreases k,
{
    if k > 0 {
        lemma_waves_len(cfg, n, k - 1);
        assert(wave(cfg, n).len() == n);
        assert(n * (k - 1) + n == n * k) by (nonlinear_arith);
    } else {
        assert(n * k == 0) by (nonlinear_arith)
            requires
                k == 0,
        ;
    }
}

/// An event from outside the simulation.
#[derive(Clone, Copy, Debug, PartialEq, Eq, Structural)]
pub enum Input {
    /// A particle requested at this position, at rest.
    Spawn(Vec2),
    /// One spawner more.
    AddSpawner,
    /// One spawner fewer, if there is any.
    RemoveSpawner,
}

/// The particles, the spawners, and the spawn clock of one simulation.
pub struct Simulation {
    balls: Vec<Ball>,
    spawner_count: usize,
    spawn_clock: u64,
    config: Config,
}

impl Simulation {
    pub closed spec fn balls_seq(self) -> Seq<Ball> {
        self.balls@
    }

    pub closed spec fn config_of(self) -> Config {
        self.config
    }

    pub closed spec fn spawners(self) -> int {
        self.spawner_count as int
    }

    pub closed spec fn clock(self) -> int {
        self.spawn_clock as int
    }

    /// The configuration is valid, the spawn clock holds less than one
    /// wave, and every particle is settled.
    pub open spec fn wf(self) -> bool {
        &&& self.config_of().wf()
        &&& 0 <= self.clock() < MICROS_PER_SECOND
        &&& settled(self.balls_seq(), self.config_of())
    }

    /// An empty simulation with the standard configuration and one
    /// spawner.
    pub fn new() -> (s: Simulation)
        ensures
            s.wf(),
            s.balls_seq() == Seq::<Ball>::empty(),
            s.spawners() == 1,
            s.clock() == 0,
            s.config_of() == standard_config(),
    {
        Simulation { balls: Vec::new(), spawner_count: 1, spawn_clock: 0, config: Config::standard() }
    }

    /// An empty simulation with one spawner, if `config` is valid.
    pub fn with_config(config: Config) -> (s: Option<Simulation>)
        ensures
            s is Some <==> config.wf(),
            s is Some ==> s->Some_0.wf() && s->Some_0.balls_seq() == Seq::<Ball>::empty()
                && s->Some_0.spawners() == 1 && s->Some_0.clock() == 0 && s->Some_0.config_of()
                == config,
    {
        if config.is_valid() {
            Some(Simulation { balls: Vec::new(), spawner_count: 1, spawn_clock: 0, config })
        } else {
            None
        }
    }

    pub fn balls(&self) -> (r: &Vec<Ball>)
        ensures
            r@ == self.balls_seq(),
    {
        &self.balls
    }

    pub fn ball_count(&self) -> (n: usize)
        ensures
            n == self.balls_seq().len(),
    {
        self.balls.len()
    }

    pub fn spawner_count(&self) -> (n: usize)
        ensures
            n == self.spawners(),
    {
        self.spawner_count
    }

    pub fn config(&self) -> (c: Config)
        ensures
            c == self.config_of(),
    {
        self.config
    }

    /// Advances the simulation by a frame of `dt` microseconds, in
    /// [`SUB_STEPS`] equal sub-steps: see [`substep`].
    pub fn update(&mut self, dt: u32)
        requires
            old(self).wf(),
        ensures
            final(self).wf(),
            settled(final(self).balls_seq(), final(self).config_of()),
            final(self).balls_seq() == advanced(
                old(self).balls_seq(),
                old(self).config_of(),
                (dt / SUB_STEPS) as int,
                SUB_STEPS as int,
            ),
            final(self).config_of() == old(self).config_of(),
            final(self).spawners() == old(self).spawners(),
            final(self).clock() == old(self).clock(),
    {
        let sub = dt / SUB_STEPS;
        let mut k: u32 = 0;
        while k < SUB_STEPS
            invariant
                self.wf(),
                k <= SUB_STEPS,
                self.balls@ == advanced(old(self).balls@, old(self).config, sub as int, k as int),
                self.config == old(self).config,
                self.spawner_count == old(self).spawner_count,
                self.spawn_clock == old(self).spawn_clock,
            decreases SUB_STEPS - k,
        {
            self.substep(sub);
            k = k + 1;
        }
    }

    /// Runs the spawn cadence for a frame of `dt` microseconds. The spawn
    /// clock advances by `dt` times the spawn rate; every full million it
    /// holds releases one wave, a particle from each spawner. If `dt` is at
    /// or above the spawn ceiling, the frame is a stall and the waves it
    /// releases are dropped: no particle is added.
    pub fn spawn(&mut self, dt: u32)
        requires
            old(self).wf(),
        ensures
            final(self).wf(),
            settled(final(self).balls_seq(), final(self).config_of()),
            final(self).clock() == clock_after(
                old(self).clock(),
                old(self).config_of().spawn_rate as int,
                dt as int,
            ),
            dt < old(self).config_of().spawn_ceiling ==> final(self).balls_seq() == old(
                self,
            ).balls_seq() + waves(
                old(self).config_of(),
                old(self).spawners(),
                waves_due(old(self).clock(), old(self).config_of().spawn_rate as int, dt as int),
            ),
            dt >= old(self).config_of().spawn_ceiling ==> final(self).balls_seq() == old(
                self,
            ).balls_seq(),
            final(self).config_of() == old(self).config_of(),
            final(self).spawners() == old(self).spawners(),
    {
        let rate = self.config.spawn_rate;
        proof {
            assert(rate * dt <= MAX_SPAWN_RATE * 0x1_0000_0000) by (nonlinear_arith)
                requires
                    rate <= MAX_SPAWN_RATE,
                    0 <= dt < 0x1_0000_0000,
            ;
        }
        let total = self.spawn_clock + rate * dt as u64;
        let m = MICROS_PER_SECOND;
        if dt >= self.config.spawn_ceiling {
            self.spawn_clock = total % m;
            return;
        }
        let mut clock = total;
        let ghost mut k: int = 0;
        let ghost start = self.balls@;
        while clock >= m
            invariant
                self.wf(),
                m == MICROS_PER_SECOND,
                clock + k * m == total,
                k >= 0,
                self.balls@ == start + waves(self.config, self.spawner_count as int, k),
                self.config == old(self).config,
                self.spawner_count == old(self).spawner_count,
            decreases clock,
        {
            clock = clock - m;
            self.spawn_wave();
            proof {
                assert(start + waves(self.config, self.spawner_count as int, k + 1) =~= start + waves(
                    self.config,
                    self.spawner_count as int,
                    k,
                ) + wave(self.config, self.spawner_count as int));
                k = k + 1;
            }
        }
        proof {
            lemma_fundamental_div_mod_converse(total as int, m as int, k, clock as int);
        }
        self.spawn_clock = clock;
    }

    /// Appends one wave: see [`wave`].
    fn spawn_wave(&mut self)
        requires
            old(self).wf(),
        ensures
            final(self).wf(),
            final(self).balls@ == old(self).balls@ + wave(old(self).config, old(self).spawner_count as int),
            final(self).config == old(self).config,
            final(self).spawner_count == old(self).spawner_count,
            final(self).spawn_clock == old(self).spawn_clock,
    {
        let cfg = self.config;
        let n = self.spawner_count;
        let r = cfg.radius as i128;
        let x = clamp_to(cfg.spawn_origin.x as i128, r, (cfg.rect.width - cfg.radius) as i128);
        let mut i: usize = 0;
        while i < n
            invariant
                self.wf(),
                cfg == self.config,
                n == self.spawner_count,
                r == cfg.radius,
                x == clamp(cfg.spawn_origin.x as int, cfg.radius as int, cfg.rect.width - cfg.radius),
                i <= n,
                self.balls@ == old(self).balls@ + wave(cfg, n as int).take(i as int),
                self.spawn_clock == old(self).spawn_clock,
            decreases n - i,
        {
            proof {
                assert(-MAX_EXTENT * 0x1_0000_0000_0000_0000 <= cfg.spawn_spacing * i
                    <= MAX_EXTENT * 0x1_0000_0000_0000_0000) by (nonlinear_arith)
                    requires
                        -MAX_EXTENT <= cfg.spawn_spacing <= MAX_EXTENT,
                        0 <= i < 0x1_0000_0000_0000_0000,
                ;
            }
            let y = clamp_to(
                cfg.spawn_origin.y as i128 + cfg.spawn_spacing as i128 * i as i128,
                r,
                (cfg.rect.height - cfg.radius) as i128,
            );
            let b = Ball { pos: Vec2 { x: x as i64, y: y as i64 }, vel: cfg.spawn_velocity };
            proof {
                assert(b == wave(cfg, n as int)[i as int]);
            }
            let ghost prev = self.balls@;
            self.balls.push(b);
            proof {
                assert(wave(cfg, n as int).take(i + 1) =~= wave(cfg, n as int).take(i as int).push(b));
                assert(self.balls@ =~= old(self).balls@ + wave(cfg, n as int).take(i + 1));
                let s = self.balls@;
                assert forall|j: int| 0 <= j < s.len() implies #[trigger] inside(s[j].pos, cfg.rect, cfg.radius as int)
                    && s[j].vel.norm_sq() <= MAX_SPEED * MAX_SPEED by {
                    if j < prev.len() {
                        assert(s[j] == prev[j]);
                    }
                }
            }
            i = i + 1;
        }
        proof {
            assert(wave(cfg, n as int).take(n as int) =~= wave(cfg, n as int));
        }
    }

    /// Appends a particle at rest at `pos`, brought inside the domain if it
    /// lies outside.
    pub fn request_spawn(&mut self, pos: Vec2)
        requires
            old(self).wf(),
        ensures
            final(self).wf(),
            final(self).balls_seq() == old(self).balls_seq().push(
                Ball { pos: nearest_inside(pos, old(self).config_of()), vel: Vec2 { x: 0, y: 0 } },
            ),
            final(self).config_of() == old(self).config_of(),
            final(self).spawners() == old(self).spawners(),
            final(self).clock() == old(self).clock(),
    {
        let cfg = self.config;
        let x = clamp_to(pos.x as i128, cfg.radius as i128, (cfg.rect.width - cfg.radius) as i128);
        let y = clamp_to(pos.y as i128, cfg.radius as i128, (cfg.rect.height - cfg.radius) as i128);
        let b = Ball { pos: Vec2 { x: x as i64, y: y as i64 }, vel: Vec2 { x: 0, y: 0 } };
        let ghost before = self.balls@;
        self.balls.push(b);
        proof {
            let s = self.balls@;
            assert forall|j: int| 0 <= j < s.len() implies #[trigger] inside(s[j].pos, cfg.rect, cfg.radius as int)
                && s[j].vel.norm_sq() <= MAX_SPEED * MAX_SPEED by {
                if j < before.len() {
                    assert(s[j] == before[j]);
                }
            }
        }
    }

    /// Applies one event from outside: a requested particle, or one
    /// spawner more or fewer. The spawner count never drops below zero
    /// and saturates at its largest value.
    pub fn input(&mut self, event: Input)
        requires
            old(self).wf(),
        ensures
            final(self).wf(),
            final(self).config_of() == old(self).config_of(),
            final(self).clock() == old(self).clock(),
            match event {
                Input::Spawn(p) => final(self).balls_seq() == old(self).balls_seq().push(
                    Ball { pos: nearest_inside(p, old(self).config_of()), vel: Vec2 { x: 0, y: 0 } },
                ) && final(self).spawners() == old(self).spawners(),
                Input::AddSpawner => final(self).balls_seq() == old(self).balls_seq()
                    && final(self).spawners() == if old(self).spawners() < usize::MAX {
                    old(self).spawners() + 1
                } else {
                    old(self).spawners()
                },
                Input::RemoveSpawner => final(self).balls_seq() == old(self).balls_seq()
                    && final(self).spawners() == if old(self).spawners() > 0 {
                    old(self).spawners() - 1
                } else {
                    0
                },
            },
    {
        match event {
            Input::Spawn(p) => self.request_spawn(p),
            Input::AddSpawner => {
                if self.spawner_count < usize::MAX {
                    self.spawner_count = self.spawner_count + 1;
                }
            },
            Input::RemoveSpawner => {
                if self.spawner_count > 0 {
                    self.spawner_count = self.spawner_count - 1;
                }
            },
        }
    }

    /// One sub-step of `dt` microseconds: see [`substep`].
    fn substep(&mut self, dt: u32)
        requires
            old(self).wf(),
        ensures
            final(self).wf(),
            final(self).balls@ == substep(old(self).balls@, old(self).config, dt as int),
            final(self).config == old(self).config,
            final(self).spawner_count == old(self).spawner_count,
            final(self).spawn_clock == old(self).spawn_clock,
    {
        let cfg = self.config;
        let n = self.balls.len();
        let ghost start = self.balls@;
        let mut i: usize = 0;
        while i < n
            invariant
                cfg == self.config,
                cfg.wf(),
                n == self.balls@.len(),
                start.len() == n,
                settled(start, cfg),
                i <= n,
                forall|j: int| i <= j < n ==> #[trigger] self.balls@[j] == start[j],
                forall|j: int| 0 <= j < i ==> #[trigger] self.balls@[j] == moved(start, cfg, dt as int)[j],
                forall|j: int|
                    0 <= j < i ==> inside(#[trigger] self.balls@[j].pos, cfg.rect, cfg.radius as int)
                        && self.balls@[j].vel.norm_sq() <= MAX_SPEED * MAX_SPEED,
                self.spawner_count == old(self).spawner_count,
                self.spawn_clock == old(self).spawn_clock,
            decreases n - i,
        {
            let mut b = self.balls[i];
            proof {
                assert(inside(start[i as int].pos, cfg.rect, cfg.radius as int));
            }
            b.update(dt, &cfg);
            proof {
                crate::config::lemma_component_bound(b.vel, MAX_SPEED as int);
            }
            b.move_in_bounds(cfg.rect, cfg.radius);
            self.balls.set(i, b);
            i = i + 1;
        }
        let ghost m = self.balls@;
        proof {
            assert(m =~= moved(start, cfg, dt as int));
            assert forall|j: int| 0 <= j < m.len() implies #[trigger] inside(m[j].pos, cfg.rect, cfg.radius as int)
                && m[j].vel.norm_sq() <= MAX_SPEED * MAX_SPEED by {
                assert(inside(self.balls@[j].pos, cfg.rect, cfg.radius as int));
            }
            lemma_settled_movable(m, cfg);
        }
        let grid = Grid::build(&self.balls, &cfg);
        proof {
            cfg.lemma_grid_dims();
            assert forall|k: int, q: int|
                0 <= k < grid.view_cells().len() && 0 <= q < grid.view_cells()[k].len()
                implies #[trigger] grid.view_cells()[k][q] < n by {
                lemma_bucket_below(m, n as int, k, cfg.radius as int, cfg.cols());
            }
            assert(indices_below(grid.view_cells(), n as int));
            assert(grid.view_cells() == buckets(m, cfg));
        }
        if pass_fits(&grid, cfg.radius, i64::MAX - MAX_EXTENT) {
            proof {
                let lim = i64::MAX - cfg.radius * (grid_budget(grid.view_cells(), grid.rows as int, grid.cols as int) + 1);
                assert forall|j: int| 0 <= j < m.len() implies -lim <= #[trigger] m[j].pos.x <= lim
                    && -lim <= m[j].pos.y <= lim by {
                    assert(inside(m[j].pos, cfg.rect, cfg.radius as int));
                }
            }
            resolve_slices(&mut self.balls, &grid, cfg.radius);
        }
        let ghost r = self.balls@;
        let mut i: usize = 0;
        while i < n
            invariant
                cfg == self.config,
                cfg.wf(),
                n == self.balls@.len(),
                r.len() == n,
                movable(r),
                forall|j: int| 0 <= j < n ==> #[trigger] r[j].vel.norm_sq() <= m[j].vel.norm_sq(),
                settled(m, cfg),
                m.len() == n,
                i <= n,
                forall|j: int| i <= j < n ==> #[trigger] self.balls@[j] == r[j],
                forall|j: int| 0 <= j < i ==> #[trigger] self.balls@[j] == confined(r, cfg)[j],
                forall|j: int|
                    0 <= j < i ==> inside(#[trigger] self.balls@[j].pos, cfg.rect, cfg.radius as int)
                        && self.balls@[j].vel.norm_sq() == r[j].vel.norm_sq(),
                self.spawner_count == old(self).spawner_count,
                self.spawn_clock == old(self).spawn_clock,
            decreases n - i,
        {
            let mut b = self.balls[i];
            proof {
                assert(movable(r));
                assert(r[i as int].vel.norm_sq() <= MAX_SPEED * MAX_SPEED);
                crate::config::lemma_component_bound(b.vel, MAX_SPEED as int);
            }
            b.move_in_bounds(cfg.rect, cfg.radius);
            self.balls.set(i, b);
            i = i + 1;
        }
        proof {
            assert(self.balls@ =~= confined(r, cfg));
            assert forall|j: int| 0 <= j < n implies #[trigger] inside(self.balls@[j].pos, cfg.rect, cfg.radius as int)
                && self.balls@[j].vel.norm_sq() <= MAX_SPEED * MAX_SPEED by {
                assert(inside(self.balls@[j].pos, cfg.rect, cfg.radius as int));
                assert(r[j].vel.norm_sq() <= m[j].vel.norm_sq());
                assert(inside(m[j].pos, cfg.rect, cfg.radius as int));
            }
        }
    }
}

/// `v` held between `lo` and `hi`.
fn clamp_to(v: i128, lo: i128, hi: i128) -> (r: i128)
    requires
        lo <= hi,
    ensures
        r == clamp(v as int, lo as int, hi as int),
        lo <= r <= hi,
{
    if v < lo {
        lo
    } else if v > hi {
        hi
    } else {
        v
    }
}

/// Settled particles may be resolved.
proof fn lemma_settled_movable(s: Seq<Ball>, cfg: Config)
    requires
        cfg.wf(),
        settled(s, cfg),
    ensures
        movable(s),
        all_inside(s, cfg),
{
    assert forall|i: int| 0 <= i < s.len() implies #[trigger] s[i].vel.norm_sq() <= MAX_SPEED
        * MAX_SPEED by {
        assert(inside(s[i].pos, cfg.rect, cfg.radius as int));
    }
    assert forall|i: int| 0 <= i < s.len() implies #[trigger] inside(s[i].pos, cfg.rect, cfg.radius as int) by {
        assert(inside(s[i].pos, cfg.rect, cfg.radius as int) && s[i].vel.norm_sq() <= MAX_SPEED * MAX_SPEED);
    }
}

} // verus!
