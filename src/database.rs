//! Per-frame statistics for display: counts, and a ring of recent frame
//! and simulation times in microseconds.
use vstd::prelude::*;
use crate::simulation::Simulation;

verus! {

/// Number of frames the ring remembers.
pub const GRAPH_SIZE: usize = 300;

/// The sum of a sequence of samples.
pub open spec fn sum_of(s: Seq<u32>) -> int
    decreases s.len(),
{
    if s.len() == 0 {
        0
    } else {
        sum_of(s.drop_last()) + s.last()
    }
}

/// Statistics sampled once per frame.
pub struct Database {
    ball_count: usize,
    spawner_count: usize,
    frame_time: Vec<u32>,
    simulation_time: Vec<u32>,
    index: usize,
}

impl Database {
    pub closed spec fn frames(self) -> Seq<u32> {
        self.frame_time@
    }

    pub closed spec fn sim_times(self) -> Seq<u32> {
        self.simulation_time@
    }

    /// The slot the next sample goes to.
    pub closed spec fn cursor(self) -> int {
        self.index as int
    }

    pub closed spec fn balls_seen(self) -> int {
        self.ball_count as int
    }

    pub closed spec fn spawners_seen(self) -> int {
        self.spawner_count as int
    }

    pub open spec fn wf(self) -> bool {
        &&& self.frames().len() == GRAPH_SIZE
        &&& self.sim_times().len() == GRAPH_SIZE
        &&& 0 <= self.cursor() < GRAPH_SIZE
    }

    /// Empty statistics: every sample zero, nothing counted.
    pub fn new() -> (d: Database)
        ensures
            d.wf(),
            d.frames() == Seq::new(GRAPH_SIZE as nat, |i: int| 0u32),
            d.sim_times() == Seq::new(GRAPH_SIZE as nat, |i: int| 0u32),
            d.cursor() == 0,
            d.balls_seen() == 0,
            d.spawners_seen() == 0,
    {
        let d = Database {
            ball_count: 0,
            spawner_count: 0,
            frame_time: zeros(GRAPH_SIZE),
            simulation_time: zeros(GRAPH_SIZE),
            index: 0,
        };
        assert(d.frame_time@ =~= Seq::new(GRAPH_SIZE as nat, |i: int| 0u32));
        assert(d.simulation_time@ =~= Seq::new(GRAPH_SIZE as nat, |i: int| 0u32));
        d
    }

    /// Records one frame: the simulation's counts, and the frame's length
    /// and the time its simulation step took, over the oldest samples.
    pub fn update(&mut self, simulation: &Simulation, frame_time: u32, simulation_time: u32)
        requires
            old(self).wf(),
        ensures
            final(self).wf(),
            final(self).balls_seen() == simulation.balls_seq().len(),
            final(self).spawners_seen() == simulation.spawners(),
            final(self).frames() == old(self).frames().update(old(self).cursor(), frame_time),
            final(self).sim_times() == old(self).sim_times().update(
                old(self).cursor(),
                simulation_time,
            ),
            final(self).cursor() == (old(self).cursor() + 1) % GRAPH_SIZE as int,
    {
        self.ball_count = simulation.ball_count();
        self.spawner_count = simulation.spawner_count();
        self.frame_time.set(self.index, frame_time);
        self.simulation_time.set(self.index, simulation_time);
        self.index = self.index + 1;
        if self.index >= GRAPH_SIZE {
            self.index = 0;
        }
    }

    /// Input has no effect on the statistics.
    pub fn input(&mut self)
        ensures
            *final(self) == *old(self),
    {
    }

    pub fn frame_times(&self) -> (r: &Vec<u32>)
        ensures
            r@ == self.frames(),
    {
        &self.frame_time
    }

    pub fn simulation_times(&self) -> (r: &Vec<u32>)
        ensures
            r@ == self.sim_times(),
    {
        &self.simulation_time
    }

    pub fn index(&self) -> (i: usize)
        ensures
            i == self.cursor(),
    {
        self.index
    }

    pub fn ball_count(&self) -> (n: usize)
        ensures
            n == self.balls_seen(),
    {
        self.ball_count
    }

    pub fn spawner_count(&self) -> (n: usize)
        ensures
            n == self.spawners_seen(),
    {
        self.spawner_count
    }

    /// The mean of the remembered frame times, rounded down.
    pub fn mean_frame_time(&self) -> (m: u64)
        requires
            self.wf(),
        ensures
            m == sum_of(self.frames()) / GRAPH_SIZE as int,
    {
        let mut total: u64 = 0;
        let mut i: usize = 0;
        while i < GRAPH_SIZE
            invariant
                i <= GRAPH_SIZE,
                self.frame_time@.len() == GRAPH_SIZE,
                total == sum_of(self.frame_time@.take(i as int)),
                total <= i * 0xffff_ffff,
            decreases GRAPH_SIZE - i,
        {
            proof {
                assert(self.frame_time@.take(i + 1).drop_last() =~= self.frame_time@.take(i as int));
            }
            total = total + self.frame_time[i] as u64;
            i = i + 1;
        }
        proof {
            assert(self.frame_time@.take(GRAPH_SIZE as int) =~= self.frame_time@);
        }
        total / GRAPH_SIZE as u64
    }

    /// The longest remembered frame time.
    pub fn peak_frame_time(&self) -> (m: u32)
        requires
            self.wf(),
        ensures
            forall|i: int| 0 <= i < GRAPH_SIZE ==> self.frames()[i] <= m,
            exists|i: int| 0 <= i < GRAPH_SIZE && self.frames()[i] == m,
    {
        let mut best: u32 = self.frame_time[0];
        let mut i: usize = 1;
        while i < GRAPH_SIZE
            invariant
                1 <= i <= GRAPH_SIZE,
                self.frame_time@.len() == GRAPH_SIZE,
                forall|j: int| 0 <= j < i ==> self.frame_time@[j] <= best,
                exists|j: int| 0 <= j < i && self.frame_time@[j] == best,
            decreases GRAPH_SIZE - i,
        {
            if self.frame_time[i] > best {
                best = self.frame_time[i];
            }
            i = i + 1;
        }
        best
    }
}

/// `n` zero samples.
fn zeros(n: usize) -> (v: Vec<u32>)
    ensures
        v@ == Seq::new(n as nat, |i: int| 0u32),
{
    let mut v: Vec<u32> = Vec::new();
    let mut i: usize = 0;
    while i < n
        invariant
            i <= n,
            v@ == Seq::new(i as nat, |j: int| 0u32),
        decreases n - i,
    {
        v.push(0);
        i = i + 1;
        proof {
            assert(v@ =~= Seq::new(i as nat, |j: int| 0u32));
        }
    }
    v
}

} // verus!
