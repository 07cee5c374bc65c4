//! The aggregation run: release, walk, settle and adapt, once per particle.

use crate::grid::{cell_index, in_grid, lemma_cell_index, Grid, FROZEN};
use crate::radius::{lemma_next_radius_bounds, next_radius, update_release_distance};
use crate::release::{center, release_height, release_particle, valid_release_x};
use crate::walk::{
    bump_at, is_walk, lemma_mark_path_only_marks, let_particle_wander, one_step, settle, touches,
};
use rand::rngs::StdRng;
use vstd::prelude::*;

verus! {

/// Every cell that is non-zero in `a` is non-zero in `b`, and every cell at
/// or above the frozen value in `a` is so in `b`.
pub open spec fn keeps_marks(a: Seq<u8>, b: Seq<u8>) -> bool {
    &&& a.len() == b.len()
    &&& forall|i: int|
        0 <= i < a.len() ==> (a[i] != 0 ==> #[trigger] b[i] != 0) && (a[i] >= FROZEN ==> b[i]
            >= FROZEN)
}

proof fn lemma_bump_keeps_marks(s: Seq<u8>, i: int)
    requires
        0 <= i < s.len(),
    ensures
        keeps_marks(s, bump_at(s, i)),
{
}

/// Settling a particle never clears a cell: what was non-zero stays
/// non-zero, and what was frozen stays at or above the frozen value.
pub proof fn lemma_settle_keeps_marks(s: Seq<u8>, p: int, x: int, y: int)
    requires
        0 <= p,
        s.len() == (p + 1) * (p + 1),
        in_grid(p, x, y),
    ensures
        keeps_marks(s, settle(s, p, x, y)),
{
    if 0 < x < p && 0 < y < p {
        lemma_cell_index(p, x, y, x, y);
        lemma_cell_index(p, x + 1, y, x + 1, y);
        lemma_cell_index(p, x - 1, y, x - 1, y);
        lemma_cell_index(p, x, y + 1, x, y + 1);
        lemma_cell_index(p, x, y - 1, x, y - 1);
        let frozen = s.update(cell_index(p, x, y), FROZEN);
        let right = bump_at(frozen, cell_index(p, x + 1, y));
        let left = bump_at(right, cell_index(p, x - 1, y));
        let above = bump_at(left, cell_index(p, x, y + 1));
        lemma_bump_keeps_marks(frozen, cell_index(p, x + 1, y));
        lemma_bump_keeps_marks(right, cell_index(p, x - 1, y));
        lemma_bump_keeps_marks(left, cell_index(p, x, y + 1));
        lemma_bump_keeps_marks(above, cell_index(p, x, y - 1));
        assert(keeps_marks(s, frozen));
    }
}

/// `start` is a point of the release ring of radius `r`.
pub open spec fn released_from(p: int, r: int, start: (int, int)) -> bool {
    &&& valid_release_x(p, r, start.0)
    &&& (start.1 == release_height(p, r, start.0, false) || start.1 == release_height(
        p,
        r,
        start.0,
        true,
    ))
}

/// Parameters of a run.
pub struct Config {
    /// Number of particles released.
    pub particle_count: usize,
    /// Largest coordinate on each axis of the grids.
    pub pic_size: usize,
    /// Release radius of the first particle.
    pub initial_radius: usize,
}

impl Config {
    /// The grids fit in memory and the initial radius is between one and the
    /// centre coordinate.
    pub open spec fn valid(&self) -> bool {
        &&& (self.pic_size + 1) * (self.pic_size + 1) <= usize::MAX
        &&& 1 <= self.initial_radius <= center(self.pic_size as int)
    }
}

/// The state of a run: the occupancy grid, the two trace grids and the
/// current release radius.
pub struct Simulation {
    /// Largest coordinate on each axis of the grids.
    pub pic_size: usize,
    /// Radius of the ring the next particle is released from.
    pub release_distance: usize,
    /// 0 empty, 1.. halo increments, 250 a frozen particle.
    pub occupancy: Grid,
    /// Release points, marked 250.
    pub start_trace: Grid,
    /// Positions reached by walking particles, marked 250.
    pub wander_trace: Grid,
}

/// `s` is the state at the start of a run: one frozen particle at the
/// centre, everything else empty, and release radius `r`.
pub open spec fn is_initial(s: Simulation, p: int, r: int) -> bool {
    &&& s.wf()
    &&& s.pic_size == p
    &&& s.release_distance == r
    &&& forall|i: int|
        0 <= i < s.occupancy.cells@.len() ==> #[trigger] s.occupancy.cells@[i] == if i == cell_index(
            p,
            center(p),
            center(p),
        ) {
            FROZEN
        } else {
            0u8
        }
    &&& forall|i: int| 0 <= i < s.start_trace.cells@.len() ==> #[trigger] s.start_trace.cells@[i] == 0
    &&& forall|i: int| 0 <= i < s.wander_trace.cells@.len() ==> #[trigger] s.wander_trace.cells@[i] == 0
}

/// One cycle leads from `pre` to `post` with the particle ending at `end`:
/// it was released on the ring of `pre`'s radius (and that point marked in
/// the start trace), walked as `is_walk` says, settled at `end` if `end`
/// touches the cluster, and the radius adapted to `end`.
pub open spec fn is_cycle(pre: Simulation, post: Simulation, end: (int, int), max_steps: int) -> bool {
    &&& post.wf()
    &&& post.pic_size == pre.pic_size
    &&& in_grid(pre.pic_size as int, end.0, end.1)
    &&& post.release_distance == next_radius(
        pre.pic_size as int,
        pre.release_distance as int,
        end.0,
        end.1,
    )
    &&& touches(pre.occupancy.cells@, pre.pic_size as int, end) ==> post.occupancy.cells@ == settle(
        pre.occupancy.cells@,
        pre.pic_size as int,
        end.0,
        end.1,
    )
    &&& !touches(pre.occupancy.cells@, pre.pic_size as int, end) ==> post.occupancy.cells@
        == pre.occupancy.cells@
    &&& exists|path: Seq<(int, int)>|
        {
            &&& #[trigger] is_walk(
                pre.pic_size as int,
                pre.occupancy.cells@,
                pre.wander_trace.cells@,
                post.wander_trace.cells@,
                path,
                max_steps,
            )
            &&& path.last() == end
            &&& released_from(pre.pic_size as int, pre.release_distance as int, path[0])
            &&& post.start_trace.cells@ == pre.start_trace.cells@.update(
                cell_index(pre.pic_size as int, path[0].0, path[0].1),
                FROZEN,
            )
        }
}

/// `states` are the states of a run of `count` cycles, each leading from one
/// state to the next, the particle of cycle `k` ending at `ends[k]`.
pub open spec fn is_run(states: Seq<Simulation>, ends: Seq<(int, int)>, count: int, max_steps: int) -> bool {
    &&& states.len() == count + 1
    &&& ends.len() == count
    &&& forall|k: int|
        0 <= k < count ==> #[trigger] is_cycle(states[k], states[k + 1], ends[k], max_steps)
}

impl Simulation {
    /// The three grids share the parameter, and the release radius is
    /// between one and the centre coordinate.
    pub open spec fn wf(&self) -> bool {
        &&& self.occupancy.wf()
        &&& self.start_trace.wf()
        &&& self.wander_trace.wf()
        &&& self.occupancy.pic_size == self.pic_size
        &&& self.start_trace.pic_size == self.pic_size
        &&& self.wander_trace.pic_size == self.pic_size
        &&& 1 <= self.release_distance <= center(self.pic_size as int)
    }

    /// A run with a single frozen particle at the centre and empty traces.
    pub fn new(pic_size: usize, release_distance: usize) -> (s: Simulation)
        requires
            (pic_size + 1) * (pic_size + 1) <= usize::MAX,
            1 <= release_distance <= center(pic_size as int),
        ensures
            is_initial(s, pic_size as int, release_distance as int),
    {
        let c = pic_size / 2;
        let mut occupancy = Grid::new(pic_size);
        occupancy.set(c, c, FROZEN);
        proof {
            lemma_cell_index(pic_size as int, c as int, c as int, c as int, c as int);
        }
        Simulation {
            pic_size,
            release_distance,
            occupancy,
            start_trace: Grid::new(pic_size),
            wander_trace: Grid::new(pic_size),
        }
    }

    /// One particle: released on the ring, walked until it touches the
    /// cluster (or for `max_steps` moves), settled, and the release radius
    /// adapted to where it ended. Returns where it ended.
    pub fn run_cycle(&mut self, rng: &mut StdRng, max_steps: usize) -> (r: (usize, usize))
        requires
            old(self).wf(),
        ensures
            is_cycle(*old(self), *final(self), (r.0 as int, r.1 as int), max_steps as int),
            keeps_marks(old(self).occupancy.cells@, final(self).occupancy.cells@),
            keeps_marks(old(self).start_trace.cells@, final(self).start_trace.cells@),
            keeps_marks(old(self).wander_trace.cells@, final(self).wander_trace.cells@),
    {
        let start = release_particle(&mut self.start_trace, self.release_distance, rng);
        let end = let_particle_wander(
            &mut self.occupancy,
            &mut self.wander_trace,
            start,
            rng,
            max_steps,
        );
        let ghost p = self.pic_size as int;
        let ghost path = choose|path: Seq<(int, int)>|
            {
                &&& #[trigger] is_walk(
                    p,
                    old(self).occupancy.cells@,
                    old(self).wander_trace.cells@,
                    self.wander_trace.cells@,
                    path,
                    max_steps as int,
                )
                &&& path[0] == (start.0 as int, start.1 as int)
                &&& path.last() == (end.0 as int, end.1 as int)
            };
        proof {
            lemma_settle_keeps_marks(old(self).occupancy.cells@, p, end.0 as int, end.1 as int);
            lemma_cell_index(p, start.0 as int, start.1 as int, start.0 as int, start.1 as int);
            assert(released_from(p, old(self).release_distance as int, path[0]));
            assert forall|k: int| 1 <= k < path.len() implies in_grid(p, #[trigger] path[k].0, path[k].1) by {
                assert(one_step(p, path[k - 1], path[(k - 1) + 1]));
            }
            lemma_mark_path_only_marks(old(self).wander_trace.cells@, p, path);
        }
        self.release_distance = update_release_distance(self.pic_size, self.release_distance, end);
        assert(is_walk(
            p,
            old(self).occupancy.cells@,
            old(self).wander_trace.cells@,
            self.wander_trace.cells@,
            path,
            max_steps as int,
        ));
        assert(self.start_trace.cells@ == old(self).start_trace.cells@.update(
            cell_index(p, path[0].0, path[0].1),
            FROZEN,
        ));
        end
    }

    /// Runs `count` particles, one after the other.
    pub fn run(&mut self, rng: &mut StdRng, count: usize, max_steps: usize)
        requires
            old(self).wf(),
        ensures
            final(self).wf(),
            final(self).pic_size == old(self).pic_size,
            exists|states: Seq<Simulation>, ends: Seq<(int, int)>|
                {
                    &&& #[trigger] is_run(states, ends, count as int, max_steps as int)
                    &&& states[0] == *old(self)
                    &&& states.last() == *final(self)
                },
            old(self).release_distance <= final(self).release_distance,
            old(self).release_distance <= center(old(self).pic_size as int) - 1
                ==> final(self).release_distance <= center(old(self).pic_size as int) - 1,
            keeps_marks(old(self).occupancy.cells@, final(self).occupancy.cells@),
            keeps_marks(old(self).start_trace.cells@, final(self).start_trace.cells@),
            keeps_marks(old(self).wander_trace.cells@, final(self).wander_trace.cells@),
    {
        let mut n: usize = 0;
        let ghost mut states: Seq<Simulation> = seq![*self];
        let ghost mut ends: Seq<(int, int)> = Seq::empty();
        while n < count
            invariant
                self.wf(),
                n <= count,
                is_run(states, ends, n as int, max_steps as int),
                states[0] == *old(self),
                states.last() == *self,
                self.pic_size == old(self).pic_size,
                old(self).release_distance <= self.release_distance,
                old(self).release_distance <= center(old(self).pic_size as int) - 1
                    ==> self.release_distance <= center(old(self).pic_size as int) - 1,
                keeps_marks(old(self).occupancy.cells@, self.occupancy.cells@),
                keeps_marks(old(self).start_trace.cells@, self.start_trace.cells@),
                keeps_marks(old(self).wander_trace.cells@, self.wander_trace.cells@),
            decreases count - n,
        {
            let ghost before = *self;
            let end = self.run_cycle(rng, max_steps);
            proof {
                let old_states = states;
                let old_ends = ends;
                states = states.push(*self);
                ends = ends.push((end.0 as int, end.1 as int));
                assert forall|k: int| 0 <= k < n + 1 implies #[trigger] is_cycle(
                    states[k],
                    states[k + 1],
                    ends[k],
                    max_steps as int,
                ) by {
                    if k < n {
                        assert(states[k] == old_states[k] && states[k + 1] == old_states[k + 1]);
                        assert(ends[k] == old_ends[k]);
                        assert(is_cycle(old_states[k], old_states[k + 1], old_ends[k], max_steps as int));
                    } else {
                        assert(states[k] == before);
                    }
                }
                lemma_next_radius_bounds(
                    before.pic_size as int,
                    before.release_distance as int,
                    end.0 as int,
                    end.1 as int,
                );
                assert(keeps_marks(before.occupancy.cells@, self.occupancy.cells@));
                assert(keeps_marks(before.start_trace.cells@, self.start_trace.cells@));
                assert(keeps_marks(before.wander_trace.cells@, self.wander_trace.cells@));
            }
            n = n + 1;
        }
    }
}

/// A whole run: the seed at the centre, then `config.particle_count`
/// particles, each walk capped at `max_steps` moves.
pub fn simulate(config: &Config, rng: &mut StdRng, max_steps: usize) -> (s: Simulation)
    requires
        config.valid(),
    ensures
        s.wf(),
        s.pic_size == config.pic_size,
        exists|states: Seq<Simulation>, ends: Seq<(int, int)>|
            {
                &&& #[trigger] is_run(states, ends, config.particle_count as int, max_steps as int)
                &&& is_initial(states[0], config.pic_size as int, config.initial_radius as int)
                &&& states.last() == s
            },
        config.initial_radius <= s.release_distance,
        config.initial_radius <= center(config.pic_size as int) - 1 ==> s.release_distance
            <= center(config.pic_size as int) - 1,
        s.occupancy.at(center(config.pic_size as int), center(config.pic_size as int)) >= FROZEN,
{
    let mut s = Simulation::new(config.pic_size, config.initial_radius);
    proof {
        let p = config.pic_size as int;
        lemma_cell_index(p, center(p), center(p), center(p), center(p));
    }
    let ghost first = s;
    assert(s.occupancy.cells@[cell_index(
        config.pic_size as int,
        center(config.pic_size as int),
        center(config.pic_size as int),
    )] == FROZEN);
    s.run(rng, config.particle_count, max_steps);
    assert(is_initial(first, config.pic_size as int, config.initial_radius as int));
    s
}

} // verus!
