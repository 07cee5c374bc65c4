//! The random walk of one particle and its sticking to the cluster.

use crate::grid::{cell_index, halo_inc, in_grid, lemma_cell_index, Grid, FROZEN};
use crate::random::next_uniform_int;
use rand::rngs::StdRng;
use vstd::prelude::*;

verus! {

/// Position after one move in direction `dir` (0 left, 1 right, 2 down,
/// 3 up); a move that would leave the grid is not made.
pub open spec fn step(p: int, x: int, y: int, dir: int) -> (int, int) {
    if dir == 0 && x > 0 {
        (x - 1, y)
    } else if dir == 1 && x < p {
        (x + 1, y)
    } else if dir == 2 && y > 0 {
        (x, y - 1)
    } else if dir == 3 && y < p {
        (x, y + 1)
    } else {
        (x, y)
    }
}

/// A step keeps the particle in the grid and moves it by at most one cell
/// on one axis.
pub proof fn lemma_step_adjacent(p: int, x: int, y: int, dir: int)
    requires
        in_grid(p, x, y),
    ensures
        ({
            let (x2, y2) = step(p, x, y, dir);
            &&& in_grid(p, x2, y2)
            &&& (x2 == x && (y2 == y || y2 == y - 1 || y2 == y + 1)) || (y2 == y && (x2 == x - 1 || x2
                == x + 1))
        }),
{
}

/// `b` is `a` or one of its four neighbours, inside the grid.
pub open spec fn one_step(p: int, a: (int, int), b: (int, int)) -> bool {
    &&& in_grid(p, b.0, b.1)
    &&& (a.0 == b.0 && (b.1 == a.1 || b.1 == a.1 - 1 || b.1 == a.1 + 1)) || (a.1 == b.1 && (b.0
        == a.0 - 1 || b.0 == a.0 + 1))
}

/// Value of cell `c` in the cells `s` of a grid with parameter `p`.
pub open spec fn cell_at(s: Seq<u8>, p: int, c: (int, int)) -> u8 {
    s[cell_index(p, c.0, c.1)]
}

/// A cell value that belongs to the cluster: a frozen particle, possibly
/// raised further by the halo of a later neighbour.
pub open spec fn is_frozen(v: u8) -> bool {
    v >= FROZEN
}

/// A particle at `c` touches the cluster: `c` itself or one of its axis
/// neighbours in the grid is frozen. Halo values play no part.
pub open spec fn touches(occ: Seq<u8>, p: int, c: (int, int)) -> bool {
    ||| is_frozen(cell_at(occ, p, c))
    ||| (c.0 > 0 && is_frozen(cell_at(occ, p, (c.0 - 1, c.1))))
    ||| (c.0 < p && is_frozen(cell_at(occ, p, (c.0 + 1, c.1))))
    ||| (c.1 > 0 && is_frozen(cell_at(occ, p, (c.0, c.1 - 1))))
    ||| (c.1 < p && is_frozen(cell_at(occ, p, (c.0, c.1 + 1))))
}

/// When `seed` is the only frozen cell, a cell that touches the cluster is
/// the seed or one of its four axis neighbours.
pub proof fn lemma_touch_beside_seed(occ: Seq<u8>, p: int, seed: (int, int), c: (int, int))
    requires
        in_grid(p, c.0, c.1),
        forall|x: int, y: int|
            in_grid(p, x, y) && (x, y) != seed ==> !is_frozen(#[trigger] cell_at(occ, p, (x, y))),
        touches(occ, p, c),
    ensures
        c == seed || (c.0 == seed.0 && (c.1 == seed.1 + 1 || c.1 == seed.1 - 1)) || (c.1 == seed.1
            && (c.0 == seed.0 + 1 || c.0 == seed.0 - 1)),
{
    if is_frozen(cell_at(occ, p, c)) {
        assert(is_frozen(cell_at(occ, p, (c.0, c.1))));
    } else if c.0 > 0 && is_frozen(cell_at(occ, p, (c.0 - 1, c.1))) {
        assert(is_frozen(cell_at(occ, p, (c.0 - 1, c.1))));
    } else if c.0 < p && is_frozen(cell_at(occ, p, (c.0 + 1, c.1))) {
        assert(is_frozen(cell_at(occ, p, (c.0 + 1, c.1))));
    } else if c.1 > 0 && is_frozen(cell_at(occ, p, (c.0, c.1 - 1))) {
        assert(is_frozen(cell_at(occ, p, (c.0, c.1 - 1))));
    } else {
        assert(is_frozen(cell_at(occ, p, (c.0, c.1 + 1))));
    }
}

/// Trace cells `s` with every position of `path` after the first marked.
pub open spec fn mark_path(s: Seq<u8>, p: int, path: Seq<(int, int)>) -> Seq<u8>
    decreases path.len(),
{
    if path.len() <= 1 {
        s
    } else {
        mark_path(s, p, path.drop_last()).update(
            cell_index(p, path.last().0, path.last().1),
            FROZEN,
        )
    }
}

/// Marking a path in the grid keeps the length of the cells and leaves each
/// cell either as it was or marked.
pub(crate) proof fn lemma_mark_path_only_marks(s: Seq<u8>, p: int, path: Seq<(int, int)>)
    requires
        0 <= p,
        s.len() == (p + 1) * (p + 1),
        forall|k: int| 1 <= k < path.len() ==> in_grid(p, #[trigger] path[k].0, path[k].1),
    ensures
        mark_path(s, p, path).len() == s.len(),
        forall|i: int|
            0 <= i < s.len() ==> #[trigger] mark_path(s, p, path)[i] == s[i] || mark_path(s, p, path)[i]
                == FROZEN,
    decreases path.len(),
{
    if path.len() > 1 {
        let q = path.drop_last();
        assert forall|k: int| 1 <= k < q.len() implies in_grid(p, #[trigger] q[k].0, q[k].1) by {
            assert(q[k] == path[k]);
        }
        lemma_mark_path_only_marks(s, p, q);
        let last = path.last();
        assert(in_grid(p, path[path.len() - 1].0, path[path.len() - 1].1));
        lemma_cell_index(p, last.0, last.1, last.0, last.1);
    }
}

/// `path` is a walk that a particle can make from `path[0]` on occupancy
/// cells `occ`: one step at a time, touching the cluster nowhere before its
/// end, and stopping early only where it touches the cluster: a walk that
/// ends elsewhere made `max_steps` moves. The trace cells go from `before`
/// to `after` by marking each position after the first, and no other cell.
pub open spec fn is_walk(
    p: int,
    occ: Seq<u8>,
    before: Seq<u8>,
    after: Seq<u8>,
    path: Seq<(int, int)>,
    max_steps: int,
) -> bool {
    &&& 1 <= path.len() <= max_steps + 1
    &&& in_grid(p, path[0].0, path[0].1)
    &&& forall|k: int| 0 <= k < path.len() - 1 ==> one_step(p, path[k], #[trigger] path[k + 1])
    &&& forall|k: int| 0 <= k < path.len() - 1 ==> !touches(occ, p, #[trigger] path[k])
    &&& forall|k: int| 1 <= k < path.len() ==> cell_at(after, p, #[trigger] path[k]) == FROZEN
    &&& after == mark_path(before, p, path)
    &&& !touches(occ, p, path.last()) ==> path.len() == max_steps + 1
}

/// `s` with one halo increment at position `i`.
pub open spec fn bump_at(s: Seq<u8>, i: int) -> Seq<u8> {
    s.update(i, halo_inc(s[i]))
}

/// Occupancy cells after a particle settles at `(x, y)`: an interior cell
/// is set to the frozen value (also when it was frozen already) and its four
/// neighbours get one halo increment each, frozen ones included; on the
/// border nothing changes.
pub open spec fn settle(s: Seq<u8>, p: int, x: int, y: int) -> Seq<u8> {
    if 0 < x < p && 0 < y < p {
        let frozen = s.update(cell_index(p, x, y), FROZEN);
        let right = bump_at(frozen, cell_index(p, x + 1, y));
        let left = bump_at(right, cell_index(p, x - 1, y));
        let above = bump_at(left, cell_index(p, x, y + 1));
        bump_at(above, cell_index(p, x, y - 1))
    } else {
        s
    }
}

/// Moves `coor` one step in direction `dir`, staying in the grid.
pub fn step_particle(pic_size: usize, coor: (usize, usize), dir: usize) -> (r: (usize, usize))
    requires
        in_grid(pic_size as int, coor.0 as int, coor.1 as int),
    ensures
        (r.0 as int, r.1 as int) == step(pic_size as int, coor.0 as int, coor.1 as int, dir as int),
        in_grid(pic_size as int, r.0 as int, r.1 as int),
{
    let (x, y) = coor;
    if dir == 0 && x > 0 {
        (x - 1, y)
    } else if dir == 1 && x < pic_size {
        (x + 1, y)
    } else if dir == 2 && y > 0 {
        (x, y - 1)
    } else if dir == 3 && y < pic_size {
        (x, y + 1)
    } else {
        (x, y)
    }
}

/// When `seed` is the only frozen cell, a walk that starts elsewhere and
/// stops because it touches the cluster ends beside the seed, never on it.
pub proof fn lemma_walk_ends_beside_seed(
    p: int,
    occ: Seq<u8>,
    before: Seq<u8>,
    after: Seq<u8>,
    path: Seq<(int, int)>,
    max_steps: int,
    seed: (int, int),
)
    requires
        is_walk(p, occ, before, after, path, max_steps),
        in_grid(p, seed.0, seed.1),
        is_frozen(cell_at(occ, p, seed)),
        forall|x: int, y: int|
            in_grid(p, x, y) && (x, y) != seed ==> !is_frozen(#[trigger] cell_at(occ, p, (x, y))),
        path[0] != seed,
        touches(occ, p, path.last()),
    ensures
        ({
            let e = path.last();
            (e.0 == seed.0 && (e.1 == seed.1 + 1 || e.1 == seed.1 - 1)) || (e.1 == seed.1 && (e.0
                == seed.0 + 1 || e.0 == seed.0 - 1))
        }),
{
    let n = path.len();
    if n == 1 {
        assert(in_grid(p, path[0].0, path[0].1));
    } else {
        assert(one_step(p, path[n - 2], path[(n - 2) + 1]));
        assert(!touches(occ, p, path[n - 2]));
    }
    lemma_touch_beside_seed(occ, p, seed, path.last());
}

/// Fixes a particle at `(x, y)`: see `settle`.
pub fn freeze(occupancy: &mut Grid, x: usize, y: usize)
    requires
        old(occupancy).wf(),
        in_grid(old(occupancy).pic_size as int, x as int, y as int),
    ensures
        final(occupancy).wf(),
        final(occupancy).pic_size == old(occupancy).pic_size,
        final(occupancy).cells@ == settle(
            old(occupancy).cells@,
            old(occupancy).pic_size as int,
            x as int,
            y as int,
        ),
{
    let p = occupancy.pic_size;
    if x > 0 && x < p && y > 0 && y < p {
        occupancy.set(x, y, FROZEN);
        occupancy.bump(x + 1, y);
        occupancy.bump(x - 1, y);
        occupancy.bump(x, y + 1);
        occupancy.bump(x, y - 1);
    }
}

/// Whether the cell `(x, y)` touches the cluster: see `touches`.
pub fn touches_cluster(occupancy: &Grid, x: usize, y: usize) -> (b: bool)
    requires
        occupancy.wf(),
        in_grid(occupancy.pic_size as int, x as int, y as int),
    ensures
        b == touches(occupancy.cells@, occupancy.pic_size as int, (x as int, y as int)),
{
    let p = occupancy.pic_size;
    occupancy.get(x, y) >= FROZEN || (x > 0 && occupancy.get(x - 1, y) >= FROZEN) || (x < p
        && occupancy.get(x + 1, y) >= FROZEN) || (y > 0 && occupancy.get(x, y - 1) >= FROZEN) || (y
        < p && occupancy.get(x, y + 1) >= FROZEN)
}

/// Walks a particle from `coor` until it touches the cluster, or until
/// `max_steps` moves have been made, and returns where it stopped. The test
/// comes before each move, so a particle that starts on or beside a frozen
/// cell does not move. Each position reached by a move is marked in
/// `wander`. A particle that touches the cluster settles where it stands:
/// on a frozen cell, that cell is frozen again and its neighbours' halo
/// raised.
pub fn let_particle_wander(
    occupancy: &mut Grid,
    wander: &mut Grid,
    coor: (usize, usize),
    rng: &mut StdRng,
    max_steps: usize,
) -> (r: (usize, usize))
    requires
        old(occupancy).wf(),
        old(wander).wf(),
        old(wander).pic_size == old(occupancy).pic_size,
        in_grid(old(occupancy).pic_size as int, coor.0 as int, coor.1 as int),
    ensures
        final(occupancy).wf(),
        final(wander).wf(),
        final(occupancy).pic_size == old(occupancy).pic_size,
        final(wander).pic_size == old(wander).pic_size,
        in_grid(old(occupancy).pic_size as int, r.0 as int, r.1 as int),
        touches(old(occupancy).cells@, old(occupancy).pic_size as int, (r.0 as int, r.1 as int))
            ==> final(occupancy).cells@ == settle(
            old(occupancy).cells@,
            old(occupancy).pic_size as int,
            r.0 as int,
            r.1 as int,
        ),
        !touches(old(occupancy).cells@, old(occupancy).pic_size as int, (r.0 as int, r.1 as int))
            ==> final(occupancy).cells@ == old(occupancy).cells@,
        exists|path: Seq<(int, int)>|
            {
                &&& #[trigger] is_walk(
                    old(occupancy).pic_size as int,
                    old(occupancy).cells@,
                    old(wander).cells@,
                    final(wander).cells@,
                    path,
                    max_steps as int,
                )
                &&& path[0] == (coor.0 as int, coor.1 as int)
                &&& path.last() == (r.0 as int, r.1 as int)
            },
{
    let p = occupancy.pic_size;
    let mut cur = coor;
    let mut steps: usize = 0;
    let ghost mut path: Seq<(int, int)> = seq![(coor.0 as int, coor.1 as int)];
    while !touches_cluster(occupancy, cur.0, cur.1) && steps < max_steps
        invariant
            occupancy.wf(),
            wander.wf(),
            occupancy.pic_size == p,
            wander.pic_size == p,
            *occupancy == *old(occupancy),
            in_grid(p as int, cur.0 as int, cur.1 as int),
            steps <= max_steps,
            path.len() == steps + 1,
            path[0] == (coor.0 as int, coor.1 as int),
            path.last() == (cur.0 as int, cur.1 as int),
            forall|k: int| 0 <= k < path.len() ==> in_grid(p as int, #[trigger] path[k].0, path[k].1),
            forall|k: int| 0 <= k < path.len() - 1 ==> one_step(p as int, path[k], #[trigger] path[k + 1]),
            forall|k: int|
                0 <= k < path.len() - 1 ==> !touches(occupancy.cells@, p as int, #[trigger] path[k]),
            forall|k: int|
                1 <= k < path.len() ==> cell_at(wander.cells@, p as int, #[trigger] path[k]) == FROZEN,
            wander.cells@ == mark_path(old(wander).cells@, p as int, path),
        decreases max_steps - steps,
    {
        let dir = next_uniform_int(rng, 0, 4);
        let prev = cur;
        cur = step_particle(p, cur, dir);
        wander.set(cur.0, cur.1, FROZEN);
        proof {
            lemma_step_adjacent(p as int, prev.0 as int, prev.1 as int, dir as int);
            lemma_cell_index(p as int, cur.0 as int, cur.1 as int, cur.0 as int, cur.1 as int);
            let here = (cur.0 as int, cur.1 as int);
            let old_path = path;
            path = path.push(here);
            assert(path.drop_last() =~= old_path);
            assert forall|k: int| 1 <= k < path.len() implies cell_at(wander.cells@, p as int, #[trigger] path[k])
                == FROZEN by {
                if k < path.len() - 1 {
                    assert(path[k] == old_path[k]);
                    lemma_cell_index(p as int, path[k].0, path[k].1, path[k].0, path[k].1);
                }
            }
            assert forall|k: int| 0 <= k < path.len() - 1 implies one_step(p as int, path[k], #[trigger] path[k + 1]) by {
                if k < path.len() - 2 {
                    assert(path[k] == old_path[k] && path[k + 1] == old_path[k + 1]);
                }
            }
            assert forall|k: int| 0 <= k < path.len() - 1 implies !touches(occupancy.cells@, p as int, #[trigger] path[k]) by {
                assert(path[k] == old_path[k]);
            }
        }
        steps = steps + 1;
    }
    if touches_cluster(occupancy, cur.0, cur.1) {
        freeze(occupancy, cur.0, cur.1);
    }
    assert(is_walk(p as int, old(occupancy).cells@, old(wander).cells@, wander.cells@, path, max_steps as int));
    cur
}

} // verus!
