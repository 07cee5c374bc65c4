//! Adaptation of the release radius to the extent of the cluster.

use crate::grid::in_grid;
use crate::isqrt::{ceil_sqrt, sqr_root};
use crate::release::center;
use vstd::prelude::*;

verus! {

/// The release radius after a particle ended at `(x, y)`: one more when the
/// ceiling root of its squared distance from the centre exceeds `r` and
/// `r` is below `c - 1`, else `r`.
pub open spec fn next_radius(p: int, r: int, x: int, y: int) -> int {
    let c = center(p);
    if ceil_sqrt((x - c) * (x - c) + (y - c) * (y - c)) > r && r + 1 < c {
        r + 1
    } else {
        r
    }
}

/// The release radius never shrinks, grows by at most one per particle, and
/// once at most `c - 1` stays at most `c - 1`.
pub proof fn lemma_next_radius_bounds(p: int, r: int, x: int, y: int)
    ensures
        r <= next_radius(p, r, x, y) <= r + 1,
        r <= center(p) - 1 ==> next_radius(p, r, x, y) <= center(p) - 1,
{
}

/// The next release radius, from the grid parameter, the current radius and
/// where the last particle ended.
pub fn update_release_distance(pic_size: usize, release_distance: usize, coor: (usize, usize)) -> (r:
    usize)
    requires
        (pic_size + 1) * (pic_size + 1) <= usize::MAX,
        in_grid(pic_size as int, coor.0 as int, coor.1 as int),
    ensures
        r == next_radius(pic_size as int, release_distance as int, coor.0 as int, coor.1 as int),
{
    let c = pic_size / 2;
    let (x, y) = coor;
    let dx = if x >= c {
        x - c
    } else {
        c - x
    };
    let dy = if y >= c {
        y - c
    } else {
        c - y
    };
    proof {
        assert(dx * dx == (x - c) * (x - c)) by (nonlinear_arith)
            requires
                dx == x - c || dx == c - x,
        ;
        assert(dy * dy == (y - c) * (y - c)) by (nonlinear_arith)
            requires
                dy == y - c || dy == c - y,
        ;
        let m = pic_size - c;
        assert(dx * dx + dy * dy <= 2 * (m * m)) by (nonlinear_arith)
            requires
                0 <= dx <= m,
                0 <= dy <= m,
        ;
        assert(2 * (m * m) <= (pic_size + 1) * (pic_size + 1)) by (nonlinear_arith)
            requires
                m == pic_size - c,
                2 * c <= pic_size <= 2 * c + 1,
                0 <= c,
        ;
    }
    let d = sqr_root(dx * dx + dy * dy);
    if d > release_distance && release_distance < c && c - release_distance > 1 {
        release_distance + 1
    } else {
        release_distance
    }
}

} // verus!
