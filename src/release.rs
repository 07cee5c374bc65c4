//! Release points on a ring around the centre of the grid.

use crate::grid::{cell_index, in_grid, Grid, FROZEN};
use crate::isqrt::{ceil_sqrt, is_ceil_sqrt, lemma_ceil_sqrt_exists, lemma_ceil_sqrt_minimal, sqr_root};
use crate::random::next_uniform_int;
use rand::rngs::StdRng;
use vstd::prelude::*;

verus! {

/// The centre coordinate, on both axes, of a grid with parameter `p`.
pub open spec fn center(p: int) -> int {
    p / 2
}

/// The `y` released with a given `x` on the ring of radius `r`: the centre,
/// moved up or down by the ceiling root of `r² - (x - c)²`.
pub open spec fn release_height(p: int, r: int, x: int, upper: bool) -> int {
    let c = center(p);
    let s = ceil_sqrt(r * r - (x - c) * (x - c));
    if upper {
        c + s
    } else {
        c - s
    }
}

/// A release `x` lies in `[c - r, c + r)`, for a radius between one and the
/// centre coordinate.
pub open spec fn valid_release_x(p: int, r: int, x: int) -> bool {
    &&& 1 <= r <= center(p)
    &&& center(p) - r <= x < center(p) + r
}

/// The offset of a release height from the centre is the ceiling root of
/// `r² - (x - c)²`, at most `r`.
proof fn lemma_release_offset(p: int, r: int, x: int)
    requires
        0 <= p,
        valid_release_x(p, r, x),
    ensures
        0 <= r * r - (x - center(p)) * (x - center(p)),
        is_ceil_sqrt(
            r * r - (x - center(p)) * (x - center(p)),
            ceil_sqrt(r * r - (x - center(p)) * (x - center(p))),
        ),
        ceil_sqrt(r * r - (x - center(p)) * (x - center(p))) <= r,
{
    let c = center(p);
    let d2 = r * r - (x - c) * (x - c);
    assert(0 <= d2) by (nonlinear_arith)
        requires
            d2 == r * r - (x - c) * (x - c),
            c - r <= x < c + r,
    ;
    assert(d2 <= r * r) by (nonlinear_arith)
        requires
            d2 == r * r - (x - c) * (x - c),
    ;
    lemma_ceil_sqrt_exists(d2);
    let s = ceil_sqrt(d2);
    if s > r {
        lemma_ceil_sqrt_minimal(d2, s, r);
    }
}

/// Every release point lies near the ring of radius `r`: its squared
/// distance from the centre is at least `r²`, and with its offset on the `y`
/// axis one less (when there is one) it would be below `r²`. It also lies
/// within `r` of the centre on both axes.
pub proof fn lemma_release_point_near_circle(p: int, r: int, x: int, upper: bool)
    requires
        0 <= p,
        valid_release_x(p, r, x),
    ensures
        ({
            let c = center(p);
            let y = release_height(p, r, x, upper);
            let dy = if y >= c { y - c } else { c - y };
            &&& c - r <= y <= c + r
            &&& (x - c) * (x - c) + dy * dy >= r * r
            &&& (dy == 0 || (x - c) * (x - c) + (dy - 1) * (dy - 1) < r * r)
        }),
{
    lemma_release_offset(p, r, x);
}

/// The `y` of a release point, given its `x` and the side of the ring.
pub fn release_y(pic_size: usize, release_distance: usize, x: usize, upper: bool) -> (y: usize)
    requires
        (pic_size + 1) * (pic_size + 1) <= usize::MAX,
        valid_release_x(pic_size as int, release_distance as int, x as int),
    ensures
        y == release_height(pic_size as int, release_distance as int, x as int, upper),
        in_grid(pic_size as int, x as int, y as int),
{
    let c = pic_size / 2;
    let r = release_distance;
    let dx = if x >= c {
        x - c
    } else {
        c - x
    };
    proof {
        lemma_release_offset(pic_size as int, r as int, x as int);
        assert(dx * dx == (x - c) * (x - c)) by (nonlinear_arith)
            requires
                dx == x - c || dx == c - x,
        ;
        assert(r * r <= (pic_size + 1) * (pic_size + 1)) by (nonlinear_arith)
            requires
                r <= pic_size + 1,
        ;
        assert(dx * dx <= r * r) by (nonlinear_arith)
            requires
                0 <= dx <= r,
        ;
    }
    let d2 = r * r - dx * dx;
    let s = sqr_root(d2);
    if upper {
        c + s
    } else {
        c - s
    }
}

/// Draws a release point on the ring of radius `release_distance` and marks
/// it in the start trace. `x` is drawn from `[c - r, c + r)`, then a fair
/// coin picks the lower or the upper half of the ring.
pub fn release_particle(start_trace: &mut Grid, release_distance: usize, rng: &mut StdRng) -> (r: (
    usize,
    usize,
))
    requires
        old(start_trace).wf(),
        1 <= release_distance <= center(old(start_trace).pic_size as int),
    ensures
        final(start_trace).wf(),
        final(start_trace).pic_size == old(start_trace).pic_size,
        valid_release_x(old(start_trace).pic_size as int, release_distance as int, r.0 as int),
        r.1 == release_height(
            old(start_trace).pic_size as int,
            release_distance as int,
            r.0 as int,
            false,
        ) || r.1 == release_height(
            old(start_trace).pic_size as int,
            release_distance as int,
            r.0 as int,
            true,
        ),
        in_grid(old(start_trace).pic_size as int, r.0 as int, r.1 as int),
        final(start_trace).cells@ == old(start_trace).cells@.update(
            cell_index(old(start_trace).pic_size as int, r.0 as int, r.1 as int),
            FROZEN,
        ),
{
    let p = start_trace.pic_size;
    let c = p / 2;
    let x = next_uniform_int(rng, c - release_distance, c + release_distance);
    let coin = next_uniform_int(rng, 0, 2);
    let y = release_y(p, release_distance, x, coin != 0);
    start_trace.set(x, y, FROZEN);
    (x, y)
}

} // verus!
