//! Diffusion-limited aggregation on a square lattice.
//!
//! Particles are released from a ring around the cluster's centre, walk at
//! random until they stand on or beside a frozen cell, and freeze there. The
//! release radius grows with the cluster.
//!
//! Choices made here:
//! - cells are addressed with stride `pic_size + 1`, the side of the grid,
//!   so no edge row or column aliases another;
//! - halo increments saturate at 255;
//! - a walk makes at most a caller-chosen number of moves (`usize::MAX`
//!   leaves it practically unbounded);
//! - randomness comes from a caller-owned `StdRng`, so runs from equally
//!   seeded sources are identical.

mod grid;
mod isqrt;
mod radius;
mod random;
mod release;
mod sim;
mod walk;

pub use grid::{cell_index, halo_inc, in_grid, lemma_cell_index, Grid, FROZEN};
pub use isqrt::{
    ceil_sqrt, is_ceil_sqrt, lemma_ceil_sqrt_exists, lemma_ceil_sqrt_minimal,
    lemma_ceil_sqrt_of_square, sqr_root,
};
pub use radius::{lemma_next_radius_bounds, next_radius, update_release_distance};
pub use release::{
    center, lemma_release_point_near_circle, release_height, release_particle, release_y,
    valid_release_x,
};
pub use sim::{
    is_cycle, is_initial, is_run, keeps_marks, lemma_settle_keeps_marks, released_from, simulate,
    Config, Simulation,
};
pub use walk::{
    bump_at, cell_at, freeze, is_frozen, is_walk, lemma_step_adjacent, lemma_touch_beside_seed,
    lemma_walk_ends_beside_seed, let_particle_wander, mark_path,
    one_step, settle, step, step_particle, touches, touches_cluster,
};
