use dla::{
    freeze, let_particle_wander, release_particle, release_y, simulate, sqr_root, step_particle,
    update_release_distance, Config, Grid, Simulation, FROZEN,
};
use rand::rngs::StdRng;
use rand::SeedableRng;

const CAP: usize = 100_000_000;

fn frozen_count(g: &Grid) -> usize {
    g.cells.iter().filter(|v| **v == FROZEN).count()
}

fn neighbours(x: usize, y: usize) -> [(usize, usize); 4] {
    [(x + 1, y), (x - 1, y), (x, y + 1), (x, y - 1)]
}

#[test]
fn sqr_root_exact_values() {
    let cases: [(usize, usize); 10] = [
        (0, 0),
        (1, 1),
        (2, 2),
        (3, 2),
        (4, 2),
        (5, 3),
        (9, 3),
        (10, 4),
        (16, 4),
        (17, 5),
    ];
    for (n, k) in cases {
        assert_eq!(sqr_root(n), k, "sqr_root({})", n);
    }
    assert_eq!(sqr_root(20000), 142);
}

#[test]
fn sqr_root_of_square_is_base() {
    for k in 1usize..2000 {
        assert_eq!(sqr_root(k * k), k);
    }
}

#[test]
fn sqr_root_is_least_root() {
    for n in 0usize..5000 {
        let k = sqr_root(n);
        assert!(k * k >= n);
        assert!(k == 0 || (k - 1) * (k - 1) < n);
    }
}

#[test]
fn grid_starts_empty() {
    let g = Grid::new(10);
    assert_eq!(g.side(), 11);
    assert_eq!(g.cells.len(), 121);
    assert!(g.cells.iter().all(|v| *v == 0));
}

#[test]
fn grid_set_and_bump_address_one_cell() {
    let mut g = Grid::new(10);
    g.set(10, 10, 7);
    g.bump(0, 10);
    assert_eq!(g.get(10, 10), 7);
    assert_eq!(g.get(0, 10), 1);
    assert_eq!(g.cells[10 + 10 * 11], 7);
    assert_eq!(g.cells.iter().filter(|v| **v != 0).count(), 2);
}

#[test]
fn bump_saturates() {
    let mut g = Grid::new(4);
    g.set(2, 2, 255);
    g.bump(2, 2);
    assert_eq!(g.get(2, 2), 255);
    g.set(1, 1, FROZEN);
    g.bump(1, 1);
    assert_eq!(g.get(1, 1), 251);
}

#[test]
fn step_moves_one_cell_in_each_direction() {
    assert_eq!(step_particle(10, (5, 5), 0), (4, 5));
    assert_eq!(step_particle(10, (5, 5), 1), (6, 5));
    assert_eq!(step_particle(10, (5, 5), 2), (5, 4));
    assert_eq!(step_particle(10, (5, 5), 3), (5, 6));
}

#[test]
fn step_off_the_grid_is_not_made() {
    assert_eq!(step_particle(10, (0, 0), 0), (0, 0));
    assert_eq!(step_particle(10, (0, 0), 2), (0, 0));
    assert_eq!(step_particle(10, (10, 10), 1), (10, 10));
    assert_eq!(step_particle(10, (10, 10), 3), (10, 10));
    assert_eq!(step_particle(10, (0, 10), 1), (1, 10));
}

#[test]
fn freeze_interior_sets_halo() {
    let mut g = Grid::new(10);
    g.set(4, 5, 3);
    freeze(&mut g, 5, 5);
    assert_eq!(g.get(5, 5), FROZEN);
    assert_eq!(g.get(4, 5), 4);
    assert_eq!(g.get(6, 5), 1);
    assert_eq!(g.get(5, 4), 1);
    assert_eq!(g.get(5, 6), 1);
    assert_eq!(g.cells.iter().filter(|v| **v != 0).count(), 5);
}

#[test]
fn freeze_next_to_frozen_cell_raises_it() {
    let mut g = Grid::new(10);
    freeze(&mut g, 5, 5);
    freeze(&mut g, 6, 5);
    assert_eq!(g.get(6, 5), FROZEN);
    assert_eq!(g.get(5, 5), FROZEN + 1);
}

#[test]
fn freeze_on_border_changes_nothing() {
    let mut g = Grid::new(10);
    freeze(&mut g, 0, 5);
    freeze(&mut g, 5, 10);
    freeze(&mut g, 10, 0);
    assert!(g.cells.iter().all(|v| *v == 0));
}

#[test]
fn release_y_on_ring() {
    // pic_size 10: centre 5, radius 3
    assert_eq!(release_y(10, 3, 5, true), 8);
    assert_eq!(release_y(10, 3, 5, false), 2);
    assert_eq!(release_y(10, 3, 2, true), 5);
    assert_eq!(release_y(10, 3, 2, false), 5);
    assert_eq!(release_y(10, 3, 3, true), 8);
    assert_eq!(release_y(10, 3, 4, false), 2);
    assert_eq!(release_y(10, 3, 7, true), 8);
    // pic_size 200: centre 100, radius 20, dx 12: 400 - 144 = 256
    assert_eq!(release_y(200, 20, 88, true), 116);
    assert_eq!(release_y(200, 20, 112, false), 84);
}

#[test]
fn release_points_lie_near_the_ring() {
    let mut rng = StdRng::seed_from_u64(11);
    for r in [1usize, 2, 20, 99, 100] {
        let mut start = Grid::new(200);
        let c = 100i64;
        let mut xs = std::collections::BTreeSet::new();
        let (mut lower, mut upper) = (false, false);
        for _ in 0..400 {
            let (x, y) = release_particle(&mut start, r, &mut rng);
            let (xi, yi, ri) = (x as i64, y as i64, r as i64);
            assert!(c - ri <= xi && xi < c + ri);
            let dx2 = (xi - c) * (xi - c);
            let dy = (yi - c).abs();
            assert!(dx2 + dy * dy >= ri * ri);
            assert!(dy == 0 || dx2 + (dy - 1) * (dy - 1) < ri * ri);
            assert_eq!(start.get(x, y), FROZEN);
            xs.insert(x);
            if yi < c {
                lower = true;
            }
            if yi > c {
                upper = true;
            }
        }
        if r <= 2 {
            assert_eq!(xs.len(), 2 * r);
        } else {
            assert!(xs.len() > r);
        }
        if r > 1 {
            assert!(lower && upper);
        }
    }
}

#[test]
fn radius_grows_when_particle_ends_outside() {
    assert_eq!(update_release_distance(200, 20, (100, 150)), 21);
    assert_eq!(update_release_distance(200, 20, (100, 121)), 21);
    assert_eq!(update_release_distance(200, 20, (0, 0)), 21);
    assert_eq!(update_release_distance(200, 20, (88, 117)), 21);
    assert_eq!(update_release_distance(200, 20, (88, 116)), 20);
}

#[test]
fn radius_kept_when_particle_ends_inside() {
    assert_eq!(update_release_distance(200, 20, (100, 120)), 20);
    assert_eq!(update_release_distance(200, 20, (100, 110)), 20);
    assert_eq!(update_release_distance(200, 20, (100, 100)), 20);
    assert_eq!(update_release_distance(200, 20, (112, 84)), 20);
}

#[test]
fn radius_stops_below_centre_minus_one() {
    assert_eq!(update_release_distance(200, 98, (0, 0)), 99);
    assert_eq!(update_release_distance(200, 99, (0, 0)), 99);
    assert_eq!(update_release_distance(200, 100, (0, 0)), 100);
    assert_eq!(update_release_distance(10, 3, (0, 0)), 4);
    assert_eq!(update_release_distance(10, 4, (0, 0)), 4);
}

#[test]
fn new_simulation_has_seed_only() {
    let s = Simulation::new(200, 20);
    assert_eq!(s.release_distance, 20);
    assert_eq!(s.occupancy.get(100, 100), FROZEN);
    assert_eq!(frozen_count(&s.occupancy), 1);
    assert_eq!(s.occupancy.cells.iter().filter(|v| **v != 0).count(), 1);
    assert!(s.start_trace.cells.iter().all(|v| *v == 0));
    assert!(s.wander_trace.cells.iter().all(|v| *v == 0));
}

fn seeded_grid() -> Grid {
    let mut occupancy = Grid::new(10);
    occupancy.set(5, 5, FROZEN);
    for (x, y) in neighbours(5, 5) {
        occupancy.set(x, y, 1);
    }
    occupancy
}

#[test]
fn particle_released_near_seed_freezes_beside_it() {
    for r in 1usize..=4 {
        for seed in 0u64..10 {
            let mut rng = StdRng::seed_from_u64(seed);
            let mut occupancy = seeded_grid();
            let before = occupancy.cells.clone();
            let mut wander = Grid::new(10);
            let (x, y) = let_particle_wander(&mut occupancy, &mut wander, (5, 5 + r), &mut rng, CAP);
            assert_eq!(x.abs_diff(5) + y.abs_diff(5), 1, "end ({}, {})", x, y);
            assert_eq!(occupancy.get(x, y), FROZEN);
            assert_eq!(occupancy.get(5, 5), FROZEN + 1);
            for (nx, ny) in neighbours(x, y) {
                assert_eq!(occupancy.get(nx, ny), before[nx + ny * 11] + 1);
            }
            assert_eq!(frozen_count(&occupancy), 1);
        }
    }
}

#[test]
fn walk_from_touching_cell_does_not_move() {
    let mut rng = StdRng::seed_from_u64(3);
    let mut occupancy = seeded_grid();
    let mut wander = Grid::new(10);
    let end = let_particle_wander(&mut occupancy, &mut wander, (5, 6), &mut rng, CAP);
    assert_eq!(end, (5, 6));
    assert!(wander.cells.iter().all(|v| *v == 0));
    assert_eq!(occupancy.get(5, 6), FROZEN);
    assert_eq!(occupancy.get(5, 5), FROZEN + 1);
    assert_eq!(occupancy.get(5, 7), 1);
    assert_eq!(occupancy.get(4, 6), 1);
}

#[test]
fn walk_from_frozen_cell_stops_at_once() {
    let mut rng = StdRng::seed_from_u64(6);
    let mut occupancy = seeded_grid();
    let mut wander = Grid::new(10);
    let end = let_particle_wander(&mut occupancy, &mut wander, (5, 5), &mut rng, CAP);
    assert_eq!(end, (5, 5));
    assert!(wander.cells.iter().all(|v| *v == 0));
    assert_eq!(occupancy.get(5, 5), FROZEN);
    for (x, y) in neighbours(5, 5) {
        assert_eq!(occupancy.get(x, y), 2);
    }
}

#[test]
fn raised_frozen_cell_still_holds_particles() {
    let mut rng = StdRng::seed_from_u64(7);
    let mut occupancy = Grid::new(10);
    occupancy.set(5, 5, FROZEN + 3);
    let mut wander = Grid::new(10);
    let end = let_particle_wander(&mut occupancy, &mut wander, (5, 9), &mut rng, CAP);
    assert_eq!(end.0.abs_diff(5) + end.1.abs_diff(5), 1);
    assert_eq!(occupancy.get(end.0, end.1), FROZEN);
    assert_eq!(occupancy.get(5, 5), FROZEN + 4);
}

#[test]
fn cluster_grows_over_many_particles() {
    let config = Config {
        particle_count: 40,
        pic_size: 60,
        initial_radius: 5,
    };
    let mut rng = StdRng::seed_from_u64(12);
    let s = simulate(&config, &mut rng, CAP);
    let cluster = s.occupancy.cells.iter().filter(|v| **v >= FROZEN).count();
    assert!(cluster >= 2 && cluster <= 41);
    assert!(s.occupancy.get(30, 30) >= FROZEN);
}

#[test]
fn halo_cell_without_frozen_neighbour_does_not_stop_walk() {
    let mut rng = StdRng::seed_from_u64(4);
    let mut occupancy = Grid::new(10);
    occupancy.set(5, 5, FROZEN);
    occupancy.set(2, 2, 7);
    let mut wander = Grid::new(10);
    let end = let_particle_wander(&mut occupancy, &mut wander, (2, 2), &mut rng, CAP);
    assert_ne!(end, (2, 2));
    assert_eq!(end.0.abs_diff(5) + end.1.abs_diff(5), 1);
    assert_eq!(occupancy.get(2, 2), 7);
}

#[test]
fn walk_cap_leaves_occupancy_alone() {
    let mut rng = StdRng::seed_from_u64(5);
    let mut occupancy = Grid::new(10);
    occupancy.set(5, 5, FROZEN);
    let mut wander = Grid::new(10);
    let end = let_particle_wander(&mut occupancy, &mut wander, (0, 0), &mut rng, 0);
    assert_eq!(end, (0, 0));
    assert_eq!(frozen_count(&occupancy), 1);
    assert_eq!(occupancy.cells.iter().filter(|v| **v != 0).count(), 1);
    let end = let_particle_wander(&mut occupancy, &mut wander, (0, 0), &mut rng, 3);
    assert!(end.0 + end.1 <= 3);
    assert_eq!(occupancy.cells.iter().filter(|v| **v != 0).count(), 1);
}

fn trace_is_one_path(wander: &Grid, start: (usize, usize), end: (usize, usize)) -> bool {
    let p = wander.pic_size;
    let side = p + 1;
    let marked = |x: usize, y: usize| wander.get(x, y) == FROZEN;
    if !marked(end.0, end.1) {
        return false;
    }
    let mut seen = vec![false; side * side];
    let mut stack = vec![end];
    seen[end.0 + end.1 * side] = true;
    while let Some((x, y)) = stack.pop() {
        let mut next = Vec::new();
        if x > 0 {
            next.push((x - 1, y));
        }
        if x < p {
            next.push((x + 1, y));
        }
        if y > 0 {
            next.push((x, y - 1));
        }
        if y < p {
            next.push((x, y + 1));
        }
        for (nx, ny) in next {
            if marked(nx, ny) && !seen[nx + ny * side] {
                seen[nx + ny * side] = true;
                stack.push((nx, ny));
            }
        }
    }
    let all_reached = (0..side * side).all(|i| wander.cells[i] != FROZEN || seen[i]);
    let (sx, sy) = start;
    let start_touches = seen[sx + sy * side]
        || (sx > 0 && seen[sx - 1 + sy * side])
        || (sx < p && seen[sx + 1 + sy * side])
        || (sy > 0 && seen[sx + (sy - 1) * side])
        || (sy < p && seen[sx + (sy + 1) * side]);
    all_reached && start_touches
}

#[test]
fn one_cycle_leaves_one_connected_trace() {
    let mut rng = StdRng::seed_from_u64(2024);
    let mut s = Simulation::new(200, 20);
    let end = s.run_cycle(&mut rng, CAP);
    let start = s
        .start_trace
        .cells
        .iter()
        .position(|v| *v == FROZEN)
        .map(|i| (i % 201, i / 201))
        .unwrap();
    assert_eq!(frozen_count(&s.start_trace), 1);
    assert_ne!(end, (100, 100));
    assert_eq!(end.0.abs_diff(100) + end.1.abs_diff(100), 1);
    assert_eq!(s.occupancy.get(end.0, end.1), FROZEN);
    assert_eq!(s.occupancy.get(100, 100), FROZEN + 1);
    assert_eq!(s.occupancy.cells.iter().filter(|v| **v >= FROZEN).count(), 2);
    for (x, y) in neighbours(end.0, end.1) {
        assert!(s.occupancy.get(x, y) >= 1);
    }
    assert!(trace_is_one_path(&s.wander_trace, start, end));
    assert_eq!(s.release_distance, 20);
}

#[test]
fn radius_never_shrinks_over_a_run() {
    let mut rng = StdRng::seed_from_u64(8);
    let mut s = Simulation::new(40, 1);
    let mut last = s.release_distance;
    for _ in 0..30 {
        s.run_cycle(&mut rng, CAP);
        assert!(s.release_distance >= last);
        assert!(s.release_distance <= last + 1);
        assert!(s.release_distance <= 19);
        last = s.release_distance;
    }
}

#[test]
fn marked_cells_stay_marked() {
    let mut rng = StdRng::seed_from_u64(99);
    let mut s = Simulation::new(30, 5);
    for _ in 0..15 {
        let before = s.occupancy.cells.clone();
        s.run_cycle(&mut rng, CAP);
        for (a, b) in before.iter().zip(s.occupancy.cells.iter()) {
            assert!(*a == 0 || *b != 0);
            assert!(*a < FROZEN || *b >= FROZEN);
        }
    }
    assert!(s.occupancy.get(15, 15) >= FROZEN);
}

#[test]
fn seeded_runs_are_identical() {
    let config = Config {
        particle_count: 12,
        pic_size: 40,
        initial_radius: 8,
    };
    let mut rng_a = StdRng::seed_from_u64(77);
    let mut rng_b = StdRng::seed_from_u64(77);
    let a = simulate(&config, &mut rng_a, CAP);
    let b = simulate(&config, &mut rng_b, CAP);
    assert_eq!(a.occupancy.cells, b.occupancy.cells);
    assert_eq!(a.start_trace.cells, b.start_trace.cells);
    assert_eq!(a.wander_trace.cells, b.wander_trace.cells);
    assert_eq!(a.release_distance, b.release_distance);
    assert_eq!(frozen_count(&a.start_trace) >= 1, true);
}
