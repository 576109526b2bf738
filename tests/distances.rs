use blended_mpm_core::distances::{Splat, WeightedDistance};
use blended_mpm_core::lattice::{Cell, STENCIL_SIZE};
use blended_mpm_core::state::State;

fn record(state: &State, c: Cell, k: usize) -> Option<WeightedDistance> {
    let field = &state.grid_collider_distances;
    let s = field.find(c).unwrap();
    field.nodes[s].records[k]
}

#[test]
fn scatter_creates_entries_for_every_sample_stencil() {
    let mut state = State::new(0, 2);
    let samples: Vec<Vec<Cell>> = vec![vec![(0, 0, 0), (0, 0, 1)], vec![(10, 0, 0)]];
    state.scatter_collider_distances(&samples, &Vec::new());
    // 27 + 9 nodes for the first collider, 27 for the second.
    assert_eq!(state.grid_collider_distances.index.len(), 63);
    assert_eq!(record(&state, (0, 0, 0), 0), None);
    assert_eq!(record(&state, (12, 2, 2), 1), None);
    assert_eq!(state.grid_collider_distances.find((5, 0, 0)), None);
}

#[test]
fn scatter_keeps_the_nearest_disk() {
    let mut state = State::new(0, 1);
    let samples: Vec<Vec<Cell>> = vec![vec![(0, 0, 0), (0, 0, 1)]];
    // Node (0, 0, 1) is offset 1 of sample 0 and offset 0 of sample 1.
    let splats = vec![
        Splat { collider: 0, sample: 0, offset: 1, magnitude: 50 },
        Splat { collider: 0, sample: 1, offset: 0, magnitude: 30 },
        Splat { collider: 0, sample: 0, offset: 1, magnitude: 40 },
        Splat { collider: 0, sample: 1, offset: 0, magnitude: 30 },
    ];
    state.scatter_collider_distances(&samples, &splats);
    assert_eq!(
        record(&state, (0, 0, 1), 0),
        Some(WeightedDistance { sample: 1, magnitude: 30 })
    );
    assert_eq!(record(&state, (0, 0, 0), 0), None);
}

#[test]
fn equal_magnitudes_keep_the_first_splat() {
    let mut state = State::new(0, 1);
    let samples: Vec<Vec<Cell>> = vec![vec![(0, 0, 0), (0, 0, 1)]];
    let splats = vec![
        Splat { collider: 0, sample: 1, offset: 0, magnitude: 7 },
        Splat { collider: 0, sample: 0, offset: 1, magnitude: 7 },
    ];
    state.scatter_collider_distances(&samples, &splats);
    assert_eq!(
        record(&state, (0, 0, 1), 0),
        Some(WeightedDistance { sample: 1, magnitude: 7 })
    );
}

#[test]
fn records_are_kept_per_collider() {
    let mut state = State::new(0, 2);
    let samples: Vec<Vec<Cell>> = vec![vec![(0, 0, 0)], vec![(0, 0, 0)]];
    let splats = vec![
        Splat { collider: 0, sample: 0, offset: 4, magnitude: 9 },
        Splat { collider: 1, sample: 0, offset: 4, magnitude: 2 },
    ];
    state.scatter_collider_distances(&samples, &splats);
    assert_eq!(record(&state, (0, 1, 1), 0), Some(WeightedDistance { sample: 0, magnitude: 9 }));
    assert_eq!(record(&state, (0, 1, 1), 1), Some(WeightedDistance { sample: 0, magnitude: 2 }));
}

#[test]
fn a_new_scatter_forgets_old_records_but_keeps_nodes() {
    let mut state = State::new(0, 1);
    let samples: Vec<Vec<Cell>> = vec![vec![(0, 0, 0)]];
    let splats = vec![Splat { collider: 0, sample: 0, offset: 0, magnitude: 1 }];
    state.scatter_collider_distances(&samples, &splats);
    assert!(record(&state, (0, 0, 0), 0).is_some());
    let moved: Vec<Vec<Cell>> = vec![vec![(5, 5, 5)]];
    state.scatter_collider_distances(&moved, &Vec::new());
    assert_eq!(state.grid_collider_distances.index.len(), 54);
    assert_eq!(record(&state, (0, 0, 0), 0), None);
}

#[test]
fn reset_clears_every_record() {
    let mut state = State::new(0, 3);
    let samples: Vec<Vec<Cell>> = vec![vec![(0, 0, 0)], Vec::new(), Vec::new()];
    let splats = vec![Splat { collider: 0, sample: 0, offset: 0, magnitude: 1 }];
    state.scatter_collider_distances(&samples, &splats);
    state.scatter_collider_distances_reset();
    for node in &state.grid_collider_distances.nodes {
        assert_eq!(node.records, vec![None; 3]);
    }
}

#[test]
fn boundary_records_follow_the_distance_field() {
    let mut state = State::new(1, 1);
    let samples: Vec<Vec<Cell>> = vec![vec![(0, 0, 0)]];
    let splats = vec![Splat { collider: 0, sample: 0, offset: 0, magnitude: 4 }];
    state.scatter_collider_distances(&samples, &splats);
    let mut claims = vec![vec![None; STENCIL_SIZE]];
    claims[0][0] = Some(0);
    claims[0][1] = Some(0);
    state.update_momentum_maps(&vec![(-1, -1, -1)], &claims);
    // Neither claimed node lies in the distance field.
    let grid = &state.grid_collider_momentums[0];
    assert_eq!(grid.len(), 2);
    assert_eq!(state.boundary_records(0), None);
    let mut claims = vec![vec![None; STENCIL_SIZE]];
    claims[0][26] = Some(0);
    state.update_momentum_maps(&vec![(-2, -2, -2)], &claims);
    // The two nodes outside the field are still there: the grid fails.
    assert_eq!(state.boundary_records(0), None);
    // Once the field covers them, the records come through.
    let samples: Vec<Vec<Cell>> = vec![vec![(0, 0, 0), (-1, -1, -1)]];
    let splats = vec![Splat { collider: 0, sample: 0, offset: 0, magnitude: 4 }];
    state.scatter_collider_distances(&samples, &splats);
    let grid = &state.grid_collider_momentums[0];
    let records = state.boundary_records(0).unwrap();
    assert_eq!(records.len(), 3);
    let hit = grid.find((0, 0, 0)).unwrap();
    assert_eq!(records[hit], Some(WeightedDistance { sample: 0, magnitude: 4 }));
    let miss = grid.find((-1, -1, 0)).unwrap();
    assert_eq!(records[miss], None);
}

#[test]
fn boundary_records_fail_for_a_node_missing_from_the_field() {
    let mut state = State::new(1, 1);
    let mut claims = vec![vec![None; STENCIL_SIZE]];
    claims[0][13] = Some(0);
    state.update_momentum_maps(&vec![(40, 40, 40)], &claims);
    // The collider grid holds a node that the distance field lacks: a broken
    // invariant, reported for the whole grid.
    assert_eq!(state.boundary_records(0), None);
}

#[test]
fn sorting_samples_renumbers_their_records() {
    let mut state = State::new(0, 2);
    let samples: Vec<Vec<Cell>> = vec![vec![(0, 0, 0), (10, 0, 0), (5, 0, 0)], vec![(0, 0, 0)]];
    let splats = vec![
        Splat { collider: 0, sample: 0, offset: 0, magnitude: 1 },
        Splat { collider: 0, sample: 1, offset: 0, magnitude: 2 },
        Splat { collider: 0, sample: 2, offset: 0, magnitude: 3 },
        Splat { collider: 1, sample: 0, offset: 0, magnitude: 4 },
    ];
    state.scatter_collider_distances(&samples, &splats);
    let keys: Vec<Cell> = vec![(1, 0, 0), (3, 0, 0), (2, 0, 0)];
    let order = state.sort_collider_samples(0, &keys);
    assert_eq!(order, vec![0, 2, 1]);
    // Old sample 1 now stands at position 2, old sample 2 at position 1.
    assert_eq!(record(&state, (10, 0, 0), 0), Some(WeightedDistance { sample: 2, magnitude: 2 }));
    assert_eq!(record(&state, (5, 0, 0), 0), Some(WeightedDistance { sample: 1, magnitude: 3 }));
    assert_eq!(record(&state, (0, 0, 0), 0), Some(WeightedDistance { sample: 0, magnitude: 1 }));
    // The other collider's records are untouched.
    assert_eq!(record(&state, (0, 0, 0), 1), Some(WeightedDistance { sample: 0, magnitude: 4 }));
}
