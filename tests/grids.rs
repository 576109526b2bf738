use blended_mpm_core::grid::SparseGrid;
use blended_mpm_core::lattice::{stencil, stencil_cell, Cell, STENCIL_SIZE};
use blended_mpm_core::state::State;
use blended_mpm_core::task::Task;

fn no_claims(n: usize) -> Vec<Vec<Option<usize>>> {
    vec![vec![None; STENCIL_SIZE]; n]
}

fn slots_are_contiguous(grid: &SparseGrid) {
    let n = grid.len();
    let mut seen = vec![false; n];
    for s in 0..n {
        let c = grid.index.cells[s];
        assert_eq!(grid.find(c), Some(s));
        assert!(!seen[s]);
        seen[s] = true;
    }
    assert!(seen.iter().all(|&b| b));
}

#[test]
fn stencil_covers_three_nodes_per_axis() {
    let cells = stencil((-1, 4, 7));
    assert_eq!(cells.len(), 27);
    assert_eq!(cells[0], (-1, 4, 7));
    assert_eq!(cells[1], (-1, 4, 8));
    assert_eq!(cells[3], (-1, 5, 7));
    assert_eq!(cells[9], (0, 4, 7));
    assert_eq!(cells[26], (1, 6, 9));
    assert_eq!(stencil_cell((-1, 4, 7), 13), (0, 5, 8));
    for i in 0..27 {
        for j in 0..i {
            assert_ne!(cells[i], cells[j]);
        }
    }
}

#[test]
fn rebuild_adds_stencil_nodes_with_their_contributors() {
    let mut state = State::new(2, 0);
    let shifts: Vec<Cell> = vec![(0, 0, 0), (1, 0, 0)];
    state.update_momentum_maps(&shifts, &no_claims(2));
    let grid = &state.grid_momentum;
    // Two stencils overlapping in two x-layers: 27 + 9 nodes.
    assert_eq!(grid.len(), 36);
    slots_are_contiguous(grid);
    let shared = grid.find((1, 1, 1)).unwrap();
    assert_eq!(grid.contributors[shared], vec![0, 1]);
    let first_only = grid.find((0, 0, 0)).unwrap();
    assert_eq!(grid.contributors[first_only], vec![0]);
    let second_only = grid.find((3, 2, 2)).unwrap();
    assert_eq!(grid.contributors[second_only], vec![1]);
    assert_eq!(grid.find((4, 0, 0)), None);
}

#[test]
fn rebuild_routes_claimed_nodes_to_the_collider_grid() {
    let mut state = State::new(1, 2);
    let shifts: Vec<Cell> = vec![(0, 0, 0)];
    let mut claims = no_claims(1);
    claims[0][0] = Some(1);
    claims[0][26] = Some(0);
    state.update_momentum_maps(&shifts, &claims);
    assert_eq!(state.grid_momentum.len(), 25);
    assert_eq!(state.grid_momentum.find((0, 0, 0)), None);
    assert_eq!(state.grid_momentum.find((2, 2, 2)), None);
    let c1 = &state.grid_collider_momentums[1];
    assert_eq!(c1.len(), 1);
    assert_eq!(c1.find((0, 0, 0)), Some(0));
    assert_eq!(c1.contributors[0], vec![0]);
    let c0 = &state.grid_collider_momentums[0];
    assert_eq!(c0.len(), 1);
    assert_eq!(c0.find((2, 2, 2)), Some(0));
    slots_are_contiguous(&state.grid_momentum);
}

#[test]
fn rebuild_prunes_nodes_left_without_contributors() {
    let mut state = State::new(1, 0);
    state.update_momentum_maps(&vec![(0, 0, 0)], &no_claims(1));
    assert_eq!(state.grid_momentum.len(), 27);
    // The particle moves one node along x: the old nodes that it left still
    // had contributors, so they stay for one more rebuild, with none now.
    state.update_momentum_maps(&vec![(1, 0, 0)], &no_claims(1));
    assert_eq!(state.grid_momentum.len(), 36);
    let left = state.grid_momentum.find((0, 0, 0)).unwrap();
    assert!(state.grid_momentum.contributors[left].is_empty());
    slots_are_contiguous(&state.grid_momentum);
    // The next rebuild drops them.
    state.update_momentum_maps(&vec![(1, 0, 0)], &no_claims(1));
    assert_eq!(state.grid_momentum.len(), 27);
    assert_eq!(state.grid_momentum.find((0, 0, 0)), None);
    slots_are_contiguous(&state.grid_momentum);
}

#[test]
fn rebuild_with_no_particles_empties_a_fresh_grid() {
    let mut state = State::new(0, 1);
    state.update_momentum_maps(&Vec::new(), &Vec::new());
    assert_eq!(state.grid_momentum.len(), 0);
    assert_eq!(state.grid_collider_momentums[0].len(), 0);
}

#[test]
fn task_holds_its_sub_tasks() {
    let step = Task {
        name: "step".to_string(),
        completed_steps: 1,
        steps_to_completion: 4,
        sub_tasks: Vec::new(),
    };
    let frame = Task {
        name: "frame".to_string(),
        completed_steps: 0,
        steps_to_completion: 10,
        sub_tasks: vec![step],
    };
    assert_eq!(frame.sub_tasks.len(), 1);
    assert_eq!(frame.sub_tasks[0].steps_to_completion, 4);
}
