use blended_mpm_core::lattice::Cell;
use blended_mpm_core::sort::{inverse_permutation, permute, sort_order};
use blended_mpm_core::state::State;

#[test]
fn sort_order_is_stable_by_cell() {
    let keys: Vec<Cell> = vec![(1, 0, 0), (0, 0, 0), (1, 0, 0), (0, 1, 0)];
    assert_eq!(sort_order(&keys), vec![1, 3, 0, 2]);
}

#[test]
fn sort_order_orders_axes_lexicographically() {
    let keys: Vec<Cell> = vec![(0, 0, 5), (0, 2, -1), (-3, 9, 9), (0, 0, -5)];
    assert_eq!(sort_order(&keys), vec![2, 3, 0, 1]);
}

#[test]
fn sort_order_of_nothing_is_empty() {
    let keys: Vec<Cell> = Vec::new();
    assert!(sort_order(&keys).is_empty());
}

#[test]
fn permute_gathers_through_the_permutation() {
    let v = vec![10.5f64, 20.5, 30.5];
    assert_eq!(permute(&vec![2, 0, 1], &v), Some(vec![30.5, 10.5, 20.5]));
}

#[test]
fn permute_rejects_mismatched_lengths() {
    let v = vec![1u32, 2, 3];
    assert_eq!(permute(&vec![0, 1], &v), None);
}

#[test]
fn permute_rejects_an_index_out_of_range() {
    let v = vec![1u32, 2, 3];
    assert_eq!(permute(&vec![0, 3, 1], &v), None);
}

#[test]
fn inverse_permutation_inverts() {
    assert_eq!(inverse_permutation(&vec![2, 0, 1]), vec![1, 2, 0]);
}

#[test]
fn state_sort_keeps_reverse_sort_map_inverse() {
    let mut state = State::new(5, 0);
    let keys: Vec<Cell> = vec![(3, 0, 0), (1, 0, 0), (2, 0, 0), (0, 0, 0), (1, 0, 0)];
    let order = state.sort(&keys).unwrap();
    assert_eq!(order, vec![3, 1, 4, 2, 0]);
    assert_eq!(state.sort_map, vec![3, 1, 4, 2, 0]);
    for i in 0..5 {
        assert_eq!(state.reverse_sort_map[state.sort_map[i]], i);
    }
    // A second sort composes with the first.
    let keys: Vec<Cell> = vec![(9, 0, 0), (0, 0, 0), (0, 0, 0), (5, 0, 0), (0, 0, 0)];
    let order = state.sort(&keys).unwrap();
    assert_eq!(order, vec![1, 2, 4, 3, 0]);
    assert_eq!(state.sort_map, vec![1, 4, 0, 2, 3]);
    for i in 0..5 {
        assert_eq!(state.reverse_sort_map[state.sort_map[i]], i);
    }
}

#[test]
fn particles_in_the_same_cell_end_up_adjacent() {
    let mut state = State::new(4, 0);
    let keys: Vec<Cell> = vec![(2, 2, 2), (0, 0, 0), (5, 5, 5), (2, 2, 2)];
    let order = state.sort(&keys).unwrap();
    let a = order.iter().position(|&p| p == 0).unwrap();
    let b = order.iter().position(|&p| p == 3).unwrap();
    assert_eq!(b, a + 1);
}

#[test]
fn state_sort_rejects_wrong_key_count() {
    let mut state = State::new(3, 0);
    let keys: Vec<Cell> = vec![(0, 0, 0)];
    assert!(state.sort(&keys).is_none());
    assert_eq!(state.sort_map, vec![0, 1, 2]);
    assert_eq!(state.reverse_sort_map, vec![0, 1, 2]);
}
