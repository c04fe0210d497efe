use operation_research::operation_research_algorithms::{
    compute_cost, first_min, generate_cities_matrix, generate_neighbor, reverse_between, second_min,
    tsp_backtrack, tsp_branch_bound, tsp_nearest_neighbor, tsp_two_opt,
};

fn four_cities() -> Vec<Vec<i32>> {
    vec![
        vec![0, 10, 15, 20],
        vec![10, 0, 35, 25],
        vec![15, 35, 0, 30],
        vec![20, 25, 30, 0],
    ]
}

fn five_cities() -> Vec<Vec<i32>> {
    vec![
        vec![0, 3, 9, 4, 7],
        vec![3, 0, 5, 8, 2],
        vec![9, 5, 0, 6, 4],
        vec![4, 8, 6, 0, 5],
        vec![7, 2, 4, 5, 0],
    ]
}

#[test]
fn cost_of_a_walk() {
    let adj = four_cities();
    assert_eq!(compute_cost(&vec![0, 1, 2, 3, 0], &adj), 95);
    assert_eq!(compute_cost(&vec![2], &adj), 0);
    assert_eq!(compute_cost(&vec![3, 1], &adj), 25);
}

#[test]
fn nearest_distances() {
    let adj = four_cities();
    assert_eq!(first_min(&adj, 0), 10);
    assert_eq!(second_min(&adj, 0), 15);
    assert_eq!(first_min(&adj, 1), 10);
    assert_eq!(second_min(&adj, 1), 25);
}

#[test]
fn second_min_with_a_tie() {
    let adj = vec![vec![0, 4, 4], vec![1, 0, 1], vec![2, 2, 0]];
    assert_eq!(first_min(&adj, 0), 4);
    assert_eq!(second_min(&adj, 0), 4);
}

#[test]
fn nearest_distances_of_a_single_city() {
    let adj = vec![vec![0]];
    assert_eq!(first_min(&adj, 0), i32::MAX);
    assert_eq!(second_min(&adj, 0), i32::MAX);
}

#[test]
fn backtracking_finds_the_shortest_round_trip() {
    assert_eq!(tsp_backtrack(&four_cities()), 80);
    assert_eq!(tsp_backtrack(&five_cities()), 19);
}

#[test]
fn backtracking_without_positive_round_trip() {
    let adj = vec![vec![0, 0], vec![0, 0]];
    assert_eq!(tsp_backtrack(&adj), i32::MAX);
}

#[test]
fn nearest_neighbor_tour() {
    assert_eq!(tsp_nearest_neighbor(&four_cities()), (80, vec![0, 1, 3, 2, 0]));
    assert_eq!(tsp_nearest_neighbor(&five_cities()), (19, vec![0, 1, 4, 2, 3, 0]));
}

#[test]
fn nearest_neighbor_single_city() {
    assert_eq!(tsp_nearest_neighbor(&vec![vec![0]]), (0, vec![0, 0]));
}

#[test]
fn two_opt_improves_the_initial_tour() {
    let adj = four_cities();
    assert_eq!(tsp_two_opt(vec![0, 1, 2, 3, 0], &adj), (80, vec![0, 1, 3, 2, 0]));
    assert_eq!(tsp_two_opt(vec![0, 2, 1, 3, 0], &adj), (80, vec![0, 2, 3, 1, 0]));
}

#[test]
fn two_opt_five_cities() {
    let adj = five_cities();
    assert_eq!(tsp_two_opt(vec![0, 1, 2, 3, 4, 0], &adj), (19, vec![0, 3, 2, 4, 1, 0]));
    assert_eq!(tsp_two_opt(vec![0, 2, 4, 1, 3, 0], &adj), (19, vec![0, 1, 4, 2, 3, 0]));
}

#[test]
fn two_opt_keeps_a_short_path() {
    let adj = four_cities();
    assert_eq!(tsp_two_opt(vec![0, 0], &adj), (0, vec![0, 0]));
}

#[test]
fn branch_bound_four_cities() {
    assert_eq!(tsp_branch_bound(&four_cities()), (80, vec![0, 1, 3, 2, 0]));
}

#[test]
fn branch_bound_bound_cuts_the_shortest_trip() {
    // The bound overestimates here, so the shortest round trip (19) is cut off.
    assert_eq!(tsp_branch_bound(&five_cities()), (21, vec![0, 1, 2, 4, 3, 0]));
}

#[test]
fn branch_bound_never_below_backtracking() {
    for adj in [four_cities(), five_cities()] {
        let (bb, _) = tsp_branch_bound(&adj);
        assert!(bb >= tsp_backtrack(&adj));
    }
}

#[test]
fn random_matrix_has_entries_in_range() {
    let m = generate_cities_matrix(7);
    assert_eq!(m.len(), 7);
    for row in &m {
        assert_eq!(row.len(), 7);
        for &v in row {
            assert!((5..50).contains(&v));
        }
    }
    assert!(generate_cities_matrix(0).is_empty());
}

#[test]
fn random_neighbor_reverses_an_inner_segment() {
    let mut rng = rand::rng();
    let path: Vec<usize> = vec![0, 1, 2, 3, 4, 5, 0];
    for _ in 0..200 {
        let next = generate_neighbor(&path, &mut rng);
        assert_eq!(next.len(), path.len());
        assert_eq!(next[0], 0);
        assert_eq!(next[6], 0);
        let mut inner: Vec<usize> = next[1..6].to_vec();
        inner.sort();
        assert_eq!(inner, vec![1, 2, 3, 4, 5]);
        let changed: Vec<usize> = (0..7).filter(|&k| next[k] != path[k]).collect();
        if let (Some(&s), Some(&e)) = (changed.first(), changed.last()) {
            for k in s..=e {
                assert_eq!(next[k], path[s + e - k]);
            }
        }
    }
}

#[test]
fn random_tours_on_random_matrix() {
    let adj = generate_cities_matrix(6);
    let best = tsp_backtrack(&adj);
    let (nn_cost, nn_path) = tsp_nearest_neighbor(&adj);
    assert_eq!(nn_cost, compute_cost(&nn_path, &adj));
    assert!(nn_cost >= best);
    let (opt_cost, opt_path) = tsp_two_opt(nn_path, &adj);
    assert!(opt_cost <= nn_cost);
    assert!(opt_cost >= best);
    assert_eq!(opt_cost, compute_cost(&opt_path, &adj));
}

#[test]
fn two_opt_with_a_long_single_edge() {
    let adj = vec![vec![0, 1_500_000_000], vec![1, 0]];
    assert_eq!(tsp_two_opt(vec![0, 1, 0], &adj), (1_500_000_001, vec![0, 1, 0]));
}

#[test]
fn two_opt_second_run_keeps_the_result() {
    let adj = five_cities();
    let (cost, path) = tsp_two_opt(vec![0, 1, 2, 3, 4, 0], &adj);
    assert_eq!(tsp_two_opt(path.clone(), &adj), (cost, path));
}

#[test]
fn nearest_neighbor_avoids_a_long_edge() {
    let adj = vec![vec![0, 1, 1_000_000_000], vec![1, 0, 1], vec![1, 1, 0]];
    assert_eq!(tsp_nearest_neighbor(&adj), (3, vec![0, 1, 2, 0]));
}

#[test]
fn backtracking_with_a_long_edge() {
    let adj = vec![vec![0, 1_000_000_000, 1], vec![1, 0, 1], vec![1, 1, 0]];
    assert_eq!(tsp_backtrack(&adj), 3);
}

#[test]
fn branch_bound_with_a_long_edge() {
    let adj = vec![vec![0, 300_000_000, 1], vec![1, 0, 1], vec![1, 1, 0]];
    assert_eq!(tsp_branch_bound(&adj), (3, vec![0, 2, 1, 0]));
}

#[test]
fn branch_bound_four_cities_with_a_hub() {
    let adj = vec![
        vec![0, 2, 1, 1],
        vec![2, 0, 10, 10],
        vec![1, 10, 0, 10],
        vec![1, 10, 10, 0],
    ];
    assert_eq!(tsp_branch_bound(&adj), (23, vec![0, 1, 2, 3, 0]));
}

#[test]
fn reverse_between_orders_the_two_positions() {
    let path = vec![0, 1, 2, 3, 4, 0];
    assert_eq!(reverse_between(&path, 1, 3), vec![0, 3, 2, 1, 4, 0]);
    assert_eq!(reverse_between(&path, 4, 2), vec![0, 1, 4, 3, 2, 0]);
    assert_eq!(reverse_between(&path, 2, 2), path);
}

#[test]
fn nearest_neighbor_on_a_graph_with_missing_roads() {
    let m = i32::MAX;
    let adj = vec![vec![0, 1, m], vec![m, 0, 1], vec![1, m, 0]];
    assert_eq!(tsp_nearest_neighbor(&adj), (3, vec![0, 1, 2, 0]));
}
