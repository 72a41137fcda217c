use minimal_k_isomorphic_subgraph_extension::approx::{
    apply_extension, approx_solve, calculate_local_cost,
};
use minimal_k_isomorphic_subgraph_extension::cost::{
    calculate_edge_map, calculate_total_cost, EdgeMap,
};
use minimal_k_isomorphic_subgraph_extension::exact::exact_solve;
use minimal_k_isomorphic_subgraph_extension::mapping::find_all_mappings;
use minimal_k_isomorphic_subgraph_extension::utils::num_combinations;
use minimal_k_isomorphic_subgraph_extension::Graph;

fn zero_graph(n: usize) -> Graph {
    Graph::new(n)
}

#[test]
fn test_graph_creation() {
    let g = Graph::new(3);
    assert_eq!(g.num_vertices(), 3);
    assert_eq!(g.get_edge(0, 0), 0);
}

#[test]
fn test_find_mappings() {
    let g = Graph::from_adjacency_matrix(vec![vec![0, 1], vec![0, 0]]);
    let h = Graph::from_adjacency_matrix(vec![vec![0, 0, 0], vec![0, 0, 0], vec![0, 0, 0]]);
    let mappings = find_all_mappings(&g, &h);
    assert_eq!(mappings.len(), 6); // P(3, 2) = 6
}

#[test]
fn test_combinations() {
    assert_eq!(num_combinations(5, 2), 10);
    assert_eq!(num_combinations(4, 4), 1);
    assert_eq!(num_combinations(3, 0), 1);
}

#[test]
fn test_combinations_k_greater_than_n() {
    assert_eq!(num_combinations(3, 5), 0);
    assert_eq!(num_combinations(0, 1), 0);
    assert_eq!(num_combinations(0, 0), 1);
}

#[test]
fn test_enumeration_order_and_count() {
    let g = zero_graph(2);
    let h = zero_graph(3);
    let mappings = find_all_mappings(&g, &h);
    // falling factorial: 3 * 2 = 6 injective mappings, in lexicographic order
    assert_eq!(mappings.len(), 6);
    assert_eq!(mappings[0], vec![0, 1]);
    assert_eq!(mappings[1], vec![0, 2]);
    assert_eq!(mappings[2], vec![1, 0]);
    assert_eq!(mappings[3], vec![1, 2]);
    assert_eq!(mappings[4], vec![2, 0]);
    assert_eq!(mappings[5], vec![2, 1]);
}

#[test]
fn test_enumeration_empty_when_host_too_small() {
    let g = zero_graph(3);
    let h = zero_graph(2);
    assert_eq!(find_all_mappings(&g, &h).len(), 0);
}

#[test]
fn test_edge_map_values_positive_and_total() {
    let g = Graph::from_adjacency_matrix(vec![vec![0, 2], vec![0, 0]]);
    let h = zero_graph(2);
    let mappings = vec![vec![0, 1], vec![1, 0]];
    let em = calculate_edge_map(&g, &h, &mappings);
    for &(_, _, w) in em.entries.iter() {
        assert!(w > 0);
    }
    let manual: usize = em.entries.iter().map(|&(_, _, w)| w).sum();
    assert_eq!(calculate_total_cost(&em), manual);
    assert_eq!(manual, 4);
    assert_eq!(em.get(0, 1), 2);
    assert_eq!(em.get(1, 0), 2);
}

#[test]
fn test_edge_map_combines_by_maximum() {
    // Both mappings demand edges at both host pairs; the deltas combine by
    // maximum, not by sum.
    let g = Graph::from_adjacency_matrix(vec![vec![0, 2], vec![3, 0]]);
    let h = zero_graph(2);
    let mappings = vec![vec![0, 1], vec![1, 0]];
    let em = calculate_edge_map(&g, &h, &mappings);
    assert_eq!(em.get(0, 1), 3);
    assert_eq!(em.get(1, 0), 3);
    assert_eq!(calculate_total_cost(&em), 6);
}

#[test]
fn test_edge_map_satisfied_edges_absent() {
    let g = Graph::from_adjacency_matrix(vec![vec![0, 1], vec![0, 0]]);
    let mut h = zero_graph(2);
    h.adj[0][1] = 1;
    let mappings = vec![vec![0, 1]];
    let em = calculate_edge_map(&g, &h, &mappings);
    assert_eq!(em.entries.len(), 0);
    assert_eq!(calculate_total_cost(&em), 0);
}

#[test]
fn test_edge_map_empty() {
    let em = EdgeMap::new();
    assert_eq!(em.get(0, 0), 0);
    assert_eq!(calculate_total_cost(&em), 0);
}

#[test]
fn test_scenario_single_vertex_pattern() {
    // G is a 1x1 zero matrix: no edges, so any single-vertex mapping costs 0.
    let g = zero_graph(1);
    let h = Graph::from_adjacency_matrix(vec![vec![0, 3], vec![1, 0]]);
    let (cost, em, ms) = exact_solve(&g, &h, 1).unwrap();
    assert_eq!(cost, 0);
    assert_eq!(em.entries.len(), 0);
    assert_eq!(ms.len(), 1);
    assert_eq!(ms[0].len(), 1);
    assert!(ms[0][0] < 2);

    let (acost, aem, ams) = approx_solve(&g, &h, 1, 1).unwrap();
    assert_eq!(acost, 0);
    assert_eq!(aem.entries.len(), 0);
    assert_eq!(ams.len(), 1);
    assert!(ams[0][0] < 2);
}

#[test]
fn test_scenario_one_missing_edge() {
    // G has one edge 0 -> 1; H is empty, so exactly one edge unit is needed.
    let g = Graph::from_adjacency_matrix(vec![vec![0, 1], vec![0, 0]]);
    let h = zero_graph(2);
    let (cost, em, ms) = exact_solve(&g, &h, 1).unwrap();
    assert_eq!(cost, 1);
    assert_eq!(em.entries.len(), 1);
    let m = &ms[0];
    assert_eq!(em.get(m[0], m[1]), 1);
}

#[test]
fn test_scenario_already_satisfied() {
    // H already holds the one edge G needs: a zero-cost mapping exists.
    let g = Graph::from_adjacency_matrix(vec![vec![0, 1], vec![0, 0]]);
    let mut h = zero_graph(2);
    h.adj[0][1] = 1;
    let (cost, em, _ms) = exact_solve(&g, &h, 1).unwrap();
    assert_eq!(cost, 0);
    assert_eq!(em.entries.len(), 0);
}

#[test]
fn test_infeasible_small_host() {
    // Fewer host vertices than pattern vertices: no injective mapping exists.
    let g = zero_graph(3);
    let h = zero_graph(2);
    assert!(exact_solve(&g, &h, 1).is_err());
    assert!(approx_solve(&g, &h, 1, 1).is_err());
}

#[test]
fn test_infeasible_k_too_large() {
    // Only P(2, 2) = 2 distinct mappings exist, so k = 3 is infeasible.
    let g = zero_graph(2);
    let h = zero_graph(2);
    assert!(exact_solve(&g, &h, 3).is_err());
    assert!(approx_solve(&g, &h, 3, 1).is_err());
}

#[test]
fn test_exact_idempotent() {
    // Running the exact solver twice on the same input yields the same cost.
    let g = Graph::from_adjacency_matrix(vec![vec![0, 2], vec![1, 0]]);
    let h = Graph::from_adjacency_matrix(vec![
        vec![0, 1, 0],
        vec![0, 0, 0],
        vec![1, 0, 0],
    ]);
    let (cost1, _, _) = exact_solve(&g, &h, 2).unwrap();
    let (cost2, _, _) = exact_solve(&g, &h, 2).unwrap();
    assert_eq!(cost1, cost2);
}

#[test]
fn test_exact_not_above_approx_for_one_mapping() {
    // For k = 1 the exact optimum never exceeds the heuristic's cost.
    let g = Graph::from_adjacency_matrix(vec![vec![0, 2], vec![0, 0]]);
    let h = Graph::from_adjacency_matrix(vec![vec![0, 1], vec![0, 0]]);
    let (exact_cost, _, _) = exact_solve(&g, &h, 1).unwrap();
    let (approx_cost, _, _) = approx_solve(&g, &h, 1, 1).unwrap();
    assert!(exact_cost <= approx_cost);
    assert_eq!(exact_cost, 1);
}

#[test]
fn test_approx_single_host_vertex() {
    // One pattern vertex, one host vertex: the only trial must map 0 to 0.
    let g = zero_graph(1);
    let h = zero_graph(1);
    let (cost, _, ms) = approx_solve(&g, &h, 1, 1).unwrap();
    assert_eq!(cost, 0);
    assert_eq!(ms, vec![vec![0]]);
}

#[test]
fn test_solver_mappings_are_valid() {
    // Returned mappings are injective, total, in range, and pairwise distinct.
    let g = Graph::from_adjacency_matrix(vec![vec![0, 1], vec![0, 0]]);
    let h = zero_graph(3);
    let (_, _, ms) = exact_solve(&g, &h, 2).unwrap();
    assert_eq!(ms.len(), 2);
    assert_ne!(ms[0], ms[1]);
    for m in &ms {
        assert_eq!(m.len(), 2);
        assert!(m[0] < 3 && m[1] < 3);
        assert_ne!(m[0], m[1]);
    }

    let (_, _, ams) = approx_solve(&g, &h, 2, 1).unwrap();
    assert_eq!(ams.len(), 2);
    assert_ne!(ams[0], ams[1]);
    for m in &ams {
        assert_eq!(m.len(), 2);
        assert!(m[0] < 3 && m[1] < 3);
        assert_ne!(m[0], m[1]);
    }
}

#[test]
fn test_exact_picks_cheapest_combination() {
    // H has room for the pattern edge at (0, 1) only; every other single
    // mapping would need a new edge. The exact solver must find cost 0.
    let g = Graph::from_adjacency_matrix(vec![vec![0, 2], vec![0, 0]]);
    let h = Graph::from_adjacency_matrix(vec![
        vec![0, 2, 0],
        vec![0, 0, 0],
        vec![0, 0, 0],
    ]);
    let (cost, _, ms) = exact_solve(&g, &h, 1).unwrap();
    assert_eq!(cost, 0);
    assert_eq!(ms[0], vec![0, 1]);
}

#[test]
fn test_calculate_local_cost_both_directions() {
    let g = Graph::from_adjacency_matrix(vec![vec![0, 2], vec![1, 0]]);
    let h_prime = zero_graph(2);
    // pattern vertex 1 is already placed on host vertex 1
    let partial: Vec<Option<usize>> = vec![None, Some(1)];
    // placing 0 on 0 leaves deficits 2 (edge 0 -> 1) and 1 (edge 1 -> 0)
    assert_eq!(calculate_local_cost(0, 0, &g, &h_prime, &partial), 3);
}

#[test]
fn test_apply_extension_raises_host() {
    let g = Graph::from_adjacency_matrix(vec![vec![0, 2], vec![0, 0]]);
    let mut h_prime = zero_graph(2);
    let mapping = vec![1, 0];
    apply_extension(&mut h_prime, &g, &mapping);
    assert_eq!(h_prime.get_edge(1, 0), 2);
    assert_eq!(h_prime.get_edge(0, 1), 0);
    // applying the same extension again changes nothing
    apply_extension(&mut h_prime, &g, &mapping);
    assert_eq!(h_prime.get_edge(1, 0), 2);
}

#[test]
fn test_edge_map_insert_and_merge() {
    let mut a = EdgeMap::new();
    a.insert(0, 0, 2);
    let mut b = EdgeMap::new();
    b.insert(0, 0, 1);
    b.insert(1, 1, 3);
    a.merge_max(&b);
    assert_eq!(a.get(0, 0), 2);
    assert_eq!(a.get(1, 1), 3);
    assert_eq!(calculate_total_cost(&a), 5);
    // replacing a key keeps a single entry for it
    a.insert(1, 1, 4);
    assert_eq!(a.get(1, 1), 4);
    assert_eq!(a.entries.len(), 2);
}

#[test]
fn test_approx_zero_trials_fails() {
    // A trials multiplier of zero means no trial ever runs: the heuristic
    // reports failure deterministically.
    let g = zero_graph(1);
    let h = zero_graph(2);
    assert!(approx_solve(&g, &h, 1, 0).is_err());
}

#[test]
fn test_approx_empty_pattern_fails() {
    // A pattern without vertices yields a trial count of zero, so the
    // heuristic reports failure (the exact solver still succeeds: the empty
    // mapping is the one embedding).
    let g = zero_graph(0);
    let h = zero_graph(2);
    assert!(approx_solve(&g, &h, 1, 1).is_err());
    let (cost, _, ms) = exact_solve(&g, &h, 1).unwrap();
    assert_eq!(cost, 0);
    assert_eq!(ms.len(), 1);
    assert_eq!(ms[0].len(), 0);
}
