use mincut::driver::{minimum, MincutDriver, contract_step};
use mincut::multigraph::{edge_key, GraphError, MultiGraph};

fn sorted(mut v: Vec<(u32, u32)>) -> Vec<(u32, u32)> {
    v.sort();
    v
}

fn four_vertex_graph() -> MultiGraph {
    let mut g = MultiGraph::new();
    g.add_edge(1, 2);
    g.add_edge(1, 3);
    g.add_edge(2, 3);
    g.add_edge(2, 4);
    g.add_edge(3, 4);
    g
}

#[test]
fn edge_key_ignores_order() {
    assert_eq!(edge_key(1, 2), edge_key(2, 1));
    assert_eq!(edge_key(9, 4), (4, 9));
    assert_eq!(edge_key(7, 7), (7, 7));
    assert_eq!(edge_key(0, u32::MAX), edge_key(u32::MAX, 0));
}

#[test]
fn add_edge_counts_instances_of_the_pair() {
    let mut g = MultiGraph::new();
    assert_eq!(g.add_edge(1, 2), 1);
    assert_eq!(g.add_edge(2, 1), 2);
    assert_eq!(g.add_edge(1, 3), 1);
    assert_eq!(g.multiplicity(2, 1), 2);
    assert_eq!(g.edge_count(), 3);
    assert_eq!(g.vertex_count(), 3);
    assert_eq!(g.edge_sequence(), vec![(1, 2), (1, 2), (1, 3)]);
    assert_eq!(g.positions_of(2, 1), vec![0, 1]);
}

#[test]
fn create_vertex_is_idempotent() {
    let mut g = MultiGraph::new();
    assert!(g.create_vertex(5));
    assert!(!g.create_vertex(5));
    assert_eq!(g.vertex_count(), 1);
    assert_eq!(g.adjacency(5), Ok(vec![]));
}

#[test]
fn adjacency_of_unknown_vertex_fails() {
    let g = four_vertex_graph();
    assert_eq!(g.adjacency(9), Err(GraphError::UnknownVertex));
}

#[test]
fn contraction_scenario() {
    let mut g = four_vertex_graph();
    assert_eq!(g.vertex_count(), 4);
    assert_eq!(g.adjacency(1), Ok(vec![2, 3]));
    let mut a3 = g.adjacency(3).unwrap();
    a3.sort();
    assert_eq!(a3, vec![1, 2, 4]);
    g.collapse(edge_key(1, 2));
    assert_eq!(g.vertex_count(), 3);
    assert_eq!(sorted(g.edge_sequence()), vec![(1, 3), (1, 3), (1, 4), (3, 4)]);
    g.collapse(edge_key(1, 3));
    assert_eq!(g.vertex_count(), 2);
    assert_eq!(g.edge_sequence(), vec![(1, 4), (1, 4)]);
    assert_eq!(g.multiplicity(4, 1), 2);
    assert_eq!(g.adjacency(2), Err(GraphError::UnknownVertex));
    assert_eq!(g.adjacency(3), Err(GraphError::UnknownVertex));
    assert_eq!(g.adjacency(4), Ok(vec![1, 1]));
}

#[test]
fn delete_middle_instance_reindexes_moved_key() {
    let mut g = four_vertex_graph();
    assert_eq!(g.edge_count(), 5);
    assert_eq!(g.delete_instance_by_index(1), Ok(()));
    assert_eq!(g.edge_sequence(), vec![(1, 2), (3, 4), (2, 3), (2, 4)]);
    assert_eq!(g.positions_of(3, 4), vec![1]);
    assert_eq!(g.positions_of(1, 3), Vec::<usize>::new());
    assert_eq!(g.multiplicity(1, 3), 0);
    for (a, b) in [(1u32, 2u32), (3, 4), (2, 3), (2, 4)] {
        for p in g.positions_of(a, b) {
            assert_eq!(g.edge_at(p), edge_key(a, b));
        }
    }
    assert_eq!(g.adjacency(1), Ok(vec![2]));
    assert_eq!(g.adjacency(3), Ok(vec![2, 4]));
}

#[test]
fn delete_middle_instance_of_parallel_edges() {
    let mut g = MultiGraph::new();
    g.add_edge(1, 2);
    g.add_edge(1, 2);
    g.add_edge(2, 3);
    g.add_edge(1, 2);
    g.add_edge(2, 3);
    assert_eq!(g.delete_instance_by_index(1), Ok(()));
    assert_eq!(g.edge_sequence(), vec![(1, 2), (2, 3), (2, 3), (1, 2)]);
    let mut p12 = g.positions_of(1, 2);
    p12.sort();
    assert_eq!(p12, vec![0, 3]);
    let mut p23 = g.positions_of(2, 3);
    p23.sort();
    assert_eq!(p23, vec![1, 2]);
    assert_eq!(g.multiplicity(1, 2), 2);
}

#[test]
fn delete_out_of_range_fails() {
    let mut g = four_vertex_graph();
    assert_eq!(g.delete_instance_by_index(5), Err(GraphError::IndexOutOfRange));
    assert_eq!(g.edge_count(), 5);
}

#[test]
fn delete_then_readd_restores_multiplicity() {
    let mut g = four_vertex_graph();
    g.add_edge(3, 2);
    assert_eq!(g.multiplicity(2, 3), 2);
    let (a, b) = g.edge_at(2);
    assert_eq!(g.delete_instance_by_index(2), Ok(()));
    assert_eq!(g.multiplicity(a, b), 1);
    g.add_edge(a, b);
    assert_eq!(g.multiplicity(2, 3), 2);
    assert_eq!(g.multiplicity(1, 2), 1);
    assert_eq!(g.edge_count(), 6);
}

#[test]
fn delete_one_instance_and_missing_edge() {
    let mut g = four_vertex_graph();
    assert_eq!(g.delete_one_instance(1, 4), Err(GraphError::NoSuchEdge));
    assert_eq!(g.delete_one_instance(3, 1), Ok(()));
    assert_eq!(g.multiplicity(1, 3), 0);
    assert_eq!(g.delete_one_instance(1, 3), Err(GraphError::NoSuchEdge));
    assert_eq!(g.edge_count(), 4);
}

#[test]
fn remove_all_instances_clears_the_pair() {
    let mut g = four_vertex_graph();
    g.add_edge(2, 4);
    g.add_edge(4, 2);
    assert_eq!(g.multiplicity(2, 4), 3);
    assert_eq!(g.remove_all_instances(4, 2), Ok(()));
    assert_eq!(g.multiplicity(2, 4), 0);
    assert_eq!(g.edge_count(), 4);
    assert_eq!(g.remove_all_instances(2, 4), Err(GraphError::NoSuchEdge));
    assert_eq!(g.adjacency(4), Ok(vec![3]));
}

#[test]
fn collapse_keeps_parallel_multiplicity() {
    let mut g = MultiGraph::new();
    g.add_edge(1, 2);
    g.add_edge(2, 3);
    g.add_edge(2, 3);
    g.add_edge(1, 3);
    g.add_edge(2, 2);
    g.collapse(edge_key(1, 2));
    assert_eq!(g.vertex_count(), 2);
    assert_eq!(g.multiplicity(1, 3), 3);
    assert_eq!(g.edge_count(), 3);
}

#[test]
fn duplicate_is_independent() {
    let g = four_vertex_graph();
    let mut h = g.duplicate();
    h.collapse(edge_key(1, 2));
    assert_eq!(g.vertex_count(), 4);
    assert_eq!(g.edge_count(), 5);
    assert_eq!(h.vertex_count(), 3);
}

#[test]
fn minimum_of_candidates() {
    assert_eq!(minimum(&vec![]), None);
    assert_eq!(minimum(&vec![4, 2, 7, 2]), Some(2));
    assert_eq!(minimum(&vec![9]), Some(9));
}

#[test]
fn next_index_follows_the_generator() {
    let mut d = MincutDriver::new(0);
    assert_eq!(d.next_index(10), 3);
    assert_eq!(d.next_index(7), 4);
    assert_eq!(d.next_index(3), 2);
    assert_eq!(d.next_index(1), 0);
}

#[test]
fn contract_step_drops_self_loop() {
    let mut g = MultiGraph::new();
    g.add_edge(1, 1);
    g.add_edge(1, 2);
    g.add_edge(2, 3);
    contract_step(&mut g, 0);
    assert_eq!(g.vertex_count(), 3);
    assert_eq!(g.edge_sequence(), vec![(2, 3), (1, 2)]);
    contract_step(&mut g, 1);
    assert_eq!(g.vertex_count(), 2);
    assert_eq!(g.edge_sequence(), vec![(1, 3)]);
}

#[test]
fn single_trial_never_undercounts() {
    let g = four_vertex_graph();
    for seed in 0..50u64 {
        let mut d = MincutDriver::new(seed);
        let r = d.run(&g, 1).unwrap();
        assert!(r >= 2);
        assert!(r <= 5);
    }
}

#[test]
fn many_trials_find_the_minimum_cut() {
    let g = four_vertex_graph();
    let mut d = MincutDriver::new(12345);
    assert_eq!(d.run(&g, 200), Some(2));
    assert_eq!(d.run(&g, 0), None);
    let results = d.run_trials(&g, 5);
    assert_eq!(results.len(), 5);
}

#[test]
fn contract_on_edgeless_graph_stops() {
    let mut g = MultiGraph::new();
    g.create_vertex(1);
    g.create_vertex(2);
    g.create_vertex(3);
    let mut d = MincutDriver::new(3);
    assert_eq!(d.contract(&mut g), 0);
    assert_eq!(g.vertex_count(), 3);
}

#[test]
fn create_edge_skips_present_pairs() {
    let mut g = MultiGraph::new();
    assert!(g.create_edge(1, 2));
    assert!(!g.create_edge(2, 1));
    assert!(g.create_edge(2, 3));
    assert_eq!(g.edge_count(), 2);
    assert_eq!(g.multiplicity(1, 2), 1);
}

#[test]
fn trial_result_is_a_cut_size() {
    // Two triangles joined by one edge: the minimum cut is 1.
    let mut g = MultiGraph::new();
    for (a, b) in [(1u32, 2u32), (2, 3), (1, 3), (4, 5), (5, 6), (4, 6), (3, 4)] {
        g.add_edge(a, b);
    }
    let cuts = [1usize, 2, 3, 4, 5];
    for seed in 0..30u64 {
        let mut d = MincutDriver::new(seed);
        let r = d.run(&g, 1).unwrap();
        assert!(cuts.contains(&r));
        assert!(r >= 1);
    }
    let mut d = MincutDriver::new(99);
    assert_eq!(d.run(&g, 100), Some(1));
}
