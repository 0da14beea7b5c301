use mincut::directed::{Graph, Vertex};

fn setup_basic1() -> Graph {
    let mut g = Graph::new();
    assert_eq!(g.add_edge(1, 2), Some(1));
    assert_eq!(g.add_edge(1, 3), Some(2));
    assert_eq!(g.add_edge(2, 3), Some(1));
    assert_eq!(g.add_edge(2, 4), Some(2));
    assert_eq!(g.add_edge(3, 4), Some(1));
    assert_eq!(g.get_outgoing(1), &[2, 3]);
    assert_eq!(g.get_outgoing(2), &[3, 4]);
    assert_eq!(g.get_outgoing(3), &[4]);
    assert_eq!(g.get_outgoing(4), &[]);
    g
}

#[test]
fn basic() {
    let mut g = Graph::new();
    assert_eq!(g.create_vertex(&1), Some(1));
    assert_eq!(g.create_vertex(&2), Some(2));
    assert_eq!(g.add_edge(1, 2), Some(1));
    assert_eq!(g.get_vertexes(), vec!(1, 2));
    assert_eq!(g.create_vertex(&3), Some(3));
    assert_eq!(g.add_edge(1, 3), Some(2));
    assert_eq!(g.add_edge(2, 3), Some(1));
    assert_eq!(g.get_vertexes(), vec!(1, 2, 3));
    assert_eq!(g.add_edge(1, 4), Some(3));
    assert_eq!(g.get_vertexes(), vec!(1, 2, 3, 4));
    println!("{:?}", g);
}

#[test]
fn test_add() {
    let mut g = Graph::new();
    assert_eq!(g.add_edge(1, 2), Some(1));
    assert_eq!(g.get_outgoing(1), &[2]);
    assert_eq!(g.get_incoming(2), &[1]);
    assert_eq!(g.add_edge(1, 3), Some(2));
    assert_eq!(g.get_outgoing(1), &[2, 3]);
    assert_eq!(g.get_incoming(2), &[1]);
}

#[test]
fn test_add_del() {
    let mut g = setup_basic1();
    assert_eq!(g.get_outgoing(1), &[2, 3]);
    assert_eq!(g.add_edge(1, 2), Some(3));
    assert_eq!(g.get_outgoing(1), &[2, 3]);
    assert_eq!(g.get_outgoing(2), &[3, 4]);
    assert_eq!(g.get_outgoing(3), &[4]);
    assert_eq!(g.delete_edge(1, 2), Ok(()));
    assert_eq!(g.get_outgoing(1), &[2, 3]);
    assert_eq!(g.delete_edge(1, 2), Ok(()));
    assert_eq!(g.get_outgoing(1), &[3]);
}

#[test]
fn create_existing_vertex_is_refused() {
    let mut g = Graph::new();
    assert_eq!(g.create_vertex(&7), Some(1));
    assert_eq!(g.create_vertex(&7), None);
    assert_eq!(g.get_vertexes(), vec![7]);
}

#[test]
fn delete_missing_edge_fails() {
    let mut g = setup_basic1();
    assert_eq!(g.delete_edge(1, 4), Err("Invalid Vertex".to_string()));
    assert_eq!(g.delete_edge(4, 1), Err("Invalid Vertex".to_string()));
    assert_eq!(g.get_incoming(4), &[2, 3]);
    assert_eq!(g.delete_edge(2, 4), Ok(()));
    assert_eq!(g.get_incoming(4), &[3]);
}

#[test]
fn incoming_lists_sources_in_order() {
    let mut g = Graph::new();
    g.add_edge(9, 5);
    g.add_edge(3, 5);
    g.add_edge(7, 5);
    g.add_edge(3, 5);
    assert_eq!(g.get_incoming(5), &[3, 7, 9]);
    assert_eq!(g.get_outgoing(5), &[]);
}

#[test]
fn vertex_counters_track_parallel_edges() {
    let mut v = Vertex::new(&4);
    v.add_outgoing(2);
    v.add_outgoing(2);
    v.add_incoming(8);
    assert_eq!(v.outgoing_cnt, 2);
    assert_eq!(v.incoming_cnt, 1);
    assert_eq!(v.del_outgoing(2), Ok(()));
    assert_eq!(v.outgoing_cnt, 1);
    assert_eq!(v.del_outgoing(2), Ok(()));
    assert_eq!(v.del_outgoing(2), Err("Invalid Vertex".to_string()));
    assert_eq!(v.del_incoming(8), Ok(()));
    assert_eq!(v.del_incoming(8), Err("Invalid Vertex".to_string()));
    assert_eq!(v.incoming_cnt, 0);
    assert_eq!(v.vertex_id, 4);
}

fn cycle_with_tail() -> Graph {
    let mut g = Graph::new();
    g.add_edge(1, 2);
    g.add_edge(2, 3);
    g.add_edge(3, 1);
    g.add_edge(3, 4);
    g
}

#[test]
fn dfs_loop_outgoing_finishing_order() {
    let mut g = cycle_with_tail();
    let list = g.get_vertexes();
    g.dfs_loop_outgoing(&list);
    assert_eq!(g.finished_order, vec![4, 3, 2, 1]);
    assert_eq!(g.start_search.get(&1), Some(&vec![1, 2, 3, 4]));
    assert_eq!(g.start_search.len(), 1);
    assert_eq!(g.top_search_counts(), vec![(1, 4)]);
}

#[test]
fn dfs_loop_incoming_finishing_order() {
    let mut g = cycle_with_tail();
    g.dfs_loop_incoming(&vec![4, 3, 2, 1]);
    assert_eq!(g.finished_order, vec![1, 2, 3, 4]);
    assert_eq!(g.start_search.get(&4), Some(&vec![4, 3, 2, 1]));
    g.dfs_loop_incoming(&vec![1, 4]);
    assert_eq!(g.finished_order, vec![2, 3, 1, 4]);
    assert_eq!(g.start_search.get(&1), Some(&vec![1, 3, 2]));
    assert_eq!(g.start_search.get(&4), Some(&vec![4]));
}

#[test]
fn two_pass_search_separates_components() {
    let mut g = cycle_with_tail();
    let list = g.get_vertexes();
    g.dfs_loop_incoming(&list);
    let order: Vec<u32> = g.finished_order.iter().rev().cloned().collect();
    g.dfs_loop_outgoing(&order);
    assert_eq!(g.start_search.len(), 2);
    assert_eq!(g.top_search_counts(), vec![(1, 3), (4, 1)]);
}

#[test]
fn search_entries_keep_the_largest() {
    let mut g = Graph::new();
    for v in 1..=10u32 {
        g.add_search_entry(v, v as usize + 1);
    }
    assert_eq!(g.top_search_counts().len(), 10);
    g.add_search_entry(11, 1);
    let kept: Vec<u32> = g.top_search_counts().iter().map(|e| e.0).collect();
    assert_eq!(kept, (1..=10).collect::<Vec<u32>>());
    g.add_search_entry(12, 50);
    let top = g.top_search_counts();
    assert_eq!(top.len(), 10);
    assert_eq!(top[0], (2, 3));
    assert_eq!(top[9], (12, 50));
    g.add_search_entry(5, 7);
    assert_eq!(g.top_search_counts().len(), 10);
}

#[test]
fn outgoing_counts_and_degrees() {
    let mut g = setup_basic1();
    g.add_edge(1, 3);
    assert_eq!(g.get_outgoing_counts(1), vec![(2, 1), (3, 2)]);
    assert_eq!(g.out_degree(1), 3);
    assert_eq!(g.in_degree(3), 3);
    assert_eq!(g.in_degree(99), 0);
}

#[test]
fn top_counts_sorted_by_size() {
    let mut g = Graph::new();
    g.add_search_entry(3, 5);
    g.add_search_entry(1, 2);
    g.add_search_entry(7, 9);
    g.add_search_entry(4, 5);
    assert_eq!(g.top_search_counts_by_size(), vec![(7, 9), (3, 5), (4, 5), (1, 2)]);
}

#[test]
fn delete_edge_from_unknown_vertex_fails() {
    let mut g = Graph::new();
    assert_eq!(g.delete_edge(5, 6), Err("Invalid Vertex".to_string()));
    g.add_edge(1, 2);
    assert_eq!(g.multiplicity(1, 2), 1);
    assert_eq!(g.delete_edge(1, 2), Ok(()));
    assert_eq!(g.multiplicity(1, 2), 0);
    assert_eq!(g.out_degree(1), 0);
    assert_eq!(g.in_degree(2), 0);
    assert_eq!(g.add_edge(1, 2), Some(1));
}

#[test]
fn search_groups_partition_explored_vertices() {
    let mut g = cycle_with_tail();
    g.add_edge(5, 5);
    g.dfs_loop_outgoing(&vec![4, 5, 1]);
    assert_eq!(g.start_search.get(&4), Some(&vec![4]));
    assert_eq!(g.start_search.get(&5), Some(&vec![5]));
    assert_eq!(g.start_search.get(&1), Some(&vec![1, 2, 3]));
    assert_eq!(g.finished_order, vec![4, 5, 3, 2, 1]);
}
