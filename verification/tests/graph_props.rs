//! Store-level behavior: vertex accounting, neighbor counting,
//! insertion order, and reachability.

use txgraph::graph::GraphStore;

#[test]
fn empty_store_has_nothing() {
    let g: GraphStore<u64> = GraphStore::new();
    assert_eq!(0, g.number_of_vertices());
    assert!(!g.contains_vertex(&7));
    assert!(g.neighbors(&7).is_empty());
    assert!(!g.path_exists_between(&7, &7));
    assert!(g.vertices().is_empty());
}

#[test]
fn insert_edge_adds_both_endpoints_in_order() {
    let mut g: GraphStore<u64> = GraphStore::new();
    g.insert_edge(1, 2);
    g.insert_edge(3, 1);
    assert_eq!(3, g.number_of_vertices());
    assert_eq!(*g.vertices(), vec![1, 2, 3]);
    assert!(g.contains_vertex(&1));
    assert!(g.contains_vertex(&2));
    assert!(g.contains_vertex(&3));
    assert!(!g.contains_vertex(&4));
}

#[test]
fn vertex_count_is_distinct_endpoint_count() {
    let mut g: GraphStore<u64> = GraphStore::new();
    g.insert_edge(1, 2);
    g.insert_edge(2, 3);
    g.insert_edge(1, 3);
    g.insert_edge(3, 1);
    g.insert_edge(2, 2);
    assert_eq!(3, g.number_of_vertices());
}

#[test]
fn first_vertex_is_first_inserted_identifier() {
    let mut g: GraphStore<u64> = GraphStore::new();
    g.insert_edge(42, 7);
    g.insert_edge(7, 42);
    g.insert_edge(9, 9);
    assert_eq!(42, g.vertices()[0]);
}

#[test]
fn neighbor_count_is_per_source_insertion_count() {
    let mut g: GraphStore<u64> = GraphStore::new();
    g.insert_edge(1, 2);
    g.insert_edge(1, 3);
    g.insert_edge(2, 3);
    g.insert_edge(1, 2);
    assert_eq!(vec![2, 3, 2], g.neighbors(&1));
    assert_eq!(vec![3], g.neighbors(&2));
    assert!(g.neighbors(&3).is_empty());
}

#[test]
fn duplicate_insertion_is_not_idempotent() {
    let mut g: GraphStore<u64> = GraphStore::new();
    g.insert_edge(5, 6);
    let before = g.neighbors(&5).len();
    g.insert_edge(5, 6);
    g.insert_edge(5, 6);
    assert_eq!(before + 2, g.neighbors(&5).len());
    assert_eq!(2, g.number_of_vertices());
}

#[test]
fn path_follows_edges_transitively() {
    let mut g: GraphStore<u64> = GraphStore::new();
    g.insert_edge(1, 2);
    g.insert_edge(2, 3);
    g.insert_edge(3, 4);
    assert!(g.path_exists_between(&1, &4));
    assert!(g.path_exists_between(&2, &4));
    assert!(!g.path_exists_between(&4, &1));
    assert!(!g.path_exists_between(&1, &5));
    assert!(!g.path_exists_between(&5, &1));
}

#[test]
fn path_needs_at_least_one_edge() {
    let mut g: GraphStore<u64> = GraphStore::new();
    g.insert_edge(1, 2);
    assert!(!g.path_exists_between(&1, &1));
    assert!(!g.path_exists_between(&2, &2));
    g.insert_edge(3, 3);
    assert!(g.path_exists_between(&3, &3));
}

#[test]
fn path_terminates_on_cycles_and_parallel_edges() {
    let mut g: GraphStore<u64> = GraphStore::new();
    g.insert_edge(1, 2);
    g.insert_edge(2, 3);
    g.insert_edge(3, 1);
    g.insert_edge(1, 2);
    g.insert_edge(2, 1);
    assert!(g.path_exists_between(&1, &1));
    assert!(g.path_exists_between(&3, &2));
    assert!(!g.path_exists_between(&1, &9));
}
