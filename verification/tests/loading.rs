use lpc_sampling::component::find_lpc;
use lpc_sampling::load::{load_edges, LoadError};

#[test]
fn relabels_in_order_of_first_appearance() {
    let mut adj: Vec<Vec<usize>> = vec![Vec::new(); 5];
    let edges = vec![(10, 20), (20, 30), (30, 10)];
    assert_eq!(load_edges(&mut adj, &edges, false), Ok(3));
    assert_eq!(adj[0], Vec::<usize>::new());
    assert_eq!(adj[1], vec![2, 3]);
    assert_eq!(adj[2], vec![1, 3]);
    assert_eq!(adj[3], vec![2, 1]);
    assert_eq!(adj[4], Vec::<usize>::new());
}

#[test]
fn bidirectional_data_adds_one_direction() {
    let mut adj: Vec<Vec<usize>> = vec![Vec::new(); 4];
    let edges = vec![(7, 9), (9, 7), (9, 4)];
    assert_eq!(load_edges(&mut adj, &edges, true), Ok(3));
    assert_eq!(adj[1], vec![2]);
    assert_eq!(adj[2], vec![1, 3]);
    assert_eq!(adj[3], Vec::<usize>::new());
}

#[test]
fn too_many_ids_leaves_lists_alone() {
    let mut adj: Vec<Vec<usize>> = vec![vec![5], Vec::new(), Vec::new()];
    let edges = vec![(1, 2), (2, 3)];
    assert_eq!(load_edges(&mut adj, &edges, false), Err(LoadError::TooManyVertices));
    assert_eq!(adj, vec![vec![5], Vec::new(), Vec::new()]);
}

#[test]
fn no_edges_loads_nothing() {
    let mut adj: Vec<Vec<usize>> = Vec::new();
    assert_eq!(load_edges(&mut adj, &Vec::new(), false), Ok(0));
    assert!(adj.is_empty());
}

#[test]
fn loaded_graph_is_undirected_and_labels_are_one_to_one() {
    let mut adj: Vec<Vec<usize>> = vec![Vec::new(); 10];
    let edges = vec![(100, 5), (5, 8), (8, 100), (42, 42), (8, 77)];
    let n = load_edges(&mut adj, &edges, false).unwrap();
    assert_eq!(n, 5);
    for u in 0..adj.len() {
        for &w in &adj[u] {
            assert!(1 <= w && w <= n);
            assert!(adj[w].contains(&u));
        }
    }
    // The self-loop on 42 (label 4) is listed twice on its own list.
    assert_eq!(adj[4], vec![4, 4]);
    // Loaded graphs feed the component search directly.
    let is_pub = vec![true; n + 1];
    let mut lpc = Vec::new();
    find_lpc(&adj, n, &is_pub, &mut lpc);
    assert_eq!(lpc, vec![1, 2, 3, 5]);
}
