use lpc_sampling::component::{bfs, find_lpc};
use lpc_sampling::graph::graph_wf_holds;

/// Adjacency lists over vertices 1..=n with each edge listed both ways.
fn undirected(n: usize, edges: &[(usize, usize)]) -> Vec<Vec<usize>> {
    let mut adj = vec![Vec::new(); n + 1];
    for &(u, v) in edges {
        adj[u].push(v);
        adj[v].push(u);
    }
    adj
}

#[test]
fn bfs_labels_public_component() {
    // 1-2-3 public path, 3-4 where 4 is private, 4-5, 6 alone.
    let adj = undirected(6, &[(1, 2), (2, 3), (3, 4), (4, 5)]);
    let is_pub = vec![true, true, true, true, false, true, true];
    let mut mark = vec![0; 7];
    let size = bfs(&adj, &is_pub, &mut mark, 2);
    assert_eq!(size, 3);
    assert_eq!(mark, vec![0, 2, 2, 2, 0, 0, 0]);
}

#[test]
fn bfs_skips_labelled_or_private_start() {
    let adj = undirected(3, &[(1, 2), (2, 3)]);
    let is_pub = vec![true, true, false, true];
    let mut mark = vec![0, 0, 0, 7];
    assert_eq!(bfs(&adj, &is_pub, &mut mark, 2), 0);
    assert_eq!(bfs(&adj, &is_pub, &mut mark, 3), 0);
    assert_eq!(mark, vec![0, 0, 0, 7]);
    // Vertex 1 is cut off from 3 by the private vertex 2.
    assert_eq!(bfs(&adj, &is_pub, &mut mark, 1), 1);
    assert_eq!(mark, vec![0, 1, 0, 7]);
}

#[test]
fn bfs_does_not_cross_labelled_vertices() {
    let adj = undirected(4, &[(1, 2), (2, 3), (3, 4)]);
    let is_pub = vec![true; 5];
    let mut mark = vec![0, 0, 0, 9, 0];
    assert_eq!(bfs(&adj, &is_pub, &mut mark, 1), 2);
    assert_eq!(mark, vec![0, 1, 1, 9, 0]);
}

#[test]
fn find_lpc_picks_largest_component() {
    // Components {1,2}, {3,4,5}, {6}.
    let adj = undirected(6, &[(1, 2), (3, 4), (4, 5)]);
    let is_pub = vec![true; 7];
    let mut lpc = Vec::new();
    find_lpc(&adj, 6, &is_pub, &mut lpc);
    assert_eq!(lpc, vec![3, 4, 5]);
}

#[test]
fn find_lpc_private_vertex_splits_component() {
    // 1-2-3-4-5 path with 3 private: components {1,2} and {4,5}; the first wins a tie.
    let adj = undirected(5, &[(1, 2), (2, 3), (3, 4), (4, 5)]);
    let is_pub = vec![true, true, true, false, true, true];
    let mut lpc = Vec::new();
    find_lpc(&adj, 5, &is_pub, &mut lpc);
    assert_eq!(lpc, vec![1, 2]);
}

#[test]
fn find_lpc_appends_to_existing_list() {
    let adj = undirected(3, &[(2, 3)]);
    let is_pub = vec![true; 4];
    let mut lpc = vec![42];
    find_lpc(&adj, 3, &is_pub, &mut lpc);
    assert_eq!(lpc, vec![42, 2, 3]);
}

#[test]
fn find_lpc_with_no_public_vertex_lists_every_vertex() {
    let adj = undirected(3, &[(1, 2), (2, 3)]);
    let is_pub = vec![true, false, false, false];
    let mut lpc = Vec::new();
    find_lpc(&adj, 3, &is_pub, &mut lpc);
    assert_eq!(lpc, vec![1, 2, 3]);
}

#[test]
fn lpc_is_a_whole_component_and_largest() {
    // Two components of sizes 4 and 3, interleaved labels.
    let adj = undirected(7, &[(1, 3), (3, 5), (5, 7), (2, 4), (4, 6)]);
    let is_pub = vec![true; 8];
    let mut lpc = Vec::new();
    find_lpc(&adj, 7, &is_pub, &mut lpc);
    assert_eq!(lpc, vec![1, 3, 5, 7]);
    assert_eq!(lpc.len(), 4);
}

#[test]
fn graph_wf_check() {
    let mut adj = undirected(3, &[(1, 2), (2, 3)]);
    assert!(graph_wf_holds(&adj, 3));
    assert!(!graph_wf_holds(&adj, 2));
    assert!(!graph_wf_holds(&adj, 4));
    assert!(graph_wf_holds(&adj, 0));
    // The list of vertex 0 is never read.
    adj[0] = vec![99, 0];
    assert!(graph_wf_holds(&adj, 3));
    adj[1].push(0);
    assert!(!graph_wf_holds(&adj, 3));
}

#[test]
fn bfs_twice_from_same_vertex_changes_nothing() {
    let adj = undirected(5, &[(1, 2), (2, 3), (4, 5)]);
    let is_pub = vec![true; 6];
    let mut mark = vec![0; 6];
    assert_eq!(bfs(&adj, &is_pub, &mut mark, 2), 3);
    let after_first = mark.clone();
    assert_eq!(bfs(&adj, &is_pub, &mut mark, 2), 0);
    assert_eq!(mark, after_first);
    assert_eq!(mark, vec![0, 2, 2, 2, 0, 0]);
}
