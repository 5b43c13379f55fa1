use lpc_sampling::counts::{
    avgcoeff_terms, avgdeg_sum, globalcoeff_counts, lpcavgcoeff_terms, lpcavgdeg_sum,
};

fn undirected(n: usize, edges: &[(usize, usize)]) -> Vec<Vec<usize>> {
    let mut adj = vec![Vec::new(); n + 1];
    for &(u, v) in edges {
        adj[u].push(v);
        adj[v].push(u);
    }
    adj
}

/// A triangle 1-2-3 with a pendant vertex 4 hanging off 3.
fn triangle_with_tail() -> Vec<Vec<usize>> {
    undirected(4, &[(1, 2), (2, 3), (1, 3), (3, 4)])
}

#[test]
fn degree_sum_counts_every_list_entry() {
    let adj = triangle_with_tail();
    assert_eq!(avgdeg_sum(&adj, 4), Some(8));
    assert_eq!(avgdeg_sum(&adj, 2), Some(4));
    assert_eq!(avgdeg_sum(&adj, 0), Some(0));
}

#[test]
fn degree_sum_of_longer_lists() {
    let big: Vec<Vec<usize>> = vec![Vec::new(), vec![0; 4], vec![0; 5]];
    assert_eq!(avgdeg_sum(&big, 2), Some(9));
}

#[test]
fn public_degree_sum_counts_public_neighbours() {
    let adj = triangle_with_tail();
    let is_pub = vec![true, true, false, true, true];
    // 1: {2,3} -> 1 public; 3: {2,1,4} -> 2 public.
    assert_eq!(lpcavgdeg_sum(&adj, &is_pub, &vec![1, 3]), Some(3));
    assert_eq!(lpcavgdeg_sum(&adj, &is_pub, &vec![]), Some(0));
}

#[test]
fn global_counts_on_triangle_with_tail() {
    let adj = triangle_with_tail();
    // d(d-1): 2 + 2 + 6 + 0; closed pairs: one per triangle vertex.
    assert_eq!(globalcoeff_counts(&adj, 4), Some((10, 6)));
}

#[test]
fn global_counts_on_square() {
    let adj = undirected(4, &[(1, 2), (2, 3), (3, 4), (4, 1)]);
    assert_eq!(globalcoeff_counts(&adj, 4), Some((8, 0)));
}

#[test]
fn global_counts_on_complete_graph() {
    let adj = undirected(4, &[(1, 2), (1, 3), (1, 4), (2, 3), (2, 4), (3, 4)]);
    // Each vertex: d = 3, d(d-1) = 6; 3 closed pairs each; 4 triangles * 6 = 24.
    assert_eq!(globalcoeff_counts(&adj, 4), Some((24, 24)));
}

#[test]
fn local_terms_skip_low_degree() {
    let adj = triangle_with_tail();
    assert_eq!(avgcoeff_terms(&adj, 4), Some(vec![(2, 2), (2, 2), (2, 6)]));
}

#[test]
fn local_terms_count_repeated_neighbours_once_per_pair() {
    // 1 lists 2 twice; the second occurrence no longer finds 2 marked.
    let adj = vec![vec![], vec![2, 2, 3], vec![1, 1, 3], vec![1, 2]];
    // Vertex 1: positions 2,2,3. At the first 2: neighbours of 2 are 1,1,3 -> 3 marked: 1.
    // At the second 2: 2 was unmarked, 3 still marked: 1. At 3: 1 and 2 unmarked: 0.
    let terms = avgcoeff_terms(&adj, 3).unwrap();
    assert_eq!(terms[0], (4, 6));
}

#[test]
fn local_terms_inside_public_subgraph() {
    let adj = triangle_with_tail();
    let is_pub = vec![true, true, true, true, false];
    // Vertex 3 has public neighbours 2 and 1 (4 private): p = 2, one closed pair.
    assert_eq!(lpcavgcoeff_terms(&adj, 4, &is_pub, &vec![3, 4]), Some(vec![(2, 2)]));
    let is_pub2 = vec![true, true, false, true, true];
    // With 2 private, vertex 3 has public neighbours 1 and 4, not joined.
    assert_eq!(lpcavgcoeff_terms(&adj, 4, &is_pub2, &vec![3]), Some(vec![(0, 2)]));
    assert_eq!(lpcavgcoeff_terms(&adj, 4, &is_pub2, &vec![1]), Some(vec![]));
}

#[test]
fn public_terms_equal_whole_terms_when_all_public() {
    let adj = triangle_with_tail();
    let is_pub = vec![false, true, true, true, true];
    let all = vec![1, 2, 3, 4];
    assert_eq!(lpcavgcoeff_terms(&adj, 4, &is_pub, &all), avgcoeff_terms(&adj, 4));
}

#[test]
fn list_of_vertex_zero_is_never_read() {
    let mut adj = triangle_with_tail();
    adj[0] = vec![1000, 0, 7];
    assert_eq!(globalcoeff_counts(&adj, 4), Some((10, 6)));
    assert_eq!(avgcoeff_terms(&adj, 4), Some(vec![(2, 2), (2, 2), (2, 6)]));
}
