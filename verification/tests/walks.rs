use lpc_sampling::walk::{closing_flags, rand_walk, size_collisions, WalkError};

fn undirected(n: usize, edges: &[(usize, usize)]) -> Vec<Vec<usize>> {
    let mut adj = vec![Vec::new(); n + 1];
    for &(u, v) in edges {
        adj[u].push(v);
        adj[v].push(u);
    }
    adj
}

#[test]
fn closing_flags_on_triangle_walk() {
    let adj = undirected(4, &[(1, 2), (2, 3), (1, 3), (3, 4)]);
    assert_eq!(closing_flags(&adj, &vec![1, 2, 3, 4, 3]), vec![true, false, false]);
    assert_eq!(closing_flags(&adj, &vec![1, 2]), Vec::<bool>::new());
    assert_eq!(closing_flags(&adj, &vec![1]), Vec::<bool>::new());
}

#[test]
fn collisions_at_lag() {
    // Pairs (j, i) with j <= i - 1 holding the same vertex: (0,2), (0,3), (2,3).
    assert_eq!(size_collisions(3, &vec![1, 2, 1, 1], 1), Some(6));
    // At lag 2 only (0,2), (0,3): 2 pairs.
    assert_eq!(size_collisions(3, &vec![1, 2, 1, 1], 2), Some(4));
    assert_eq!(size_collisions(3, &vec![1, 2, 1, 1], 4), Some(0));
    assert_eq!(size_collisions(3, &vec![1, 2, 1, 1], 9), Some(0));
    // At lag 0 every position also pairs with itself.
    assert_eq!(size_collisions(3, &vec![1, 2, 1, 1], 0), Some(2 * (1 + 1 + 2 + 3)));
}

#[test]
fn walk_moves_along_edges_to_public_vertices() {
    // A public triangle 1-2-3 with private leaves 4 and 5 on vertex 2.
    let adj = undirected(5, &[(1, 2), (2, 3), (1, 3), (2, 4), (2, 5)]);
    let is_pub = vec![true, true, true, true, false, false];
    let r = 200;
    let walk = rand_walk(&adj, 5, &is_pub, r, 1).unwrap();
    assert_eq!(walk.vertices.len(), r);
    assert_eq!(walk.vertices[0], 1);
    for i in 0..r - 1 {
        let (a, b) = (walk.vertices[i], walk.vertices[i + 1]);
        assert!(adj[a].contains(&b));
        assert!(is_pub[b]);
        assert_ne!(a, b);
    }
    assert!(walk.vertices.iter().all(|&v| v <= 3));
    // Each step is tallied once at the vertex it stood on.
    assert_eq!(walk.picked.iter().sum::<u64>(), r as u64);
    for v in 0..=5 {
        let visits = walk.vertices.iter().filter(|&&x| x == v).count() as u64;
        assert_eq!(walk.picked[v], visits);
        let draws: u64 = (0..r).filter(|&i| walk.vertices[i] == v).map(|i| walk.tries[i]).sum();
        assert_eq!(walk.drawn[v], draws);
        let near: u64 = (0..r).filter(|&i| walk.vertices[i] == v).map(|i| walk.hits[i]).sum();
        assert_eq!(walk.drawn_near[v], near);
        assert!(walk.drawn_near[v] <= walk.drawn[v]);
        assert!(walk.picked[v] <= walk.drawn[v]);
    }
    assert_eq!(walk.hits[0], 0);
    for i in 0..r {
        assert!(walk.tries[i] >= 1);
        assert!(walk.hits[i] <= walk.tries[i]);
    }
    // An inner step that lands next to the vertex before last drew at least one such neighbour.
    for i in 1..r - 1 {
        if adj[walk.vertices[i - 1]].contains(&walk.vertices[i + 1]) {
            assert!(walk.hits[i] >= 1);
        }
    }
    assert_eq!(walk.closes.len(), r - 2);
    assert_eq!(walk.closes, closing_flags(&adj, &walk.vertices));
}

#[test]
fn walk_of_one_step() {
    let adj = undirected(2, &[(1, 2)]);
    let is_pub = vec![true; 3];
    let walk = rand_walk(&adj, 2, &is_pub, 1, 2).unwrap();
    assert_eq!(walk.vertices, vec![2]);
    assert_eq!(walk.tries, vec![1]);
    assert_eq!(walk.hits, vec![0]);
    assert_eq!(walk.picked, vec![0, 0, 1]);
    assert_eq!(walk.drawn, vec![0, 0, 1]);
    assert!(walk.closes.is_empty());
}

#[test]
fn walk_on_a_path_alternates() {
    let adj = undirected(2, &[(1, 2)]);
    let is_pub = vec![true; 3];
    let walk = rand_walk(&adj, 2, &is_pub, 5, 1).unwrap();
    assert_eq!(walk.vertices, vec![1, 2, 1, 2, 1]);
    assert_eq!(walk.tries, vec![1; 5]);
    assert_eq!(walk.picked, vec![0, 3, 2]);
    assert_eq!(walk.closes, vec![false, false, false]);
}

#[test]
fn walk_from_isolated_vertex_is_a_dead_end() {
    let adj = undirected(3, &[(1, 2)]);
    let is_pub = vec![true; 4];
    assert!(matches!(rand_walk(&adj, 3, &is_pub, 4, 3), Err(WalkError::DeadEnd(3))));
}

#[test]
fn walk_into_a_directed_dead_end() {
    // 1 lists 2, but 2 lists nothing.
    let adj = vec![vec![], vec![2], vec![]];
    let is_pub = vec![true; 3];
    assert!(matches!(rand_walk(&adj, 2, &is_pub, 3, 1), Err(WalkError::DeadEnd(2))));
    // A single step never leaves the start.
    assert!(rand_walk(&adj, 2, &is_pub, 1, 1).is_ok());
}

#[test]
fn walk_on_a_single_edge_is_fixed() {
    let adj = vec![vec![], vec![2], vec![1]];
    let is_pub = vec![true, true, true];
    let walk = rand_walk(&adj, 2, &is_pub, 4, 1).unwrap();
    assert_eq!(walk.vertices, vec![1, 2, 1, 2]);
    assert_eq!(walk.tries, vec![1, 1, 1, 1]);
    assert_eq!(walk.hits, vec![0, 0, 0, 0]);
    assert_eq!(walk.picked, vec![0, 2, 2]);
    assert_eq!(walk.drawn, vec![0, 2, 2]);
    assert_eq!(walk.drawn_near, vec![0, 0, 0]);
    assert_eq!(walk.closes, vec![false, false]);
}

#[test]
fn walk_with_all_neighbours_public_draws_once_per_step() {
    // A complete graph on 4 vertices; the list of vertex 0 is never read.
    let mut adj = undirected(4, &[(1, 2), (1, 3), (1, 4), (2, 3), (2, 4), (3, 4)]);
    adj[0] = vec![77];
    let is_pub = vec![false, true, true, true, true];
    let r = 50;
    let walk = rand_walk(&adj, 4, &is_pub, r, 2).unwrap();
    assert_eq!(walk.tries, vec![1; r]);
    for v in 1..=4 {
        assert_eq!(walk.drawn[v], walk.picked[v]);
    }
    // Every later vertex is a neighbour of the one before last unless it is that vertex.
    for i in 1..r - 1 {
        let near = walk.vertices[i + 1] != walk.vertices[i - 1];
        assert_eq!(walk.hits[i], if near { 1 } else { 0 });
    }
}

#[test]
fn walk_on_triangle_free_graph_has_no_near_draws() {
    // A square 1-2-3-4 with a private leaf 5 on vertex 1.
    let adj = undirected(5, &[(1, 2), (2, 3), (3, 4), (4, 1), (1, 5)]);
    let is_pub = vec![true, true, true, true, true, false];
    let walk = rand_walk(&adj, 5, &is_pub, 100, 1).unwrap();
    assert!(walk.hits.iter().all(|&h| h == 0));
    assert!(walk.drawn_near.iter().all(|&d| d == 0));
    assert!(walk.closes.iter().all(|&c| !c));
}
