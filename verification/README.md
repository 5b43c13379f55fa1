# lpc_sampling

Exact statistics and random-walk sampling on graphs whose vertices are
numbered `1..=n` and flagged public or private, verified with Verus.

- `src/graph.rs`: the well-formedness of adjacency lists.
- `src/component.rs`: breadth-first search through public vertices and the
  largest public component; `src/component_laws.rs`: what that component is.
- `src/counts.rs`: degree sums, wedge counts and closed neighbour pairs behind
  the average degree and the clustering coefficients.
- `src/walk.rs`: the random walk over public vertices and its tallies, and the
  collision count behind the size estimates.
- `src/load.rs`: building adjacency lists from an edge list with arbitrary ids.
- `app/main.rs`: reads a CSV edge list and prints the floating-point estimates.
