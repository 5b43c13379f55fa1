//! The model of a graph: `adj[u]` lists the out-neighbours of vertex `u`, and
//! the vertices are `1..=n`. The list of vertex 0, and any list after `n`, is
//! never read.
use vstd::prelude::*;

verus! {

/// The vertices `1..=n` have lists, and those lists hold only vertices of `1..=n`.
pub open spec fn graph_wf(adj: Seq<Vec<usize>>, n: int) -> bool {
    &&& n < adj.len()
    &&& forall|u: int, i: int|
        1 <= u <= n && 0 <= i < adj[u]@.len() ==> 1 <= #[trigger] adj[u]@[i] <= n
}

/// Whether the vertices `1..=n` have lists holding only vertices of `1..=n`.
pub fn graph_wf_holds(adj: &Vec<Vec<usize>>, n: usize) -> (ok: bool)
    ensures
        ok == graph_wf(adj@, n as int),
{
    if n >= adj.len() {
        return false;
    }
    let mut u: usize = 1;
    while u <= n
        invariant
            1 <= u <= n + 1,
            n < usize::MAX,
            n < adj@.len(),
            forall|v: int, i: int|
                1 <= v < u && 0 <= i < adj@[v]@.len() ==> 1 <= #[trigger] adj@[v]@[i] <= n,
        decreases n + 1 - u,
    {
        let nbrs = &adj[u];
        let mut i: usize = 0;
        while i < nbrs.len()
            invariant
                1 <= u <= n,
                n < adj@.len(),
                nbrs@ == adj@[u as int]@,
                i <= nbrs@.len(),
                forall|v: int, j: int|
                    1 <= v < u && 0 <= j < adj@[v]@.len() ==> 1 <= #[trigger] adj@[v]@[j] <= n,
                forall|j: int| 0 <= j < i ==> 1 <= #[trigger] nbrs@[j] <= n,
            decreases nbrs@.len() - i,
        {
            if nbrs[i] < 1 || nbrs[i] > n {
                assert(adj@[u as int]@[i as int] == nbrs@[i as int]);
                return false;
            }
            i = i + 1;
        }
        assert forall|v: int, j: int| 1 <= v < u + 1 && 0 <= j < adj@[v]@.len() implies 1
            <= #[trigger] adj@[v]@[j] <= n by {
            if v == u {
                assert(adj@[v]@[j] == nbrs@[j]);
            }
        }
        u = u + 1;
    }
    true
}

} // verus!
