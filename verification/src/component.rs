//! Public components: breadth-first search through public vertices, and the
//! largest public component found by searching from every vertex in turn.
use vstd::prelude::*;
use std::collections::VecDeque;
use crate::graph::graph_wf;

verus! {

/// `w` has not been labelled yet (its label is 0) and is public.
pub open spec fn open_vertex(mark: Seq<usize>, is_pub: Seq<bool>, w: usize) -> bool {
    &&& (w as int) < mark.len()
    &&& (w as int) < is_pub.len()
    &&& mark[w as int] == 0
    &&& is_pub[w as int]
}

/// `p` is a non-empty walk along adjacency lists that only visits open vertices.
pub open spec fn is_open_walk(
    adj: Seq<Vec<usize>>,
    mark: Seq<usize>,
    is_pub: Seq<bool>,
    p: Seq<usize>,
) -> bool {
    &&& p.len() > 0
    &&& forall|i: int| 0 <= i < p.len() ==> open_vertex(mark, is_pub, #[trigger] p[i])
    &&& forall|i: int|
        #![trigger p[i]]
        0 <= i < p.len() - 1 ==> (p[i] as int) < adj.len() && adj[p[i] as int]@.contains(p[i + 1])
}

/// Some open walk leads from `s` to `t`.
pub open spec fn reaches(
    adj: Seq<Vec<usize>>,
    mark: Seq<usize>,
    is_pub: Seq<bool>,
    s: usize,
    t: usize,
) -> bool {
    exists|p: Seq<usize>| #[trigger] is_open_walk(adj, mark, is_pub, p) && p[0] == s && p.last() == t
}

/// The vertices that open walks from `s` reach.
pub open spec fn reach_set(
    adj: Seq<Vec<usize>>,
    mark: Seq<usize>,
    is_pub: Seq<bool>,
    s: usize,
) -> Set<usize> {
    Set::new(|t: usize| reaches(adj, mark, is_pub, s, t))
}

/// The labels after a search from `s`: when `s` is open, every vertex that `s`
/// reaches through open vertices is labelled `s`; otherwise nothing changes.
pub open spec fn bfs_marks(
    adj: Seq<Vec<usize>>,
    mark: Seq<usize>,
    is_pub: Seq<bool>,
    s: usize,
) -> Seq<usize> {
    if open_vertex(mark, is_pub, s) {
        Seq::new(
            mark.len(),
            |w: int|
                if reach_set(adj, mark, is_pub, s).contains(w as usize) {
                    s
                } else {
                    mark[w]
                },
        )
    } else {
        mark
    }
}

/// The number of vertices that a search from `s` labels.
pub open spec fn bfs_count(
    adj: Seq<Vec<usize>>,
    mark: Seq<usize>,
    is_pub: Seq<bool>,
    s: usize,
) -> nat {
    if open_vertex(mark, is_pub, s) {
        reach_set(adj, mark, is_pub, s).len()
    } else {
        0
    }
}

/// Every open neighbour of a vertex of `from` lies in `into`.
pub open spec fn expands_into(
    adj: Seq<Vec<usize>>,
    mark: Seq<usize>,
    is_pub: Seq<bool>,
    from: Set<usize>,
    into: Set<usize>,
) -> bool {
    forall|v: usize, i: int|
        #![trigger from.contains(v), adj[v as int]@[i]]
        from.contains(v) && 0 <= i < adj[v as int]@.len() && open_vertex(
            mark,
            is_pub,
            adj[v as int]@[i],
        ) ==> into.contains(adj[v as int]@[i])
}

/// Every open neighbour of a vertex of `set` lies in `set`.
pub open spec fn closed_set(
    adj: Seq<Vec<usize>>,
    mark: Seq<usize>,
    is_pub: Seq<bool>,
    set: Set<usize>,
) -> bool {
    expands_into(adj, mark, is_pub, set, set)
}

/// One more edge extends a walk.
proof fn lemma_reaches_step(
    adj: Seq<Vec<usize>>,
    mark: Seq<usize>,
    is_pub: Seq<bool>,
    s: usize,
    v: usize,
    i: int,
)
    requires
        reaches(adj, mark, is_pub, s, v),
        (v as int) < adj.len(),
        0 <= i < adj[v as int]@.len(),
        open_vertex(mark, is_pub, adj[v as int]@[i]),
    ensures
        reaches(adj, mark, is_pub, s, adj[v as int]@[i]),
{
    let w = adj[v as int]@[i];
    let p = choose|p: Seq<usize>|
        #[trigger] is_open_walk(adj, mark, is_pub, p) && p[0] == s && p.last() == v;
    let q = p.push(w);
    assert(adj[v as int]@.contains(w));
    assert forall|j: int| #![trigger q[j]] 0 <= j < q.len() - 1 implies (q[j] as int) < adj.len()
        && adj[q[j] as int]@.contains(q[j + 1]) by {
        if j < p.len() - 1 {
            assert(q[j] == p[j]);
            assert(q[j + 1] == p[j + 1]);
        } else {
            assert(q[j] == v);
        }
    }
    assert(is_open_walk(adj, mark, is_pub, q));
}

/// A walk that starts inside a closed set stays inside it.
proof fn lemma_closed_holds_walk(
    adj: Seq<Vec<usize>>,
    mark: Seq<usize>,
    is_pub: Seq<bool>,
    set: Set<usize>,
    p: Seq<usize>,
)
    requires
        closed_set(adj, mark, is_pub, set),
        is_open_walk(adj, mark, is_pub, p),
        set.contains(p[0]),
    ensures
        set.contains(p.last()),
    decreases p.len(),
{
    if p.len() > 1 {
        let q = p.drop_last();
        assert(is_open_walk(adj, mark, is_pub, q)) by {
            assert forall|j: int| #![trigger q[j]] 0 <= j < q.len() - 1 implies (q[j] as int)
                < adj.len() && adj[q[j] as int]@.contains(q[j + 1]) by {
                assert(q[j] == p[j]);
                assert(q[j + 1] == p[j + 1]);
            }
            assert forall|j: int| 0 <= j < q.len() implies open_vertex(
                mark,
                is_pub,
                #[trigger] q[j],
            ) by {
                assert(q[j] == p[j]);
            }
        }
        lemma_closed_holds_walk(adj, mark, is_pub, set, q);
        let k = p.len() - 2;
        let v = p[k];
        assert(q.last() == v);
        assert(adj[v as int]@.contains(p[k + 1]));
        let i = choose|i: int| 0 <= i < adj[v as int]@.len() && adj[v as int]@[i] == p[k + 1];
        assert(open_vertex(mark, is_pub, p[k + 1]));
        assert(set.contains(adj[v as int]@[i]));
    }
}

/// Breadth-first search from `init_v` through public vertices whose label is
/// still 0. Each vertex it reaches gets the label `init_v`; the result is how
/// many vertices it labelled. A vertex already labelled, or private, yields 0.
pub fn bfs(
    adj: &Vec<Vec<usize>>,
    is_pub: &Vec<bool>,
    mark: &mut Vec<usize>,
    init_v: usize,
) -> (sum: usize)
    requires
        graph_wf(adj@, old(mark)@.len() - 1),
        old(mark)@.len() <= is_pub@.len(),
        1 <= init_v < old(mark)@.len(),
    ensures
        final(mark)@ == bfs_marks(adj@, old(mark)@, is_pub@, init_v),
        sum == bfs_count(adj@, old(mark)@, is_pub@, init_v),
{
    let ghost m0 = mark@;
    if mark[init_v] != 0 || !is_pub[init_v] {
        return 0;
    }
    let ghost len = mark@.len();
    let mut deq: VecDeque<usize> = VecDeque::new();
    deq.push_back(init_v);
    mark.set(init_v, init_v);
    let ghost mut visited: Set<usize> = Set::empty().insert(init_v);
    let ghost mut popped: Set<usize> = Set::empty();
    let mut sum: usize = 0;
    proof {
        let p = seq![init_v];
        assert(is_open_walk(adj@, m0, is_pub@, p));
        assert(reaches(adj@, m0, is_pub@, init_v, init_v));
        assert(deq@ == seq![init_v]);
        assert(len == mark.len());
        assert forall|w: int| 0 <= w < len implies #[trigger] mark@[w] == if visited.contains(
            w as usize,
        ) {
            init_v
        } else {
            m0[w]
        } by {
            if w != init_v as int {
                assert(!visited.contains(w as usize));
            }
        }
        assert(deq@.contains(init_v)) by { assert(deq@[0] == init_v); }
    }
    while deq.len() > 0
        invariant
            graph_wf(adj@, len - 1),
            len <= is_pub@.len(),
            len <= usize::MAX,
            1 <= init_v < len,
            m0.len() == len,
            mark@.len() == len,
            open_vertex(m0, is_pub@, init_v),
            visited.contains(init_v),
            forall|w: usize| #[trigger]
                visited.contains(w) ==> 1 <= w && open_vertex(m0, is_pub@, w) && reaches(
                    adj@,
                    m0,
                    is_pub@,
                    init_v,
                    w,
                ),
            forall|w: int|
                0 <= w < len ==> #[trigger] mark@[w] == if visited.contains(w as usize) {
                    init_v
                } else {
                    m0[w]
                },
            forall|w: usize| #[trigger]
                visited.contains(w) <==> (popped.contains(w) || deq@.contains(w)),
            forall|w: usize| #[trigger] popped.contains(w) ==> !deq@.contains(w),
            deq@.no_duplicates(),
            popped.finite(),
            sum == popped.len(),
            expands_into(adj@, m0, is_pub@, popped, visited),
        decreases len - popped.len(),
    {
        let ghost q0 = deq@;
        let v = deq.pop_front().unwrap();
        proof {
            assert(q0[0] == v);
            assert(q0.contains(v));
            assert(!popped.contains(v));
            assert(visited.contains(v));
            lemma_visited_bound(visited, len);
            vstd::set_lib::lemma_len_subset(popped, visited);
            assert(popped.len() < visited.len()) by {
                if popped.len() == visited.len() {
                    vstd::set_lib::lemma_subset_equality(popped, visited);
                }
            }
            assert forall|w: usize| #[trigger] deq@.contains(w) implies q0.contains(w) && w != v by {
                let k = choose|k: int| 0 <= k < deq@.len() && deq@[k] == w;
                assert(q0[k + 1] == w);
            }
            assert forall|w: usize| q0.contains(w) && w != v implies #[trigger] deq@.contains(w) by {
                let k = choose|k: int| 0 <= k < q0.len() && q0[k] == w;
                assert(k != 0);
                assert(deq@[k - 1] == w);
            }
            popped = popped.insert(v);
        }
        sum = sum + 1;
        let nbrs = &adj[v];
        let deg = nbrs.len();
        let mut j: usize = 0;
        while j < deg
            invariant
                graph_wf(adj@, len - 1),
                len <= is_pub@.len(),
                1 <= init_v < len,
                m0.len() == len,
                mark@.len() == len,
                (v as int) < len,
                nbrs@ == adj@[v as int]@,
                deg == nbrs@.len(),
                j <= deg,
                popped.contains(v),
                visited.contains(v),
                len <= usize::MAX,
                visited.contains(init_v),
                forall|w: usize| #[trigger]
                    visited.contains(w) ==> 1 <= w && open_vertex(m0, is_pub@, w) && reaches(
                        adj@,
                        m0,
                        is_pub@,
                        init_v,
                        w,
                    ),
                forall|w: int|
                    0 <= w < len ==> #[trigger] mark@[w] == if visited.contains(w as usize) {
                        init_v
                    } else {
                        m0[w]
                    },
                forall|w: usize| #[trigger]
                    visited.contains(w) <==> (popped.contains(w) || deq@.contains(w)),
                forall|w: usize| #[trigger] popped.contains(w) ==> !deq@.contains(w),
                deq@.no_duplicates(),
                popped.finite(),
                sum == popped.len(),
                expands_into(adj@, m0, is_pub@, popped.remove(v), visited),
                forall|i: int|
                    0 <= i < j && open_vertex(m0, is_pub@, #[trigger] nbrs@[i]) ==> visited.contains(
                        nbrs@[i],
                    ),
            decreases deg - j,
        {
            let w = nbrs[j];
            assert(adj@[v as int]@[j as int] == w);
            if mark[w] == 0 && is_pub[w] {
                proof {
                    assert(!visited.contains(w));
                    assert(open_vertex(m0, is_pub@, w));
                    lemma_reaches_step(adj@, m0, is_pub@, init_v, v, j as int);
                    assert(!deq@.contains(w));
                }
                let ghost qb = deq@;
                deq.push_back(w);
                mark.set(w, init_v);
                proof {
                    let old_visited = visited;
                    visited = visited.insert(w);
                    assert forall|u: usize| #[trigger] visited.contains(u) <==> (popped.contains(u)
                        || deq@.contains(u)) by {
                        assert(old_visited.contains(u) <==> (popped.contains(u) || qb.contains(u)));
                        if u == w {
                            assert(deq@[deq@.len() - 1] == w);
                        }
                        if qb.contains(u) {
                            let k = choose|k: int| 0 <= k < qb.len() && qb[k] == u;
                            assert(deq@[k] == u);
                        }
                        if deq@.contains(u) && u != w {
                            let k = choose|k: int| 0 <= k < deq@.len() && deq@[k] == u;
                            assert(k < deq@.len() - 1);
                            assert(qb[k] == u);
                        }
                    }
                    assert forall|u: usize| #[trigger] popped.contains(u) implies !deq@.contains(u) by {
                        if deq@.contains(u) {
                            let k = choose|k: int| 0 <= k < deq@.len() && deq@[k] == u;
                            if k < deq@.len() - 1 {
                                assert(qb[k] == u);
                                assert(qb.contains(u));
                            }
                        }
                    }
                    assert(deq@.no_duplicates()) by {
                        assert forall|a: int, b: int|
                            0 <= a < b < deq@.len() implies deq@[a] != deq@[b] by {
                            if b == deq@.len() - 1 {
                                assert(qb[a] == deq@[a]);
                                assert(qb.contains(deq@[a]));
                            } else {
                                assert(qb[a] == deq@[a] && qb[b] == deq@[b]);
                            }
                        }
                    }
                }
            }
            j = j + 1;
        }
        proof {
            assert(popped.remove(v).insert(v) =~= popped);
        }
    }
    proof {
        assert(visited =~= popped);
        assert(closed_set(adj@, m0, is_pub@, visited));
        let rs = reach_set(adj@, m0, is_pub@, init_v);
        assert forall|t: usize| rs.contains(t) implies #[trigger] visited.contains(t) by {
            let p = choose|p: Seq<usize>|
                #[trigger] is_open_walk(adj@, m0, is_pub@, p) && p[0] == init_v && p.last() == t;
            lemma_closed_holds_walk(adj@, m0, is_pub@, visited, p);
        }
        assert(visited =~= rs);
        assert(mark@ =~= bfs_marks(adj@, m0, is_pub@, init_v));
    }
    sum
}

/// A set of labelled vertices has at most as many members as there are labels.
proof fn lemma_visited_bound(visited: Set<usize>, len: nat)
    requires
        forall|w: usize| #[trigger] visited.contains(w) ==> (w as int) < len,
        len <= usize::MAX,
    ensures
        visited.finite(),
        visited.len() <= len,
{
    let range = Set::<usize>::range(0, len as usize);
    <usize as vstd::set_lib::FiniteRange>::range_properties(0, len as usize);
    assert(visited.subset_of(range));
    vstd::set_lib::lemma_len_subset(visited, range);
}

/// The labels after searching from `1`, `2`, ..., `k` in turn, starting
/// with every vertex of `0..=n` unlabelled.
pub open spec fn labels_after(adj: Seq<Vec<usize>>, is_pub: Seq<bool>, n: nat, k: nat) -> Seq<
    usize,
>
    decreases k,
{
    if k == 0 {
        Seq::new(n + 1, |i: int| 0usize)
    } else {
        bfs_marks(adj, labels_after(adj, is_pub, n, (k - 1) as nat), is_pub, k as usize)
    }
}

/// How many vertices the search from `k` labels (for `k >= 1`).
pub open spec fn search_size(adj: Seq<Vec<usize>>, is_pub: Seq<bool>, n: nat, k: nat) -> nat {
    bfs_count(adj, labels_after(adj, is_pub, n, (k - 1) as nat), is_pub, k as usize)
}

/// The first of the searches from `1..=k` that labelled the most vertices,
/// with that number; `(0, 0)` when none labelled any.
pub open spec fn best_root(adj: Seq<Vec<usize>>, is_pub: Seq<bool>, n: nat, k: nat) -> (usize, nat)
    decreases k,
{
    if k == 0 {
        (0, 0)
    } else {
        let prev = best_root(adj, is_pub, n, (k - 1) as nat);
        let c = search_size(adj, is_pub, n, k);
        if c > prev.1 {
            (k as usize, c)
        } else {
            prev
        }
    }
}

/// The vertices of `1..=k`, in increasing order, whose label is `root`.
pub open spec fn labelled_with(labels: Seq<usize>, root: usize, k: nat) -> Seq<usize>
    decreases k,
{
    if k == 0 {
        Seq::empty()
    } else {
        let prev = labelled_with(labels, root, (k - 1) as nat);
        if labels[k as int] == root {
            prev.push(k as usize)
        } else {
            prev
        }
    }
}

/// The largest public component: the vertices labelled by the search that
/// labelled the most vertices, when every vertex `1..=n` is searched from.
pub open spec fn largest_public_component(adj: Seq<Vec<usize>>, is_pub: Seq<bool>, n: nat) -> Seq<
    usize,
> {
    labelled_with(labels_after(adj, is_pub, n, n), best_root(adj, is_pub, n, n).0, n)
}

/// Searches from every vertex `1..=n` in turn and appends to `lpc`, in
/// increasing order, the vertices found by the first search that found the most.
pub fn find_lpc(adj: &Vec<Vec<usize>>, n: usize, is_pub: &Vec<bool>, lpc: &mut Vec<usize>)
    requires
        graph_wf(adj@, n as int),
        n + 1 <= is_pub@.len(),
    ensures
        final(lpc)@ == old(lpc)@ + largest_public_component(adj@, is_pub@, n as nat),
{
    let ghost nn = n as nat;
    assert(n + 1 <= adj.len());
    assert(n < usize::MAX);
    let mut mark: Vec<usize> = vec![0; n + 1];
    let mut max_siz: usize = 0;
    let mut max_v: usize = 0;
    proof {
        assert(mark@ =~= labels_after(adj@, is_pub@, nn, 0));
    }
    let mut v: usize = 1;
    while v <= n
        invariant
            graph_wf(adj@, n as int),
            n + 1 <= is_pub@.len(),
            1 <= v <= n + 1,
            n < usize::MAX,
            nn == n,
            mark@ == labels_after(adj@, is_pub@, nn, (v - 1) as nat),
            (max_v, max_siz as nat) == best_root(adj@, is_pub@, nn, (v - 1) as nat),
        decreases n + 1 - v,
    {
        proof {
            lemma_labels_len(adj@, is_pub@, nn, (v - 1) as nat);
            assert(mark@.len() == n + 1);
            assert(graph_wf(adj@, mark@.len() - 1));
        }
        let siz = bfs(adj, is_pub, &mut mark, v);
        if siz > max_siz {
            max_siz = siz;
            max_v = v;
        }
        v = v + 1;
    }
    proof {
        lemma_labels_len(adj@, is_pub@, nn, nn);
    }
    let ghost start = lpc@;
    let mut w: usize = 1;
    while w <= n
        invariant
            1 <= w <= n + 1,
            n < usize::MAX,
            nn == n,
            mark@ == labels_after(adj@, is_pub@, nn, nn),
            mark@.len() == n + 1,
            lpc@ == start + labelled_with(mark@, max_v, (w - 1) as nat),
        decreases n + 1 - w,
    {
        if mark[w] == max_v {
            lpc.push(w);
        }
        proof {
            assert(start + labelled_with(mark@, max_v, w as nat) =~= lpc@);
        }
        w = w + 1;
    }
}

/// Searching never changes how many labels there are.
pub proof fn lemma_labels_len(adj: Seq<Vec<usize>>, is_pub: Seq<bool>, n: nat, k: nat)
    ensures
        labels_after(adj, is_pub, n, k).len() == n + 1,
    decreases k,
{
    if k > 0 {
        lemma_labels_len(adj, is_pub, n, (k - 1) as nat);
    }
}

} // verus!
