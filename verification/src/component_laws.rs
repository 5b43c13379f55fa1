//! What the labelling of `find_lpc` guarantees: its component holds public
//! vertices reached from its root, no search found more vertices, and on an
//! undirected graph it is exactly a largest public connected component.
use vstd::prelude::*;
use crate::graph::graph_wf;
use crate::component::{
    best_root, bfs_count, bfs_marks, is_open_walk, labelled_with, labels_after,
    largest_public_component, lemma_labels_len, open_vertex, reach_set, reaches, search_size,
};

verus! {

/// No vertex labelled.
pub open spec fn unlabelled(n: nat) -> Seq<usize> {
    Seq::new(n + 1, |i: int| 0usize)
}

/// `t` is reached from `s` by a walk through public vertices of `0..=n`.
pub open spec fn public_reach(
    adj: Seq<Vec<usize>>,
    is_pub: Seq<bool>,
    n: nat,
    s: usize,
    t: usize,
) -> bool {
    reaches(adj, unlabelled(n), is_pub, s, t)
}

/// The public vertices that `s` reaches through public vertices.
pub open spec fn public_component(adj: Seq<Vec<usize>>, is_pub: Seq<bool>, n: nat, s: usize) -> Set<
    usize,
> {
    Set::new(|t: usize| public_reach(adj, is_pub, n, s, t))
}

/// Every edge among the vertices `1..=n` is listed in both directions.
pub open spec fn symmetric(adj: Seq<Vec<usize>>, n: nat) -> bool {
    forall|u: int, i: int|
        1 <= u <= n && 0 <= i < adj[u]@.len() ==> adj[#[trigger] adj[u]@[i] as int]@.contains(
            u as usize,
        )
}

/// Two walks that meet join into one.
pub proof fn lemma_reaches_trans(
    adj: Seq<Vec<usize>>,
    mark: Seq<usize>,
    is_pub: Seq<bool>,
    a: usize,
    b: usize,
    c: usize,
)
    requires
        reaches(adj, mark, is_pub, a, b),
        reaches(adj, mark, is_pub, b, c),
    ensures
        reaches(adj, mark, is_pub, a, c),
{
    let p = choose|p: Seq<usize>|
        #[trigger] is_open_walk(adj, mark, is_pub, p) && p[0] == a && p.last() == b;
    let q = choose|q: Seq<usize>|
        #[trigger] is_open_walk(adj, mark, is_pub, q) && q[0] == b && q.last() == c;
    let w = p + q.drop_first();
    assert forall|i: int| 0 <= i < w.len() implies open_vertex(mark, is_pub, #[trigger] w[i]) by {
        if i < p.len() {
            assert(w[i] == p[i]);
        } else {
            assert(w[i] == q[i - p.len() + 1]);
        }
    }
    assert forall|i: int| #![trigger w[i]] 0 <= i < w.len() - 1 implies (w[i] as int) < adj.len()
        && adj[w[i] as int]@.contains(w[i + 1]) by {
        if i < p.len() - 1 {
            assert(w[i] == p[i] && w[i + 1] == p[i + 1]);
        } else if i == p.len() - 1 {
            assert(w[i] == q[0] && w[i + 1] == q[1]);
        } else {
            let k = i - p.len() + 1;
            assert(w[i] == q[k] && w[i + 1] == q[k + 1]);
        }
    }
    if q.len() == 1 {
        assert(w.last() == p.last());
    } else {
        assert(w.last() == q.last());
    }
    assert(is_open_walk(adj, mark, is_pub, w));
}

/// A walk from a vertex of `1..=n` stays among the vertices `1..=n`.
pub proof fn lemma_walk_in_range(
    adj: Seq<Vec<usize>>,
    mark: Seq<usize>,
    is_pub: Seq<bool>,
    n: nat,
    p: Seq<usize>,
)
    requires
        graph_wf(adj, n as int),
        mark.len() == n + 1,
        is_open_walk(adj, mark, is_pub, p),
        1 <= p[0],
    ensures
        forall|i: int| 0 <= i < p.len() ==> 1 <= #[trigger] p[i] <= n,
    decreases p.len(),
{
    if p.len() > 1 {
        let k = p.len() - 1;
        lemma_walk_prefix(adj, mark, is_pub, p, k);
        let q = p.take(k);
        lemma_walk_in_range(adj, mark, is_pub, n, q);
        assert(q[k - 1] == p[k - 1]);
        let prev = p[k - 1];
        assert(adj[prev as int]@.contains(p[k]));
        let j = choose|j: int| 0 <= j < adj[prev as int]@.len() && adj[prev as int]@[j] == p[k];
        assert(open_vertex(mark, is_pub, p[k]));
        assert forall|i: int| 0 <= i < p.len() implies 1 <= #[trigger] p[i] <= n by {
            if i < k {
                assert(q[i] == p[i]);
            }
        }
    } else {
        assert(open_vertex(mark, is_pub, p[0]));
    }
}

/// On a symmetric graph a walk runs backwards too.
pub proof fn lemma_reaches_sym(
    adj: Seq<Vec<usize>>,
    mark: Seq<usize>,
    is_pub: Seq<bool>,
    n: nat,
    a: usize,
    b: usize,
)
    requires
        symmetric(adj, n),
        graph_wf(adj, n as int),
        mark.len() == n + 1,
        1 <= a,
        reaches(adj, mark, is_pub, a, b),
    ensures
        reaches(adj, mark, is_pub, b, a),
{
    let p = choose|p: Seq<usize>|
        #[trigger] is_open_walk(adj, mark, is_pub, p) && p[0] == a && p.last() == b;
    lemma_walk_in_range(adj, mark, is_pub, n, p);
    let len = p.len();
    let q = Seq::new(len, |i: int| p[len - 1 - i]);
    assert forall|i: int| 0 <= i < q.len() implies open_vertex(mark, is_pub, #[trigger] q[i]) by {
        assert(q[i] == p[len - 1 - i]);
    }
    assert forall|i: int| #![trigger q[i]] 0 <= i < q.len() - 1 implies (q[i] as int) < adj.len()
        && adj[q[i] as int]@.contains(q[i + 1]) by {
        let j = len - 2 - i;
        assert(q[i] == p[j + 1] && q[i + 1] == p[j]);
        assert(open_vertex(mark, is_pub, p[j]));
        assert(1 <= p[j]);
        assert(adj[p[j] as int]@.contains(p[j + 1]));
        let k = choose|k: int| 0 <= k < adj[p[j] as int]@.len() && adj[p[j] as int]@[k] == p[j + 1];
        assert(adj[adj[p[j] as int]@[k] as int]@.contains(p[j]));
    }
    assert(q[0] == b && q.last() == a);
    assert(is_open_walk(adj, mark, is_pub, q));
}

/// A walk whose vertices are all open under other labels is an open walk there.
pub proof fn lemma_walk_transfer(
    adj: Seq<Vec<usize>>,
    m1: Seq<usize>,
    m2: Seq<usize>,
    is_pub: Seq<bool>,
    p: Seq<usize>,
)
    requires
        is_open_walk(adj, m1, is_pub, p),
        forall|i: int| 0 <= i < p.len() ==> open_vertex(m2, is_pub, #[trigger] p[i]),
    ensures
        is_open_walk(adj, m2, is_pub, p),
{
}

/// The first `k` elements of a walk are a walk.
pub proof fn lemma_walk_prefix(adj: Seq<Vec<usize>>, mark: Seq<usize>, is_pub: Seq<bool>, p: Seq<usize>, k: int)
    requires
        is_open_walk(adj, mark, is_pub, p),
        1 <= k <= p.len(),
    ensures
        is_open_walk(adj, mark, is_pub, p.take(k)),
{
    let q = p.take(k);
    assert forall|i: int| 0 <= i < q.len() implies open_vertex(mark, is_pub, #[trigger] q[i]) by {
        assert(q[i] == p[i]);
    }
    assert forall|i: int| #![trigger q[i]] 0 <= i < q.len() - 1 implies (q[i] as int) < adj.len()
        && adj[q[i] as int]@.contains(q[i + 1]) by {
        assert(q[i] == p[i] && q[i + 1] == p[i + 1]);
    }
}

/// A labelled vertex keeps its label through later searches.
pub proof fn lemma_label_kept(adj: Seq<Vec<usize>>, is_pub: Seq<bool>, n: nat, k: nat, k2: nat, w: int)
    requires
        k <= k2 <= n,
        n < usize::MAX,
        0 <= w <= n,
        labels_after(adj, is_pub, n, k)[w] != 0,
    ensures
        labels_after(adj, is_pub, n, k2)[w] == labels_after(adj, is_pub, n, k)[w],
    decreases k2,
{
    lemma_labels_len(adj, is_pub, n, k2);
    if k2 > k {
        let k1 = (k2 - 1) as nat;
        lemma_label_kept(adj, is_pub, n, k, k1, w);
        lemma_labels_len(adj, is_pub, n, k1);
        let prev = labels_after(adj, is_pub, n, k1);
        if open_vertex(prev, is_pub, k2 as usize) {
            let rs = reach_set(adj, prev, is_pub, k2 as usize);
            if rs.contains(w as usize) {
                let p = choose|p: Seq<usize>|
                    #[trigger] is_open_walk(adj, prev, is_pub, p) && p[0] == k2 as usize && p.last()
                        == w as usize;
                assert(open_vertex(prev, is_pub, p[p.len() - 1]));
            }
        }
    }
}

/// A vertex labelled `l` was labelled by the search from `l`, which reached it.
pub proof fn lemma_label_origin(adj: Seq<Vec<usize>>, is_pub: Seq<bool>, n: nat, k: nat, w: int)
    requires
        k <= n < usize::MAX,
        0 <= w <= n,
        labels_after(adj, is_pub, n, k)[w] != 0,
    ensures
        ({
            let l = labels_after(adj, is_pub, n, k)[w];
            &&& 1 <= l <= k
            &&& labels_after(adj, is_pub, n, (l - 1) as nat)[w] == 0
            &&& labels_after(adj, is_pub, n, l as nat)[w] == l
            &&& open_vertex(labels_after(adj, is_pub, n, (l - 1) as nat), is_pub, l)
            &&& reach_set(adj, labels_after(adj, is_pub, n, (l - 1) as nat), is_pub, l).contains(
                w as usize,
            )
        }),
    decreases k,
{
    lemma_labels_len(adj, is_pub, n, k);
    if k > 0 {
        let k1 = (k - 1) as nat;
        lemma_labels_len(adj, is_pub, n, k1);
        let prev = labels_after(adj, is_pub, n, k1);
        if prev[w] != 0 {
            lemma_label_origin(adj, is_pub, n, k1, w);
            lemma_label_kept(adj, is_pub, n, k1, k, w);
        } else {
            assert(open_vertex(prev, is_pub, k as usize));
        }
    }
}

/// Some public vertex of `1..=k` reaches `w` through public vertices.
pub open spec fn reached_by_some(adj: Seq<Vec<usize>>, is_pub: Seq<bool>, n: nat, k: nat, w: usize) -> bool {
    exists|s: usize| 1 <= s <= k && #[trigger] public_reach(adj, is_pub, n, s, w)
}

/// A public vertex reaches itself.
pub proof fn lemma_public_reach_refl(adj: Seq<Vec<usize>>, is_pub: Seq<bool>, n: nat, w: usize)
    requires
        w <= n,
        (w as int) < is_pub.len(),
        is_pub[w as int],
    ensures
        public_reach(adj, is_pub, n, w, w),
{
    let p = seq![w];
    assert(is_open_walk(adj, unlabelled(n), is_pub, p));
}

/// Law: a second search from the same vertex changes nothing. After a search
/// from `s`, a search from `s` again labels no vertex and leaves the labels as
/// the first search left them.
pub proof fn lemma_bfs_repeat(adj: Seq<Vec<usize>>, is_pub: Seq<bool>, mark: Seq<usize>, s: usize)
    requires
        1 <= s,
    ensures
        bfs_marks(adj, bfs_marks(adj, mark, is_pub, s), is_pub, s) == bfs_marks(adj, mark, is_pub, s),
        bfs_count(adj, bfs_marks(adj, mark, is_pub, s), is_pub, s) == 0,
{
    let after = bfs_marks(adj, mark, is_pub, s);
    if open_vertex(mark, is_pub, s) {
        let p = seq![s];
        assert(is_open_walk(adj, mark, is_pub, p));
        assert(reach_set(adj, mark, is_pub, s).contains(s));
        assert(after[s as int] == s);
    }
    assert(!open_vertex(after, is_pub, s));
}

/// A walk open under some labels is a walk through public vertices.
pub proof fn lemma_reach_set_public(
    adj: Seq<Vec<usize>>,
    is_pub: Seq<bool>,
    n: nat,
    mark: Seq<usize>,
    s: usize,
    t: usize,
)
    requires
        mark.len() == n + 1,
        reach_set(adj, mark, is_pub, s).contains(t),
    ensures
        public_reach(adj, is_pub, n, s, t),
{
    let p = choose|p: Seq<usize>|
        #[trigger] is_open_walk(adj, mark, is_pub, p) && p[0] == s && p.last() == t;
    lemma_walk_transfer(adj, mark, unlabelled(n), is_pub, p);
}

/// On a symmetric graph, after the searches from `1..=k` exactly the vertices
/// that some public `s` in `1..=k` reaches through public vertices are labelled.
pub proof fn lemma_labelled_iff(adj: Seq<Vec<usize>>, is_pub: Seq<bool>, n: nat, k: nat)
    requires
        symmetric(adj, n),
        graph_wf(adj, n as int),
        k <= n < usize::MAX,
    ensures
        forall|w: int|
            0 <= w <= n ==> (#[trigger] labels_after(adj, is_pub, n, k)[w] != 0 <==> reached_by_some(adj, is_pub, n, k, w as usize)),
    decreases k,
{
    lemma_labels_len(adj, is_pub, n, k);
    if k == 0 {
        assert forall|w: int| 0 <= w <= n implies (#[trigger] labels_after(adj, is_pub, n, k)[w]
            != 0 <==> reached_by_some(adj, is_pub, n, k, w as usize)) by {
        }
    } else {
        let k1 = (k - 1) as nat;
        lemma_labelled_iff(adj, is_pub, n, k1);
        lemma_labels_len(adj, is_pub, n, k1);
        let prev = labels_after(adj, is_pub, n, k1);
        let ku = k as usize;
        assert forall|w: int| 0 <= w <= n implies (#[trigger] labels_after(adj, is_pub, n, k)[w]
            != 0 <==> reached_by_some(adj, is_pub, n, k, w as usize)) by {
            let wu = w as usize;
            if prev[w] != 0 {
                lemma_label_kept(adj, is_pub, n, k1, k, w);
                let s = choose|s: usize| 1 <= s <= k1 && public_reach(adj, is_pub, n, s, wu);
                assert(1 <= s <= k && public_reach(adj, is_pub, n, s, wu));
            } else {
                if public_reach(adj, is_pub, n, ku, wu) {
                    lemma_search_covers(adj, is_pub, n, k, wu);
                    assert(reach_set(adj, prev, is_pub, ku).contains(wu));
                    assert(open_vertex(prev, is_pub, wu));
                }
                if labels_after(adj, is_pub, n, k)[w] != 0 {
                    assert(open_vertex(prev, is_pub, ku));
                    assert(reach_set(adj, prev, is_pub, ku).contains(wu));
                    lemma_reach_set_public(adj, is_pub, n, prev, ku, wu);
                }
                if reached_by_some(adj, is_pub, n, k, wu) {
                    let s = choose|s: usize| 1 <= s <= k && public_reach(adj, is_pub, n, s, wu);
                    if s < k {
                        assert(prev[w] != 0);
                    }
                }
            }
        }
    }
}

/// On a symmetric graph, when the searches from `1..k - 1` have labelled
/// exactly what the public vertices among them reach, the search from `k`
/// reaches every vertex of its public component, and `k` is unlabelled when
/// it reaches anything.
pub proof fn lemma_search_covers(adj: Seq<Vec<usize>>, is_pub: Seq<bool>, n: nat, k: nat, t: usize)
    requires
        symmetric(adj, n),
        graph_wf(adj, n as int),
        1 <= k <= n < usize::MAX,
        forall|w: int|
            0 <= w <= n ==> (#[trigger] labels_after(adj, is_pub, n, (k - 1) as nat)[w] != 0
                <==> reached_by_some(adj, is_pub, n, (k - 1) as nat, w as usize)),
        public_reach(adj, is_pub, n, k as usize, t),
        labels_after(adj, is_pub, n, (k - 1) as nat)[t as int] == 0 || open_vertex(
            labels_after(adj, is_pub, n, (k - 1) as nat),
            is_pub,
            k as usize,
        ),
    ensures
        open_vertex(labels_after(adj, is_pub, n, (k - 1) as nat), is_pub, k as usize),
        reach_set(adj, labels_after(adj, is_pub, n, (k - 1) as nat), is_pub, k as usize).contains(t),
{
    let k1 = (k - 1) as nat;
    let ku = k as usize;
    lemma_labels_len(adj, is_pub, n, k1);
    let prev = labels_after(adj, is_pub, n, k1);
    let z = unlabelled(n);
    let p = choose|p: Seq<usize>| #[trigger] is_open_walk(adj, z, is_pub, p) && p[0] == ku && p.last() == t;
    assert(open_vertex(z, is_pub, p[0]));
    if prev[k as int] != 0 {
        let s = choose|s: usize| 1 <= s <= k - 1 && public_reach(adj, is_pub, n, s, ku);
        lemma_reaches_trans(adj, z, is_pub, s, ku, t);
        assert(open_vertex(z, is_pub, p[p.len() - 1]));
        assert(public_reach(adj, is_pub, n, s, t));
        assert(reached_by_some(adj, is_pub, n, k1, t));
        assert(prev[t as int] != 0);
        assert(false);
    }
    assert forall|i: int| 0 <= i < p.len() implies open_vertex(prev, is_pub, #[trigger] p[i]) by {
        assert(open_vertex(z, is_pub, p[i]));
        if prev[p[i] as int] != 0 {
            let s = choose|s: usize| 1 <= s <= k - 1 && public_reach(adj, is_pub, n, s, p[i]);
            lemma_walk_prefix(adj, z, is_pub, p, i + 1);
            assert(p.take(i + 1).last() == p[i]);
            assert(public_reach(adj, is_pub, n, ku, p[i]));
            lemma_reaches_sym(adj, z, is_pub, n, ku, p[i]);
            lemma_reaches_trans(adj, z, is_pub, s, p[i], ku);
            assert(public_reach(adj, is_pub, n, s, ku));
            assert(reached_by_some(adj, is_pub, n, k1, ku));
            assert(prev[k as int] != 0);
        }
    }
    lemma_walk_transfer(adj, z, prev, is_pub, p);
}

/// Law (the tie rule of `find_lpc`): the root of the largest public
/// component is the first vertex whose search labelled the most vertices. No
/// search labelled more, every earlier search labelled fewer, so among equally
/// large searches the smallest root wins; with no search labelling anything
/// the root is 0.
pub proof fn lemma_best_root(adj: Seq<Vec<usize>>, is_pub: Seq<bool>, n: nat, k: nat)
    requires
        k <= usize::MAX,
    ensures
        forall|j: nat| 1 <= j <= k ==> #[trigger] search_size(adj, is_pub, n, j) <= best_root(
            adj,
            is_pub,
            n,
            k,
        ).1,
        best_root(adj, is_pub, n, k).1 == 0 ==> best_root(adj, is_pub, n, k).0 == 0,
        best_root(adj, is_pub, n, k).1 > 0 ==> {
            let r = best_root(adj, is_pub, n, k).0;
            &&& 1 <= r <= k
            &&& search_size(adj, is_pub, n, r as nat) == best_root(adj, is_pub, n, k).1
            &&& forall|j: nat| 1 <= j < r ==> #[trigger] search_size(adj, is_pub, n, j)
                < best_root(adj, is_pub, n, k).1
        },
    decreases k,
{
    if k > 0 {
        let k1 = (k - 1) as nat;
        lemma_best_root(adj, is_pub, n, k1);
        let prev = best_root(adj, is_pub, n, k1);
        let c = search_size(adj, is_pub, n, k);
        let cur = best_root(adj, is_pub, n, k);
        if c > prev.1 {
            assert forall|j: nat| 1 <= j < k implies #[trigger] search_size(adj, is_pub, n, j)
                < cur.1 by {
                assert(search_size(adj, is_pub, n, j) <= prev.1);
            }
        }
        assert forall|j: nat| 1 <= j <= k implies #[trigger] search_size(adj, is_pub, n, j)
            <= cur.1 by {
            if j < k {
                assert(search_size(adj, is_pub, n, j) <= prev.1);
            }
        }
    }
}

/// The ordered list of the vertices of `1..=k` with a given label holds
/// exactly them, each once.
pub proof fn lemma_labelled_with(labels: Seq<usize>, root: usize, k: nat)
    requires
        k <= usize::MAX,
    ensures
        forall|x: usize| #[trigger]
            labelled_with(labels, root, k).contains(x) <==> 1 <= x <= k && labels[x as int] == root,
        forall|i: int, j: int|
            0 <= i < j < labelled_with(labels, root, k).len() ==> labelled_with(labels, root, k)[i]
                < labelled_with(labels, root, k)[j],
        forall|i: int|
            0 <= i < labelled_with(labels, root, k).len() ==> 1 <= #[trigger] labelled_with(
                labels,
                root,
                k,
            )[i] <= k,
    decreases k,
{
    if k > 0 {
        let k1 = (k - 1) as nat;
        lemma_labelled_with(labels, root, k1);
        let prev = labelled_with(labels, root, k1);
        let cur = labelled_with(labels, root, k);
        assert forall|x: usize| #[trigger] cur.contains(x) <==> 1 <= x <= k && labels[x as int]
            == root by {
            if x == k as usize && labels[x as int] == root {
                assert(cur[cur.len() - 1] == x);
            }
            if cur.contains(x) && x != k as usize {
                let i = choose|i: int| 0 <= i < cur.len() && cur[i] == x;
                if labels[k as int] == root {
                    assert(i < cur.len() - 1);
                    assert(prev[i] == x);
                }
            }
            if prev.contains(x) {
                let i = choose|i: int| 0 <= i < prev.len() && prev[i] == x;
                assert(cur[i] == x);
            }
        }
    }
}

/// Law: every vertex of the largest public component is a public vertex of
/// `1..=n` that its root reaches through public vertices (when some vertex is
/// public; with none public every vertex is listed).
pub proof fn lemma_lpc_members(adj: Seq<Vec<usize>>, is_pub: Seq<bool>, n: nat, i: int)
    requires
        n < usize::MAX,
        best_root(adj, is_pub, n, n).1 > 0,
        0 <= i < largest_public_component(adj, is_pub, n).len(),
    ensures
        ({
            let r = best_root(adj, is_pub, n, n).0;
            let w = largest_public_component(adj, is_pub, n)[i];
            &&& 1 <= r <= n
            &&& 1 <= w <= n
            &&& is_pub[w as int]
            &&& public_reach(adj, is_pub, n, r, w)
        }),
{
    let r = best_root(adj, is_pub, n, n).0;
    let labels = labels_after(adj, is_pub, n, n);
    let lpc = largest_public_component(adj, is_pub, n);
    let w = lpc[i];
    lemma_best_root(adj, is_pub, n, n);
    lemma_labelled_with(labels, r, n);
    assert(lpc.contains(w));
    lemma_labels_len(adj, is_pub, n, n);
    lemma_label_origin(adj, is_pub, n, n, w as int);
    let prev = labels_after(adj, is_pub, n, (r - 1) as nat);
    lemma_labels_len(adj, is_pub, n, (r - 1) as nat);
    lemma_reach_set_public(adj, is_pub, n, prev, r, w);
    let p = choose|p: Seq<usize>|
        #[trigger] is_open_walk(adj, prev, is_pub, p) && p[0] == r && p.last() == w;
    assert(open_vertex(prev, is_pub, p[p.len() - 1]));
}

/// Law: on an undirected graph (every edge listed both ways) with some public
/// vertex, the largest public component holds exactly the vertices of `1..=n`
/// that its root reaches through public vertices.
pub proof fn lemma_lpc_is_component(adj: Seq<Vec<usize>>, is_pub: Seq<bool>, n: nat)
    requires
        symmetric(adj, n),
        graph_wf(adj, n as int),
        n < usize::MAX,
        best_root(adj, is_pub, n, n).1 > 0,
    ensures
        forall|w: usize|
            1 <= w <= n ==> (#[trigger] largest_public_component(adj, is_pub, n).contains(w)
                <==> public_reach(adj, is_pub, n, best_root(adj, is_pub, n, n).0, w)),
{
    let r = best_root(adj, is_pub, n, n).0;
    let labels = labels_after(adj, is_pub, n, n);
    let lpc = largest_public_component(adj, is_pub, n);
    lemma_best_root(adj, is_pub, n, n);
    lemma_labelled_with(labels, r, n);
    lemma_labels_len(adj, is_pub, n, n);
    let rn = r as nat;
    assert(search_size(adj, is_pub, n, rn) > 0);
    let prev = labels_after(adj, is_pub, n, (rn - 1) as nat);
    assert(open_vertex(prev, is_pub, r));
    assert forall|w: usize| 1 <= w <= n implies (#[trigger] lpc.contains(w) <==> public_reach(
        adj,
        is_pub,
        n,
        r,
        w,
    )) by {
        if lpc.contains(w) {
            let i = choose|i: int| 0 <= i < lpc.len() && lpc[i] == w;
            lemma_lpc_members(adj, is_pub, n, i);
        }
        if public_reach(adj, is_pub, n, r, w) {
            lemma_labelled_iff(adj, is_pub, n, (rn - 1) as nat);
            lemma_search_covers(adj, is_pub, n, rn, w);
            lemma_labels_len(adj, is_pub, n, rn);
            lemma_labels_len(adj, is_pub, n, (rn - 1) as nat);
            assert(labels_after(adj, is_pub, n, rn)[w as int] == r);
            lemma_label_kept(adj, is_pub, n, rn, n, w as int);
        }
    }
}

/// Law: on an undirected graph, no public vertex of `1..=n` lies in a public
/// component with more members than the one `find_lpc` returns, whose
/// component has exactly the number of members its search counted.
pub proof fn lemma_lpc_is_largest(adj: Seq<Vec<usize>>, is_pub: Seq<bool>, n: nat, w: usize)
    requires
        symmetric(adj, n),
        graph_wf(adj, n as int),
        n < usize::MAX,
        n + 1 <= is_pub.len(),
        1 <= w <= n,
        is_pub[w as int],
    ensures
        best_root(adj, is_pub, n, n).1 > 0,
        public_component(adj, is_pub, n, best_root(adj, is_pub, n, n).0).len() == best_root(
            adj,
            is_pub,
            n,
            n,
        ).1,
        public_component(adj, is_pub, n, w).len() <= best_root(adj, is_pub, n, n).1,
{
    lemma_best_root(adj, is_pub, n, n);
    lemma_labels_len(adj, is_pub, n, n);
    lemma_labelled_iff(adj, is_pub, n, n);
    lemma_public_reach_refl(adj, is_pub, n, w);
    assert(labels_after(adj, is_pub, n, n)[w as int] != 0);
    lemma_label_origin(adj, is_pub, n, n, w as int);
    let l = labels_after(adj, is_pub, n, n)[w as int];
    lemma_component_is_search(adj, is_pub, n, l as nat);
    let prev = labels_after(adj, is_pub, n, (l - 1) as nat);
    lemma_labels_len(adj, is_pub, n, (l - 1) as nat);
    lemma_reach_set_public(adj, is_pub, n, prev, l, w);
    let z = unlabelled(n);
    assert(public_component(adj, is_pub, n, w) =~= public_component(adj, is_pub, n, l)) by {
        assert forall|t: usize| public_component(adj, is_pub, n, w).contains(t)
            <==> public_component(adj, is_pub, n, l).contains(t) by {
            if public_reach(adj, is_pub, n, w, t) {
                lemma_reaches_trans(adj, z, is_pub, l, w, t);
            }
            if public_reach(adj, is_pub, n, l, t) {
                lemma_reaches_sym(adj, z, is_pub, n, l, w);
                lemma_reaches_trans(adj, z, is_pub, w, l, t);
            }
        }
    }
    assert(search_size(adj, is_pub, n, l as nat) > 0) by {
        assert(reach_set(adj, prev, is_pub, l).contains(w));
        lemma_reach_set_finite(adj, prev, is_pub, l);
    }
    let r = best_root(adj, is_pub, n, n).0;
    lemma_component_is_search(adj, is_pub, n, r as nat);
}

/// The vertices a search may reach are all labels' indices, so finitely many.
pub proof fn lemma_reach_set_finite(adj: Seq<Vec<usize>>, mark: Seq<usize>, is_pub: Seq<bool>, s: usize)
    requires
        mark.len() <= usize::MAX,
    ensures
        reach_set(adj, mark, is_pub, s).finite(),
{
    let rs = reach_set(adj, mark, is_pub, s);
    let range = Set::<usize>::range(0, mark.len() as usize);
    <usize as vstd::set_lib::FiniteRange>::range_properties(0, mark.len() as usize);
    assert forall|t: usize| rs.contains(t) implies range.contains(t) by {
        let p = choose|p: Seq<usize>|
            #[trigger] is_open_walk(adj, mark, is_pub, p) && p[0] == s && p.last() == t;
        assert(open_vertex(mark, is_pub, p[p.len() - 1]));
    }
    vstd::set_lib::lemma_len_subset(rs, range);
}

/// On an undirected graph, a search from `l` that labels anything labels the
/// whole public component of `l`, and counts its members.
pub proof fn lemma_component_is_search(adj: Seq<Vec<usize>>, is_pub: Seq<bool>, n: nat, l: nat)
    requires
        symmetric(adj, n),
        graph_wf(adj, n as int),
        1 <= l <= n < usize::MAX,
        open_vertex(labels_after(adj, is_pub, n, (l - 1) as nat), is_pub, l as usize),
    ensures
        public_component(adj, is_pub, n, l as usize) == reach_set(
            adj,
            labels_after(adj, is_pub, n, (l - 1) as nat),
            is_pub,
            l as usize,
        ),
        public_component(adj, is_pub, n, l as usize).len() == search_size(adj, is_pub, n, l),
{
    let prev = labels_after(adj, is_pub, n, (l - 1) as nat);
    lemma_labels_len(adj, is_pub, n, (l - 1) as nat);
    lemma_labelled_iff(adj, is_pub, n, (l - 1) as nat);
    let lu = l as usize;
    assert(public_component(adj, is_pub, n, lu) =~= reach_set(adj, prev, is_pub, lu)) by {
        assert forall|t: usize| public_component(adj, is_pub, n, lu).contains(t) <==> reach_set(
            adj,
            prev,
            is_pub,
            lu,
        ).contains(t) by {
            if public_reach(adj, is_pub, n, lu, t) {
                lemma_search_covers(adj, is_pub, n, l, t);
            }
            if reach_set(adj, prev, is_pub, lu).contains(t) {
                lemma_reach_set_public(adj, is_pub, n, prev, lu, t);
            }
        }
    }
}

/// Law: on an undirected graph with some public vertex, the largest public
/// component lists as many vertices as its search counted, which no public
/// component exceeds.
pub proof fn lemma_lpc_len(adj: Seq<Vec<usize>>, is_pub: Seq<bool>, n: nat)
    requires
        symmetric(adj, n),
        graph_wf(adj, n as int),
        n < usize::MAX,
        best_root(adj, is_pub, n, n).1 > 0,
    ensures
        largest_public_component(adj, is_pub, n).len() == best_root(adj, is_pub, n, n).1,
{
    let r = best_root(adj, is_pub, n, n).0;
    let labels = labels_after(adj, is_pub, n, n);
    let lpc = largest_public_component(adj, is_pub, n);
    lemma_best_root(adj, is_pub, n, n);
    lemma_labelled_with(labels, r, n);
    lemma_lpc_is_component(adj, is_pub, n);
    let rn = r as nat;
    let prev = labels_after(adj, is_pub, n, (rn - 1) as nat);
    lemma_labels_len(adj, is_pub, n, (rn - 1) as nat);
    assert(open_vertex(prev, is_pub, r));
    lemma_component_is_search(adj, is_pub, n, rn);
    let comp = public_component(adj, is_pub, n, r);
    assert(lpc.to_set() =~= comp) by {
        assert forall|t: usize| lpc.to_set().contains(t) <==> comp.contains(t) by {
            if comp.contains(t) {
                let p = choose|p: Seq<usize>|
                    #[trigger] is_open_walk(adj, unlabelled(n), is_pub, p) && p[0] == r && p.last()
                        == t;
                lemma_walk_in_range(adj, unlabelled(n), is_pub, n, p);
                assert(p[p.len() - 1] == t);
                assert(1 <= t <= n);
                assert(lpc.contains(t));
            }
            if lpc.contains(t) {
                assert(1 <= t <= n);
            }
        }
    }
    assert(lpc.no_duplicates());
    lpc.unique_seq_to_set();
}

} // verus!
