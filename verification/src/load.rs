//! Building adjacency lists from an edge list whose endpoints carry arbitrary
//! ids: ids are relabelled `1, 2, ...` in order of first appearance.
use vstd::prelude::*;
use std::collections::HashMap;
use crate::graph::graph_wf;
use crate::component_laws::symmetric;

verus! {

broadcast use vstd::std_specs::hash::group_hash_axioms;

/// Why the edges were not loaded.
#[derive(Debug, Clone, Copy, PartialEq, Eq, Structural)]
pub enum LoadError {
    /// The edges name more distinct ids than there are adjacency lists after list 0.
    TooManyVertices,
}

/// The endpoints of the edges in order: `u0, v0, u1, v1, ...`.
pub open spec fn endpoints(edges: Seq<(usize, usize)>) -> Seq<usize>
    decreases edges.len(),
{
    if edges.len() == 0 {
        Seq::empty()
    } else {
        endpoints(edges.drop_last()) + seq![edges.last().0, edges.last().1]
    }
}

/// How many distinct ids `ids` holds.
pub open spec fn distinct_count(ids: Seq<usize>) -> nat
    decreases ids.len(),
{
    if ids.len() == 0 {
        0
    } else {
        let prev = ids.drop_last();
        if first_labels(prev).contains_key(ids.last()) {
            distinct_count(prev)
        } else {
            distinct_count(prev) + 1
        }
    }
}

/// The label of each id of `ids`: its rank among the distinct ids in order of
/// first appearance, counting from 1.
pub open spec fn first_labels(ids: Seq<usize>) -> Map<usize, usize>
    decreases ids.len(),
{
    if ids.len() == 0 {
        Map::empty()
    } else {
        let prev = ids.drop_last();
        let m = first_labels(prev);
        if m.contains_key(ids.last()) {
            m
        } else {
            m.insert(ids.last(), (distinct_count(prev) + 1) as usize)
        }
    }
}

/// The adjacency lists as sequences.
pub open spec fn rows(adj: Seq<Vec<usize>>) -> Seq<Seq<usize>> {
    Seq::new(adj.len(), |i: int| adj[i]@)
}

/// The lists after adding each edge `(u, v)` in order: the label of `v` is
/// appended to the list of the label of `u`, and, unless `bi_edge` (the data
/// lists both directions itself), the label of `u` to the list of the label of `v`.
pub open spec fn with_edges(
    lists: Seq<Seq<usize>>,
    edges: Seq<(usize, usize)>,
    labels: Map<usize, usize>,
    bi_edge: bool,
) -> Seq<Seq<usize>>
    decreases edges.len(),
{
    if edges.len() == 0 {
        lists
    } else {
        let before = with_edges(lists, edges.drop_last(), labels, bi_edge);
        let lu = labels[edges.last().0] as int;
        let lv = labels[edges.last().1] as int;
        let once = before.update(lu, before[lu].push(lv as usize));
        if bi_edge {
            once
        } else {
            once.update(lv, once[lv].push(lu as usize))
        }
    }
}

/// The endpoints of a prefix of the edges are a prefix of the endpoints.
pub proof fn lemma_endpoints_prefix(edges: Seq<(usize, usize)>, i: int)
    requires
        0 <= i <= edges.len(),
    ensures
        endpoints(edges).len() == 2 * edges.len(),
        endpoints(edges.take(i)) =~= endpoints(edges).take(2 * i),
    decreases edges.len(),
{
    if edges.len() > 0 {
        let prev = edges.drop_last();
        if i < edges.len() {
            lemma_endpoints_prefix(prev, i);
            assert(prev.take(i) =~= edges.take(i));
        } else {
            lemma_endpoints_prefix(prev, 0);
            assert(edges.take(i) =~= edges);
        }
    }
}

/// The endpoints of edge `i` sit at positions `2 * i` and `2 * i + 1`.
pub proof fn lemma_edge_endpoints(edges: Seq<(usize, usize)>, i: int)
    requires
        0 <= i < edges.len(),
    ensures
        endpoints(edges).len() == 2 * edges.len(),
        endpoints(edges)[2 * i] == edges[i].0,
        endpoints(edges)[2 * i + 1] == edges[i].1,
    decreases edges.len(),
{
    lemma_endpoints_prefix(edges, 0);
    let prev = edges.drop_last();
    if i < edges.len() - 1 {
        lemma_edge_endpoints(prev, i);
    } else {
        lemma_endpoints_prefix(prev, 0);
    }
}

/// Every id that occurs has a label between 1 and the number of distinct ids,
/// and only ids that occur have one.
pub proof fn lemma_labels_range(ids: Seq<usize>)
    requires
        distinct_count(ids) < usize::MAX,
    ensures
        forall|x: usize| #[trigger] first_labels(ids).contains_key(x) <==> ids.contains(x),
        forall|x: usize|
            #[trigger] first_labels(ids).contains_key(x) ==> 1 <= first_labels(ids)[x]
                <= distinct_count(ids),
    decreases ids.len(),
{
    if ids.len() > 0 {
        let prev = ids.drop_last();
        let last = ids.last();
        let m = first_labels(prev);
        assert(distinct_count(prev) <= distinct_count(ids));
        lemma_labels_range(prev);
        assert forall|x: usize| #[trigger] first_labels(ids).contains_key(x) <==> ids.contains(x) by {
            if x == last {
                assert(ids[ids.len() - 1] == x);
            } else {
                assert(first_labels(ids).contains_key(x) <==> m.contains_key(x));
                if prev.contains(x) {
                    let k = choose|k: int| 0 <= k < prev.len() && prev[k] == x;
                    assert(ids[k] == x);
                }
                if ids.contains(x) {
                    let k = choose|k: int| 0 <= k < ids.len() && ids[k] == x;
                    assert(k < ids.len() - 1);
                    assert(prev[k] == x);
                }
            }
        }
    }
}

/// Adding ids never lowers the number of distinct ones.
pub proof fn lemma_distinct_prefix(ids: Seq<usize>, k: int)
    requires
        0 <= k <= ids.len(),
    ensures
        distinct_count(ids.take(k)) <= distinct_count(ids),
    decreases ids.len(),
{
    if k == ids.len() {
        assert(ids.take(k) =~= ids);
    } else {
        let prev = ids.drop_last();
        lemma_distinct_prefix(prev, k);
        assert(prev.take(k) =~= ids.take(k));
    }
}

/// Appends the edges to the adjacency lists, relabelling the ids `1, 2, ...`
/// in order of first appearance (`u` before `v` within an edge). Returns the
/// number of distinct ids. When the lists `1..=n` would not all exist, nothing
/// is appended and the error says so.
pub fn load_edges(adj: &mut Vec<Vec<usize>>, edges: &Vec<(usize, usize)>, bi_edge: bool) -> (res:
    Result<usize, LoadError>)
    ensures
        res is Ok <==> (distinct_count(endpoints(edges@)) < old(adj)@.len() || distinct_count(
            endpoints(edges@),
        ) == 0),
        match res {
            Ok(n) => {
                &&& n == distinct_count(endpoints(edges@))
                &&& final(adj)@.len() == old(adj)@.len()
                &&& rows(final(adj)@) == with_edges(
                    rows(old(adj)@),
                    edges@,
                    first_labels(endpoints(edges@)),
                    bi_edge,
                )
            },
            Err(_) => final(adj)@ == old(adj)@,
        },
{
    let ghost ids = endpoints(edges@);
    proof {
        lemma_endpoints_prefix(edges@, edges@.len() as int);
        assert(ids.take(0) =~= Seq::<usize>::empty());
        assert(edges@.take(edges@.len() as int) =~= edges@);
    }
    let slots = adj.len();
    let mut idx: HashMap<usize, usize> = HashMap::new();
    let mut num: usize = 0;
    let mut i: usize = 0;
    while i < edges.len()
        invariant
            i <= edges@.len(),
            ids == endpoints(edges@),
            ids.len() == 2 * edges@.len(),
            slots == adj@.len(),
            adj@ == old(adj)@,
            idx@ == first_labels(ids.take(2 * i)),
            num == distinct_count(ids.take(2 * i)),
            num < slots || num == 0,
        decreases edges@.len() - i,
    {
        let (u, v) = edges[i];
        proof {
            lemma_edge_endpoints(edges@, i as int);
            assert(ids[2 * i] == u && ids[2 * i + 1] == v);
            assert(ids.take(2 * i + 1).drop_last() =~= ids.take(2 * i));
            assert(ids.take(2 * i + 2).drop_last() =~= ids.take(2 * i + 1));
        }
        if !idx.contains_key(&u) {
            if num + 1 >= slots {
                proof {
                    assert(ids.take(2 * i + 1).last() == u);
                    assert(distinct_count(ids.take(2 * i + 1)) == num + 1);
                    lemma_distinct_prefix(ids, 2 * i + 1);
                }
                return Err(LoadError::TooManyVertices);
            }
            num = num + 1;
            idx.insert(u, num);
        }
        proof {
            assert(ids.take(2 * i + 1).last() == u);
            assert(idx@ =~= first_labels(ids.take(2 * i + 1)));
            assert(num == distinct_count(ids.take(2 * i + 1)));
        }
        if !idx.contains_key(&v) {
            if num + 1 >= slots {
                proof {
                    assert(ids.take(2 * i + 2).last() == v);
                    assert(distinct_count(ids.take(2 * i + 2)) == num + 1);
                    lemma_distinct_prefix(ids, 2 * i + 2);
                }
                return Err(LoadError::TooManyVertices);
            }
            num = num + 1;
            idx.insert(v, num);
        }
        proof {
            assert(ids.take(2 * i + 2).last() == v);
            assert(idx@ =~= first_labels(ids.take(2 * i + 2)));
            assert(num == distinct_count(ids.take(2 * i + 2)));
        }
        assert(ids.take(2 * (i + 1)) =~= ids.take(2 * i + 2));
        i = i + 1;
    }
    let ghost labels = idx@;
    proof {
        assert(num < usize::MAX);
        assert(ids.take(2 * edges@.len() as int) =~= ids);
        lemma_labels_range(ids);
        assert(edges@.take(0) =~= Seq::<(usize, usize)>::empty());
        assert(rows(adj@) == with_edges(rows(old(adj)@), edges@.take(0), labels, bi_edge));
    }
    i = 0;
    while i < edges.len()
        invariant
            i <= edges@.len(),
            ids == endpoints(edges@),
            ids.len() == 2 * edges@.len(),
            labels == first_labels(ids),
            idx@ == labels,
            num == distinct_count(ids),
            num < slots || num == 0,
            num < usize::MAX,
            slots == adj@.len(),
            forall|x: usize| #[trigger] labels.contains_key(x) <==> ids.contains(x),
            forall|x: usize| #[trigger] labels.contains_key(x) ==> 1 <= labels[x] <= num,
            rows(adj@) == with_edges(rows(old(adj)@), edges@.take(i as int), labels, bi_edge),
        decreases edges@.len() - i,
    {
        let (u, v) = edges[i];
        proof {
            lemma_edge_endpoints(edges@, i as int);
            assert(ids[2 * i] == u && ids[2 * i + 1] == v);
            assert(ids.contains(u) && ids.contains(v));
        }
        let lu = *idx.get(&u).unwrap();
        let lv = *idx.get(&v).unwrap();
        let ghost before = rows(adj@);
        adj[lu].push(lv);
        if !bi_edge {
            adj[lv].push(lu);
        }
        proof {
            assert(edges@.take(i + 1).drop_last() =~= edges@.take(i as int));
            assert(edges@.take(i + 1).last() == (u, v));
            assert(rows(adj@) =~= with_edges(
                rows(old(adj)@),
                edges@.take(i + 1),
                labels,
                bi_edge,
            ));
        }
        i = i + 1;
    }
    proof {
        assert(edges@.take(edges@.len() as int) =~= edges@);
    }
    Ok(num)
}

/// Some id has label `l`.
pub open spec fn has_label(labels: Map<usize, usize>, l: int) -> bool {
    exists|x: usize| #[trigger] labels.contains_key(x) && labels[x] == l
}

/// Law: relabelling is one-to-one onto `1..=count`: distinct ids get
/// distinct labels, and every number of `1..=count` is the label of some id.
pub proof fn lemma_labels_one_to_one(ids: Seq<usize>)
    requires
        distinct_count(ids) < usize::MAX,
    ensures
        forall|a: usize, b: usize|
            #[trigger] first_labels(ids).contains_key(a) && #[trigger] first_labels(ids).contains_key(
                b,
            ) && a != b ==> first_labels(ids)[a] != first_labels(ids)[b],
        forall|l: int| 1 <= l <= distinct_count(ids) ==> #[trigger] has_label(first_labels(ids), l),
    decreases ids.len(),
{
    if ids.len() > 0 {
        let prev = ids.drop_last();
        let x = ids.last();
        let m = first_labels(prev);
        let c = distinct_count(prev);
        assert(c <= distinct_count(ids));
        lemma_labels_one_to_one(prev);
        lemma_labels_range(prev);
        if !m.contains_key(x) {
            let cur = first_labels(ids);
            assert(cur == m.insert(x, (c + 1) as usize));
            assert forall|l: int| 1 <= l <= distinct_count(ids) implies #[trigger] has_label(cur, l) by {
                if l <= c {
                    assert(has_label(m, l));
                    let y = choose|y: usize| #[trigger] m.contains_key(y) && m[y] == l;
                    assert(cur.contains_key(y) && cur[y] == l);
                } else {
                    assert(cur.contains_key(x) && cur[x] == l);
                }
            }
        }
    }
}

/// Membership in the lists is symmetric: `u`'s list holds `w` exactly when
/// `w`'s list holds `u`.
pub open spec fn contains_symmetric(lists: Seq<Seq<usize>>) -> bool {
    forall|u: int, w: int|
        0 <= u < lists.len() && 0 <= w < lists.len() ==> (#[trigger] lists[u].contains(w as usize)
            <==> #[trigger] lists[w].contains(u as usize))
}

/// Every edge's endpoints have labels that index the lists.
pub open spec fn labels_index(lists: Seq<Seq<usize>>, edges: Seq<(usize, usize)>, labels: Map<usize, usize>) -> bool {
    forall|i: int|
        0 <= i < edges.len() ==> (labels[#[trigger] edges[i].0] as int) < lists.len()
            && (labels[edges[i].1] as int) < lists.len()
}

/// Adding edges in both directions keeps membership symmetric, and keeps
/// every entry at most `n` when every label is.
proof fn lemma_with_edges_symmetric(
    lists: Seq<Seq<usize>>,
    edges: Seq<(usize, usize)>,
    labels: Map<usize, usize>,
    n: nat,
)
    requires
        contains_symmetric(lists),
        labels_index(lists, edges, labels),
        lists.len() <= usize::MAX,
        forall|u: int, j: int| 0 <= u < lists.len() && 0 <= j < lists[u].len() ==> 1 <= #[trigger] lists[u][j] <= n,
        forall|i: int| 0 <= i < edges.len() ==> 1 <= labels[#[trigger] edges[i].0] <= n && 1 <= labels[edges[i].1] <= n,
    ensures
        with_edges(lists, edges, labels, false).len() == lists.len(),
        contains_symmetric(with_edges(lists, edges, labels, false)),
        forall|u: int, j: int|
            0 <= u < lists.len() && 0 <= j < with_edges(lists, edges, labels, false)[u].len() ==> 1
                <= #[trigger] with_edges(lists, edges, labels, false)[u][j] <= n,
    decreases edges.len(),
{
    if edges.len() > 0 {
        let e1 = edges.drop_last();
        assert forall|i: int| 0 <= i < e1.len() implies (labels[#[trigger] e1[i].0] as int) < lists.len()
            && (labels[e1[i].1] as int) < lists.len() by {
            assert(e1[i] == edges[i]);
        }
        assert forall|i: int| 0 <= i < e1.len() implies 1 <= labels[#[trigger] e1[i].0] <= n && 1 <= labels[e1[i].1] <= n by {
            assert(e1[i] == edges[i]);
        }
        lemma_with_edges_symmetric(lists, e1, labels, n);
        let before = with_edges(lists, e1, labels, false);
        let last = edges[edges.len() - 1];
        let lu = labels[last.0] as int;
        let lv = labels[last.1] as int;
        let once = before.update(lu, before[lu].push(lv as usize));
        let twice = once.update(lv, once[lv].push(lu as usize));
        assert(with_edges(lists, edges, labels, false) == twice);
        assert forall|u: int, x: usize| 0 <= u < lists.len() implies #[trigger] twice[u].contains(x)
            == (before[u].contains(x) || (u == lu && x == lv as usize) || (u == lv && x
            == lu as usize)) by {
            if u == lu && x == lv as usize {
                if u == lv {
                    assert(twice[u][twice[u].len() - 2] == x);
                } else {
                    assert(twice[u][twice[u].len() - 1] == x);
                }
            }
            if u == lv && x == lu as usize {
                assert(twice[u][twice[u].len() - 1] == x);
            }
            if before[u].contains(x) {
                let j = choose|j: int| 0 <= j < before[u].len() && before[u][j] == x;
                assert(twice[u][j] == x);
            }
            if twice[u].contains(x) {
                let j = choose|j: int| 0 <= j < twice[u].len() && twice[u][j] == x;
                if j < before[u].len() {
                    assert(before[u][j] == x);
                }
            }
        }
        assert forall|u: int, j: int| 0 <= u < lists.len() && 0 <= j < twice[u].len() implies 1 <= #[trigger] twice[u][j] <= n by {
            if j < before[u].len() {
                assert(twice[u][j] == before[u][j]);
            }
        }
    }
}

/// Law: loading edges whose data lists each edge once (`bi_edge` off) into
/// empty lists gives an undirected graph on the vertices `1..=n`: every
/// neighbour is a vertex of `1..=n` and every edge is listed both ways, so the
/// component laws of `find_lpc` apply to it.
pub proof fn lemma_loaded_undirected(
    before: Seq<Vec<usize>>,
    after: Seq<Vec<usize>>,
    edges: Seq<(usize, usize)>,
)
    requires
        forall|u: int| 0 <= u < before.len() ==> #[trigger] before[u]@.len() == 0,
        distinct_count(endpoints(edges)) < before.len(),
        before.len() <= usize::MAX,
        after.len() == before.len(),
        rows(after) == with_edges(rows(before), edges, first_labels(endpoints(edges)), false),
    ensures
        graph_wf(after, distinct_count(endpoints(edges)) as int),
        symmetric(after, distinct_count(endpoints(edges))),
{
    let ids = endpoints(edges);
    let n = distinct_count(ids);
    let labels = first_labels(ids);
    let lists = rows(before);
    lemma_labels_range(ids);
    assert forall|i: int| 0 <= i < edges.len() implies labels[#[trigger] edges[i].0] <= n
        && labels[edges[i].1] <= n && 1 <= labels[edges[i].0] && 1 <= labels[edges[i].1] by {
        lemma_edge_endpoints(edges, i);
        assert(ids.contains(ids[2 * i]) && ids.contains(ids[2 * i + 1]));
        assert(labels.contains_key(edges[i].0));
        assert(labels.contains_key(edges[i].1));
    }
    assert forall|u: int, w: int| 0 <= u < lists.len() && 0 <= w < lists.len() implies (
    #[trigger] lists[u].contains(w as usize) <==> #[trigger] lists[w].contains(u as usize)) by {
        assert(lists[u].len() == 0 && lists[w].len() == 0);
    }
    lemma_with_edges_symmetric(lists, edges, labels, n);
    let res = rows(after);
    assert forall|u: int, i: int| 1 <= u <= n && 0 <= i < after[u]@.len() implies 1
        <= #[trigger] after[u]@[i] <= n by {
        assert(res[u] == after[u]@);
    }
    assert forall|u: int, i: int| 1 <= u <= n && 0 <= i < after[u]@.len() implies after[
        #[trigger] after[u]@[i] as int]@.contains(u as usize) by {
        let w = after[u]@[i];
        assert(res[u] == after[u]@);
        assert(res[u][i] == w);
        assert(res[u].contains(w));
        assert((w as int) < n + 1);
        assert(res[w as int] == after[w as int]@);
        assert(res[u].contains(w as int as usize));
        assert(res[w as int].contains(u as usize));
    }
}

} // verus!
