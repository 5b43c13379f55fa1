//! Exact counts over the whole graph or over a list of vertices: degree sums,
//! public-degree sums, wedge counts, and closed neighbour pairs (triangles).
use vstd::prelude::*;
use crate::graph::graph_wf;

verus! {

/// `f(lo) + f(lo + 1) + ... + f(hi - 1)`.
pub open spec fn sum_range(f: spec_fn(int) -> nat, lo: int, hi: int) -> nat
    decreases hi - lo,
{
    if hi <= lo {
        0
    } else {
        sum_range(f, lo, hi - 1) + f(hi - 1)
    }
}

/// A sum over a longer range is no smaller.
pub proof fn lemma_sum_range_mono(f: spec_fn(int) -> nat, lo: int, a: int, b: int)
    requires
        lo <= a <= b,
    ensures
        sum_range(f, lo, a) <= sum_range(f, lo, b),
    decreases b - a,
{
    if a < b {
        lemma_sum_range_mono(f, lo, a, b - 1);
    }
}

/// Sums of functions that agree on the range are equal.
pub proof fn lemma_sum_range_congruent(f: spec_fn(int) -> nat, g: spec_fn(int) -> nat, lo: int, hi: int)
    requires
        forall|i: int| lo <= i < hi ==> #[trigger] f(i) == g(i),
    ensures
        sum_range(f, lo, hi) == sum_range(g, lo, hi),
    decreases hi - lo,
{
    if hi > lo {
        lemma_sum_range_congruent(f, g, lo, hi - 1);
    }
}

/// Adding 1 at a single point `x` adds 1 to a sum whose range holds `x`.
pub proof fn lemma_sum_range_bump(f: spec_fn(int) -> nat, g: spec_fn(int) -> nat, x: int, lo: int, hi: int)
    requires
        forall|i: int| lo <= i < hi ==> #[trigger] f(i) == g(i) + if i == x {
            1nat
        } else {
            0nat
        },
    ensures
        sum_range(f, lo, hi) == sum_range(g, lo, hi) + if lo <= x < hi {
            1nat
        } else {
            0nat
        },
    decreases hi - lo,
{
    if hi > lo {
        lemma_sum_range_bump(f, g, x, lo, hi - 1);
        assert(f(hi - 1) == g(hi - 1) + if hi - 1 == x {
            1nat
        } else {
            0nat
        });
    }
}

/// The degree of each vertex.
pub open spec fn degree_of(adj: Seq<Vec<usize>>) -> spec_fn(int) -> nat {
    |u: int| adj[u]@.len()
}

/// The sum of the degrees of vertices `1..=n`.
pub open spec fn degree_sum(adj: Seq<Vec<usize>>, n: int) -> nat {
    sum_range(degree_of(adj), 1, n + 1)
}

/// The sum of the degrees of the vertices `1..=n`: the numerator of the
/// average degree; `None` when it exceeds `usize::MAX`.
pub fn avgdeg_sum(adj: &Vec<Vec<usize>>, n: usize) -> (res: Option<usize>)
    requires
        n < adj@.len(),
    ensures
        match res {
            Some(sum) => sum == degree_sum(adj@, n as int),
            None => degree_sum(adj@, n as int) > usize::MAX,
        },
{
    assert(n < adj.len());
    let mut sum: usize = 0;
    let mut i: usize = 1;
    while i <= n
        invariant
            1 <= i <= n + 1,
            n < usize::MAX,
            n < adj@.len(),
            sum == sum_range(degree_of(adj@), 1, i as int),
        decreases n + 1 - i,
    {
        proof {
            lemma_sum_range_mono(degree_of(adj@), 1, i + 1, n + 1);
        }
        match sum.checked_add(adj[i].len()) {
            Some(s) => sum = s,
            None => return None,
        }
        i = i + 1;
    }
    Some(sum)
}

/// 1 at each position of `nbrs` that holds a public vertex, else 0.
pub open spec fn public_at(is_pub: Seq<bool>, nbrs: Seq<usize>) -> spec_fn(int) -> nat {
    |i: int|
        if is_pub[nbrs[i] as int] {
            1nat
        } else {
            0nat
        }
}

/// How many of the neighbours of `v` are public (counted with repetition).
pub open spec fn public_degree(adj: Seq<Vec<usize>>, is_pub: Seq<bool>, v: int) -> nat {
    sum_range(public_at(is_pub, adj[v]@), 0, adj[v]@.len() as int)
}

/// The public degree of each entry of `vs`.
pub open spec fn public_degree_of(
    adj: Seq<Vec<usize>>,
    is_pub: Seq<bool>,
    vs: Seq<usize>,
) -> spec_fn(int) -> nat {
    |i: int| public_degree(adj, is_pub, vs[i] as int)
}

/// The sum of the public degrees of the entries of `vs`.
pub open spec fn public_degree_sum(adj: Seq<Vec<usize>>, is_pub: Seq<bool>, vs: Seq<usize>) -> nat {
    sum_range(public_degree_of(adj, is_pub, vs), 0, vs.len() as int)
}

/// Every entry of `vs` has an adjacency list whose entries have a flag in `is_pub`.
pub open spec fn flagged_lists(adj: Seq<Vec<usize>>, is_pub: Seq<bool>, vs: Seq<usize>) -> bool {
    &&& forall|i: int| 0 <= i < vs.len() ==> (#[trigger] vs[i] as int) < adj.len()
    &&& forall|i: int, j: int|
        0 <= i < vs.len() && 0 <= j < adj[vs[i] as int]@.len() ==> (#[trigger] adj[vs[i] as int]@[j]
            as int) < is_pub.len()
}

/// Counts the public neighbours of `v`.
fn count_public(adj: &Vec<Vec<usize>>, is_pub: &Vec<bool>, v: usize) -> (c: usize)
    requires
        (v as int) < adj@.len(),
        forall|j: int|
            0 <= j < adj@[v as int]@.len() ==> (#[trigger] adj@[v as int]@[j] as int) < is_pub@.len(),
    ensures
        c == public_degree(adj@, is_pub@, v as int),
{
    let nbrs = &adj[v];
    let mut c: usize = 0;
    let mut j: usize = 0;
    while j < nbrs.len()
        invariant
            nbrs@ == adj@[v as int]@,
            j <= nbrs@.len(),
            forall|q: int| 0 <= q < nbrs@.len() ==> (#[trigger] nbrs@[q] as int) < is_pub@.len(),
            c == sum_range(public_at(is_pub@, nbrs@), 0, j as int),
            c <= j,
        decreases nbrs@.len() - j,
    {
        if is_pub[nbrs[j]] {
            c = c + 1;
        }
        j = j + 1;
    }
    c
}

/// The sum, over the vertices of `lpc`, of their public degrees: the
/// numerator of the average degree inside the public component; `None` when
/// it exceeds `usize::MAX`.
pub fn lpcavgdeg_sum(adj: &Vec<Vec<usize>>, is_pub: &Vec<bool>, lpc: &Vec<usize>) -> (res: Option<usize>)
    requires
        flagged_lists(adj@, is_pub@, lpc@),
    ensures
        match res {
            Some(sum) => sum == public_degree_sum(adj@, is_pub@, lpc@),
            None => public_degree_sum(adj@, is_pub@, lpc@) > usize::MAX,
        },
{
    let mut sum: usize = 0;
    let mut i: usize = 0;
    while i < lpc.len()
        invariant
            i <= lpc@.len(),
            flagged_lists(adj@, is_pub@, lpc@),
            sum == sum_range(public_degree_of(adj@, is_pub@, lpc@), 0, i as int),
        decreases lpc@.len() - i,
    {
        let v = lpc[i];
        assert forall|j: int| 0 <= j < adj@[v as int]@.len() implies (#[trigger] adj@[v as int]@[j]
            as int) < is_pub@.len() by {
            assert(lpc@[i as int] == v);
        }
        let c = count_public(adj, is_pub, v);
        proof {
            lemma_sum_range_mono(public_degree_of(adj@, is_pub@, lpc@), 0, i + 1, lpc@.len() as int);
        }
        match sum.checked_add(c) {
            Some(s) => sum = s,
            None => return None,
        }
        i = i + 1;
    }
    Some(sum)
}

/// Whether neighbour `w` takes part: always when `filtered` is off, else when it is public.
pub open spec fn kept(is_pub: Seq<bool>, filtered: bool, w: usize) -> bool {
    !filtered || is_pub[w as int]
}

/// 1 at each position of `nbrs` that takes part, else 0.
pub open spec fn kept_at(is_pub: Seq<bool>, filtered: bool, nbrs: Seq<usize>) -> spec_fn(int) -> nat {
    |i: int|
        if kept(is_pub, filtered, nbrs[i]) {
            1nat
        } else {
            0nat
        }
}

/// How many neighbours of `u` take part (counted with repetition).
pub open spec fn kept_degree(adj: Seq<Vec<usize>>, is_pub: Seq<bool>, filtered: bool, u: int) -> nat {
    sum_range(kept_at(is_pub, filtered, adj[u]@), 0, adj[u]@.len() as int)
}

/// While the list of `u` is walked, `w` is still marked at position `j`: it
/// takes part, it is a neighbour of `u`, and no earlier position holds it.
pub open spec fn still_marked(
    adj: Seq<Vec<usize>>,
    is_pub: Seq<bool>,
    filtered: bool,
    u: int,
    j: int,
    w: usize,
) -> bool {
    &&& kept(is_pub, filtered, w)
    &&& adj[u]@.contains(w)
    &&& !exists|q: int| 0 <= q < j && adj[u]@[q] == w
}

/// 1 at each position of `list` holding a vertex still marked at position `j` of `u`'s list.
pub open spec fn marked_at(
    adj: Seq<Vec<usize>>,
    is_pub: Seq<bool>,
    filtered: bool,
    u: int,
    j: int,
    list: Seq<usize>,
) -> spec_fn(int) -> nat {
    |i: int|
        if still_marked(adj, is_pub, filtered, u, j, list[i]) {
            1nat
        } else {
            0nat
        }
}

/// For position `j` of `u`'s list holding `v`: when `v` takes part, how many
/// neighbours of `v` are still marked; else 0.
pub open spec fn pairs_at(
    adj: Seq<Vec<usize>>,
    is_pub: Seq<bool>,
    filtered: bool,
    u: int,
) -> spec_fn(int) -> nat {
    |j: int|
        {
            let v = adj[u]@[j];
            if kept(is_pub, filtered, v) {
                sum_range(
                    marked_at(adj, is_pub, filtered, u, j, adj[v as int]@),
                    0,
                    adj[v as int]@.len() as int,
                )
            } else {
                0nat
            }
        }
}

/// The neighbour pairs of `u` that are joined by an edge, each found once:
/// for every neighbour `v` of `u`, the neighbours `w` of `v` that are
/// neighbours of `u` not yet passed in `u`'s list. On a simple undirected
/// graph this is the number of edges among the neighbours of `u`
/// (`lemma_closing_pairs_simple`).
pub open spec fn closing_pairs(adj: Seq<Vec<usize>>, is_pub: Seq<bool>, filtered: bool, u: int) -> nat {
    sum_range(pairs_at(adj, is_pub, filtered, u), 0, adj[u]@.len() as int)
}

/// Counts `closing_pairs` for `u`, marking the neighbours of `u` in `marked`
/// and clearing them again; `None` when the count exceeds `usize::MAX`.
fn closing_pairs_of(
    adj: &Vec<Vec<usize>>,
    is_pub: &Vec<bool>,
    filtered: bool,
    marked: &mut Vec<bool>,
    u: usize,
) -> (res: Option<usize>)
    requires
        graph_wf(adj@, old(marked)@.len() - 1),
        1 <= u < old(marked)@.len(),
        filtered ==> old(marked)@.len() <= is_pub@.len(),
        forall|x: int| 0 <= x < old(marked)@.len() ==> !#[trigger] old(marked)@[x],
    ensures
        match res {
            Some(c) => c == closing_pairs(adj@, is_pub@, filtered, u as int),
            None => closing_pairs(adj@, is_pub@, filtered, u as int) > usize::MAX,
        },
        final(marked)@.len() == old(marked)@.len(),
        res is Some ==> forall|x: int| 0 <= x < final(marked)@.len() ==> !#[trigger] final(marked)@[x],
{
    let ghost len = marked@.len();
    let ghost ui = u as int;
    assert(len == marked.len());
    let nbrs = &adj[u];
    let mut j: usize = 0;
    while j < nbrs.len()
        invariant
            graph_wf(adj@, len - 1),
            1 <= ui < len,
            ui == u,
            len <= usize::MAX,
            len == old(marked)@.len(),
            filtered ==> len <= is_pub@.len(),
            nbrs@ == adj@[ui]@,
            j <= nbrs@.len(),
            marked@.len() == len,
            forall|x: int|
                0 <= x < len ==> #[trigger] marked@[x] == (kept(is_pub@, filtered, x as usize)
                    && exists|q: int| 0 <= q < j && nbrs@[q] == x as usize),
        decreases nbrs@.len() - j,
    {
        let v = nbrs[j];
        assert(adj@[ui]@[j as int] == v);
        if !filtered || is_pub[v] {
            marked.set(v, true);
        }
        proof {
            assert forall|x: int| 0 <= x < len implies #[trigger] marked@[x] == (kept(
                is_pub@,
                filtered,
                x as usize,
            ) && exists|q: int| 0 <= q < j + 1 && nbrs@[q] == x as usize) by {
                if x as usize == v {
                    assert(nbrs@[j as int] == v);
                } else {
                    if exists|q: int| 0 <= q < j + 1 && nbrs@[q] == x as usize {
                        let q = choose|q: int| 0 <= q < j + 1 && nbrs@[q] == x as usize;
                        assert(q < j);
                    }
                }
            }
        }
        j = j + 1;
    }
    let mut c: usize = 0;
    j = 0;
    while j < nbrs.len()
        invariant
            graph_wf(adj@, len - 1),
            1 <= ui < len,
            ui == u,
            len <= usize::MAX,
            len == old(marked)@.len(),
            filtered ==> len <= is_pub@.len(),
            nbrs@ == adj@[ui]@,
            j <= nbrs@.len(),
            marked@.len() == len,
            c == sum_range(pairs_at(adj@, is_pub@, filtered, ui), 0, j as int),
            forall|x: int|
                0 <= x < len ==> #[trigger] marked@[x] == still_marked(
                    adj@,
                    is_pub@,
                    filtered,
                    ui,
                    j as int,
                    x as usize,
                ),
        decreases nbrs@.len() - j,
    {
        let v = nbrs[j];
        assert(adj@[ui]@[j as int] == v);
        proof {
            lemma_sum_range_mono(
                pairs_at(adj@, is_pub@, filtered, ui),
                0,
                j + 1,
                nbrs@.len() as int,
            );
        }
        if !filtered || is_pub[v] {
            let vn = &adj[v];
            let ghost f = marked_at(adj@, is_pub@, filtered, ui, j as int, vn@);
            let mut i: usize = 0;
            while i < vn.len()
                invariant
                    graph_wf(adj@, len - 1),
                    1 <= v < len,
                    ui == u,
                    len == old(marked)@.len(),
                    vn@ == adj@[v as int]@,
                    f == marked_at(adj@, is_pub@, filtered, ui, j as int, vn@),
                    filtered ==> len <= is_pub@.len(),
                    i <= vn@.len(),
                    marked@.len() == len,
                    sum_range(pairs_at(adj@, is_pub@, filtered, ui), 0, j as int) + sum_range(
                        f,
                        0,
                        vn@.len() as int,
                    ) <= closing_pairs(adj@, is_pub@, filtered, ui),
                    c == sum_range(pairs_at(adj@, is_pub@, filtered, ui), 0, j as int) + sum_range(
                        f,
                        0,
                        i as int,
                    ),
                    forall|x: int|
                        0 <= x < len ==> #[trigger] marked@[x] == still_marked(
                            adj@,
                            is_pub@,
                            filtered,
                            ui,
                            j as int,
                            x as usize,
                        ),
                decreases vn@.len() - i,
            {
                let w = vn[i];
                assert(adj@[v as int]@[i as int] == w);
                proof {
                    lemma_sum_range_mono(f, 0, i + 1, vn@.len() as int);
                }
                if (!filtered || is_pub[w]) && marked[w] {
                    match c.checked_add(1) {
                        Some(c1) => c = c1,
                        None => return None,
                    }
                }
                i = i + 1;
            }
            marked.set(v, false);
        }
        proof {
            assert forall|x: int| 0 <= x < len implies #[trigger] marked@[x] == still_marked(
                adj@,
                is_pub@,
                filtered,
                ui,
                j + 1,
                x as usize,
            ) by {
                if x as usize == v {
                    assert(nbrs@[j as int] == v);
                } else {
                    if exists|q: int| 0 <= q < j + 1 && adj@[ui]@[q] == x as usize {
                        let q = choose|q: int| 0 <= q < j + 1 && adj@[ui]@[q] == x as usize;
                        assert(q < j);
                    }
                }
            }
        }
        j = j + 1;
    }
    proof {
        assert forall|x: int| 0 <= x < len implies !#[trigger] marked@[x] by {
            if adj@[ui]@.contains(x as usize) {
                let q = choose|q: int| 0 <= q < adj@[ui]@.len() && adj@[ui]@[q] == x as usize;
                assert(!still_marked(adj@, is_pub@, filtered, ui, j as int, x as usize));
            }
        }
    }
    Some(c)
}

/// `d * (d - 1)` for the degree `d` of each vertex: twice its wedges.
pub open spec fn wedges_of(adj: Seq<Vec<usize>>) -> spec_fn(int) -> nat {
    |u: int| (adj[u]@.len() * (adj[u]@.len() - 1)) as nat
}

/// The sum of `d * (d - 1)` over the vertices `1..=n`.
pub open spec fn wedge_sum(adj: Seq<Vec<usize>>, n: int) -> nat {
    sum_range(wedges_of(adj), 1, n + 1)
}

/// The closed neighbour pairs of each vertex, every neighbour taking part.
pub open spec fn triangle_pairs_of(adj: Seq<Vec<usize>>) -> spec_fn(int) -> nat {
    |u: int| closing_pairs(adj, Seq::empty(), false, u)
}

/// The sum of the closed neighbour pairs over the vertices `1..=n`.
pub open spec fn triangle_sum(adj: Seq<Vec<usize>>, n: int) -> nat {
    sum_range(triangle_pairs_of(adj), 1, n + 1)
}

/// The two counts of the global clustering coefficient: the sum of
/// `d * (d - 1)` over the vertices `1..=n`, and twice the sum of their closed
/// neighbour pairs. The coefficient is the second over the first. `None` when
/// either exceeds `usize::MAX`.
pub fn globalcoeff_counts(adj: &Vec<Vec<usize>>, n: usize) -> (res: Option<(usize, usize)>)
    requires
        graph_wf(adj@, n as int),
        forall|u: int| 1 <= u <= n ==> #[trigger] adj@[u]@.len() >= 1,
    ensures
        match res {
            Some((sum1, sum2)) => sum1 == wedge_sum(adj@, n as int) && sum2 == 2 * triangle_sum(
                adj@,
                n as int,
            ),
            None => wedge_sum(adj@, n as int) > usize::MAX || 2 * triangle_sum(adj@, n as int)
                > usize::MAX,
        },
{
    assert(n < adj.len());
    let mut sum1: usize = 0;
    let mut i: usize = 1;
    while i <= n
        invariant
            1 <= i <= n + 1,
            n < usize::MAX,
            graph_wf(adj@, n as int),
            forall|u: int| 1 <= u <= n ==> #[trigger] adj@[u]@.len() >= 1,
            sum1 == sum_range(wedges_of(adj@), 1, i as int),
        decreases n + 1 - i,
    {
        let d = adj[i].len();
        proof {
            lemma_sum_range_mono(wedges_of(adj@), 1, i + 1, n + 1);
            assert(adj@[i as int]@.len() >= 1);
            assert(d * (d - 1) >= 0) by (nonlinear_arith)
                requires
                    d >= 1,
            ;
        }
        let w = match d.checked_mul(d - 1) {
            Some(w) => w,
            None => return None,
        };
        match sum1.checked_add(w) {
            Some(s) => sum1 = s,
            None => return None,
        }
        i = i + 1;
    }
    let no_flags: Vec<bool> = Vec::new();
    let mut marked: Vec<bool> = vec![false; n + 1];
    let mut sum2: usize = 0;
    let mut u: usize = 1;
    while u <= n
        invariant
            1 <= u <= n + 1,
            n < usize::MAX,
            graph_wf(adj@, n as int),
            no_flags@ == Seq::<bool>::empty(),
            marked@.len() == n + 1,
            forall|x: int| 0 <= x < marked@.len() ==> !#[trigger] marked@[x],
            sum1 == wedge_sum(adj@, n as int),
            sum2 == 2 * sum_range(triangle_pairs_of(adj@), 1, u as int),
        decreases n + 1 - u,
    {
        proof {
            lemma_sum_range_mono(triangle_pairs_of(adj@), 1, u + 1, n + 1);
        }
        let c = match closing_pairs_of(adj, &no_flags, false, &mut marked, u) {
            Some(c) => c,
            None => return None,
        };
        let twice = match c.checked_mul(2) {
            Some(t) => t,
            None => return None,
        };
        match sum2.checked_add(twice) {
            Some(s) => sum2 = s,
            None => return None,
        }
        u = u + 1;
    }
    Some((sum1, sum2))
}

/// The vertices `1..=n`, in order.
pub open spec fn vertices_upto(n: nat) -> Seq<usize> {
    Seq::new(n, |i: int| (i + 1) as usize)
}

/// For each vertex `u` of `vs` in order whose degree `d` counting the
/// neighbours that take part is at least 2: twice its closed neighbour pairs,
/// and `d * (d - 1)`. The local clustering coefficient of `u` is their quotient.
pub open spec fn coeff_terms(
    adj: Seq<Vec<usize>>,
    is_pub: Seq<bool>,
    filtered: bool,
    vs: Seq<usize>,
) -> Seq<(usize, usize)>
    decreases vs.len(),
{
    if vs.len() == 0 {
        Seq::empty()
    } else {
        let prev = coeff_terms(adj, is_pub, filtered, vs.drop_last());
        let u = vs.last() as int;
        let d = kept_degree(adj, is_pub, filtered, u);
        if d <= 1 {
            prev
        } else {
            prev.push(
                (
                    (2 * closing_pairs(adj, is_pub, filtered, u)) as usize,
                    (d * (d - 1)) as usize,
                ),
            )
        }
    }
}

/// The coefficient term of `u`, if it has one, fits in a `usize`.
pub open spec fn term_fits(adj: Seq<Vec<usize>>, is_pub: Seq<bool>, filtered: bool, u: int) -> bool {
    let d = kept_degree(adj, is_pub, filtered, u);
    d >= 2 ==> 2 * closing_pairs(adj, is_pub, filtered, u) <= usize::MAX && d * (d - 1)
        <= usize::MAX
}

/// Every term of `coeff_terms` for `vs` fits in a `usize`.
pub open spec fn terms_fit(
    adj: Seq<Vec<usize>>,
    is_pub: Seq<bool>,
    filtered: bool,
    vs: Seq<usize>,
) -> bool {
    forall|i: int| 0 <= i < vs.len() ==> term_fits(adj, is_pub, filtered, #[trigger] vs[i] as int)
}

/// When every neighbour takes part, the degree counting them is the degree.
proof fn lemma_all_kept(is_pub: Seq<bool>, nbrs: Seq<usize>, k: int)
    requires
        0 <= k <= nbrs.len(),
    ensures
        sum_range(kept_at(is_pub, false, nbrs), 0, k) == k,
    decreases k,
{
    if k > 0 {
        lemma_all_kept(is_pub, nbrs, k - 1);
    }
}

/// Counts the neighbours of `u` that take part.
fn kept_count(adj: &Vec<Vec<usize>>, is_pub: &Vec<bool>, filtered: bool, u: usize) -> (d: usize)
    requires
        (u as int) < adj@.len(),
        filtered ==> forall|j: int|
            0 <= j < adj@[u as int]@.len() ==> (#[trigger] adj@[u as int]@[j] as int) < is_pub@.len(),
    ensures
        d == kept_degree(adj@, is_pub@, filtered, u as int),
{
    let nbrs = &adj[u];
    if !filtered {
        proof {
            lemma_all_kept(is_pub@, nbrs@, nbrs@.len() as int);
        }
        return nbrs.len();
    }
    let mut d: usize = 0;
    let mut j: usize = 0;
    while j < nbrs.len()
        invariant
            filtered,
            nbrs@ == adj@[u as int]@,
            j <= nbrs@.len(),
            forall|q: int| 0 <= q < nbrs@.len() ==> (#[trigger] nbrs@[q] as int) < is_pub@.len(),
            d == sum_range(kept_at(is_pub@, filtered, nbrs@), 0, j as int),
            d <= j,
        decreases nbrs@.len() - j,
    {
        if is_pub[nbrs[j]] {
            d = d + 1;
        }
        j = j + 1;
    }
    d
}

/// Appends the coefficient term of `u` to `terms` when it has one; `false`
/// when that term does not fit in a `usize`.
fn push_coeff_term(
    adj: &Vec<Vec<usize>>,
    is_pub: &Vec<bool>,
    filtered: bool,
    marked: &mut Vec<bool>,
    u: usize,
    terms: &mut Vec<(usize, usize)>,
    Ghost(vs): Ghost<Seq<usize>>,
) -> (ok: bool)
    requires
        graph_wf(adj@, old(marked)@.len() - 1),
        1 <= u < old(marked)@.len(),
        filtered ==> old(marked)@.len() <= is_pub@.len(),
        forall|x: int| 0 <= x < old(marked)@.len() ==> !#[trigger] old(marked)@[x],
        vs.len() > 0,
        vs.last() == u,
        old(terms)@ == coeff_terms(adj@, is_pub@, filtered, vs.drop_last()),
    ensures
        ok == term_fits(adj@, is_pub@, filtered, u as int),
        ok ==> final(terms)@ == coeff_terms(adj@, is_pub@, filtered, vs),
        final(marked)@.len() == old(marked)@.len(),
        ok ==> forall|x: int| 0 <= x < final(marked)@.len() ==> !#[trigger] final(marked)@[x],
{
    assert(vs[vs.len() - 1] == u);
    assert forall|j: int| 0 <= j < adj@[u as int]@.len() implies (#[trigger] adj@[u as int]@[j]
        as int) < old(marked)@.len() by {}
    let d = kept_count(adj, is_pub, filtered, u);
    if d <= 1 {
        return true;
    }
    let pairs = match d.checked_mul(d - 1) {
        Some(p) => p,
        None => return false,
    };
    let c = match closing_pairs_of(adj, is_pub, filtered, marked, u) {
        Some(c) => c,
        None => return false,
    };
    let closed = match c.checked_mul(2) {
        Some(t) => t,
        None => return false,
    };
    terms.push((closed, pairs));
    true
}

/// The local clustering terms of the vertices `1..=n`: for each vertex of
/// degree `d >= 2`, twice its closed neighbour pairs and `d * (d - 1)`. The
/// average clustering coefficient is the sum of their quotients over `n`.
/// `None` when some term exceeds `usize::MAX`.
pub fn avgcoeff_terms(adj: &Vec<Vec<usize>>, n: usize) -> (res: Option<Vec<(usize, usize)>>)
    requires
        graph_wf(adj@, n as int),
    ensures
        match res {
            Some(terms) => terms_fit(adj@, Seq::empty(), false, vertices_upto(n as nat)) && terms@
                == coeff_terms(adj@, Seq::empty(), false, vertices_upto(n as nat)),
            None => !terms_fit(adj@, Seq::empty(), false, vertices_upto(n as nat)),
        },
{
    assert(n < adj.len());
    let no_flags: Vec<bool> = Vec::new();
    let mut marked: Vec<bool> = vec![false; n + 1];
    let mut terms: Vec<(usize, usize)> = Vec::new();
    let ghost all = vertices_upto(n as nat);
    proof {
        assert(all.take(0) =~= Seq::<usize>::empty());
    }
    let mut u: usize = 1;
    while u <= n
        invariant
            1 <= u <= n + 1,
            n < usize::MAX,
            graph_wf(adj@, n as int),
            no_flags@ == Seq::<bool>::empty(),
            all == vertices_upto(n as nat),
            terms_fit(adj@, Seq::empty(), false, all.take(u - 1)),
            marked@.len() == n + 1,
            forall|x: int| 0 <= x < marked@.len() ==> !#[trigger] marked@[x],
            terms@ == coeff_terms(adj@, Seq::empty(), false, all.take(u - 1)),
        decreases n + 1 - u,
    {
        let ghost vs = all.take(u as int);
        proof {
            assert(vs.drop_last() =~= all.take(u - 1));
            assert(vs.last() == u);
        }
        let ok = push_coeff_term(adj, &no_flags, false, &mut marked, u, &mut terms, Ghost(vs));
        if !ok {
            proof {
                assert(all[u - 1] == u);
            }
            return None;
        }
        proof {
            assert forall|i: int| 0 <= i < vs.len() implies term_fits(
                adj@,
                Seq::empty(),
                false,
                #[trigger] vs[i] as int,
            ) by {
                if i < vs.len() - 1 {
                    assert(vs[i] == all.take(u - 1)[i]);
                }
            }
        }
        u = u + 1;
    }
    proof {
        assert(all.take(n as int) =~= all);
    }
    Some(terms)
}

/// The local clustering terms of the vertices of `lpc` counted inside the
/// public subgraph: for each vertex with `p >= 2` public neighbours, twice its
/// closed pairs of public neighbours and `p * (p - 1)`. The average inside the
/// component is the sum of their quotients over the length of `lpc`. `None`
/// when some term exceeds `usize::MAX`.
pub fn lpcavgcoeff_terms(
    adj: &Vec<Vec<usize>>,
    n: usize,
    is_pub: &Vec<bool>,
    lpc: &Vec<usize>,
) -> (res: Option<Vec<(usize, usize)>>)
    requires
        graph_wf(adj@, n as int),
        n + 1 <= is_pub@.len(),
        forall|i: int| 0 <= i < lpc@.len() ==> 1 <= #[trigger] lpc@[i] <= n,
    ensures
        match res {
            Some(terms) => terms_fit(adj@, is_pub@, true, lpc@) && terms@ == coeff_terms(
                adj@,
                is_pub@,
                true,
                lpc@,
            ),
            None => !terms_fit(adj@, is_pub@, true, lpc@),
        },
{
    assert(n < adj.len());
    let mut marked: Vec<bool> = vec![false; n + 1];
    let mut terms: Vec<(usize, usize)> = Vec::new();
    proof {
        assert(lpc@.take(0) =~= Seq::<usize>::empty());
    }
    let mut i: usize = 0;
    while i < lpc.len()
        invariant
            i <= lpc@.len(),
            graph_wf(adj@, n as int),
            n + 1 <= is_pub@.len(),
            forall|k: int| 0 <= k < lpc@.len() ==> 1 <= #[trigger] lpc@[k] <= n,
            terms_fit(adj@, is_pub@, true, lpc@.take(i as int)),
            marked@.len() == n + 1,
            forall|x: int| 0 <= x < marked@.len() ==> !#[trigger] marked@[x],
            terms@ == coeff_terms(adj@, is_pub@, true, lpc@.take(i as int)),
        decreases lpc@.len() - i,
    {
        let u = lpc[i];
        let ghost vs = lpc@.take(i + 1);
        proof {
            assert(vs.drop_last() =~= lpc@.take(i as int));
            assert(vs.last() == u);
        }
        let ok = push_coeff_term(adj, is_pub, true, &mut marked, u, &mut terms, Ghost(vs));
        if !ok {
            return None;
        }
        proof {
            assert forall|k: int| 0 <= k < vs.len() implies term_fits(
                adj@,
                is_pub@,
                true,
                #[trigger] vs[k] as int,
            ) by {
                if k < vs.len() - 1 {
                    assert(vs[k] == lpc@.take(i as int)[k]);
                }
            }
        }
        i = i + 1;
    }
    proof {
        assert(lpc@.take(lpc@.len() as int) =~= lpc@);
    }
    Some(terms)
}

/// The values of `s` at positions `lo..`.
pub open spec fn values_from(s: Seq<usize>, lo: int) -> Set<usize> {
    Set::new(|x: usize| exists|k: int| 0 <= k && lo <= k < s.len() && s[k] == x)
}

/// 1 at each position `k >= lo` of `s` whose value lies in `set`, else 0.
pub open spec fn in_set_from(s: Seq<usize>, set: Set<usize>, lo: int) -> spec_fn(int) -> nat {
    |k: int|
        if k >= lo && set.contains(s[k]) {
            1nat
        } else {
            0nat
        }
}

/// In a list without repeats, counting the positions from `lo` on whose value
/// lies in `set` counts the values there that lie in `set`.
proof fn lemma_count_distinct(s: Seq<usize>, set: Set<usize>, lo: int)
    requires
        s.no_duplicates(),
    ensures
        values_from(s, lo).intersect(set).finite(),
        sum_range(in_set_from(s, set, lo), 0, s.len() as int) == values_from(s, lo).intersect(
            set,
        ).len(),
    decreases s.len(),
{
    let vals = values_from(s, lo).intersect(set);
    if s.len() == 0 {
        assert forall|x: usize| !vals.contains(x) by {}
        assert(vals =~= Set::empty());
    } else {
        let s1 = s.drop_last();
        let last = s.last();
        let k0 = s.len() - 1;
        lemma_count_distinct(s1, set, lo);
        let vals1 = values_from(s1, lo).intersect(set);
        lemma_sum_range_congruent(in_set_from(s, set, lo), in_set_from(s1, set, lo), 0, k0);
        assert(!vals1.contains(last)) by {
            if vals1.contains(last) {
                let k = choose|k: int| 0 <= k && lo <= k < s1.len() && s1[k] == last;
                assert(s[k] == s1[k]);
                assert(s[k] == s[k0]);
            }
        }
        if k0 >= lo && set.contains(last) {
            assert(vals =~= vals1.insert(last)) by {
                assert forall|x: usize| vals.contains(x) implies vals1.insert(last).contains(x) by {
                    let k = choose|k: int| 0 <= k && lo <= k < s.len() && s[k] == x;
                    if k < k0 {
                        assert(s1[k] == x);
                    }
                }
                assert forall|x: usize| vals1.contains(x) implies vals.contains(x) by {
                    let k = choose|k: int| 0 <= k && lo <= k < s1.len() && s1[k] == x;
                    assert(s[k] == x);
                }
                assert(s[k0] == last);
            }
        } else {
            assert(vals =~= vals1) by {
                assert forall|x: usize| vals.contains(x) implies vals1.contains(x) by {
                    let k = choose|k: int| 0 <= k && lo <= k < s.len() && s[k] == x;
                    if k < k0 {
                        assert(s1[k] == x);
                    } else {
                        assert(x == last);
                    }
                }
                assert forall|x: usize| vals1.contains(x) implies vals.contains(x) by {
                    let k = choose|k: int| 0 <= k && lo <= k < s1.len() && s1[k] == x;
                    assert(s[k] == x);
                }
            }
        }
    }
}

/// No list of `1..=n` repeats a vertex and no vertex of `1..=n` lists itself.
pub open spec fn simple_lists(adj: Seq<Vec<usize>>, n: nat) -> bool {
    forall|u: int| 1 <= u <= n ==> (#[trigger] adj[u])@.no_duplicates() && !adj[u]@.contains(u as usize)
}

/// For position `j` of `u`'s list holding `v`: 1 at each later position `k`
/// of `u`'s list whose vertex takes part and is a neighbour of `v`.
pub open spec fn later_neighbours(
    adj: Seq<Vec<usize>>,
    is_pub: Seq<bool>,
    filtered: bool,
    u: int,
    j: int,
) -> spec_fn(int) -> nat {
    |k: int|
        if k > j && kept(is_pub, filtered, adj[u]@[k]) && adj[adj[u]@[j] as int]@.contains(
            adj[u]@[k],
        ) {
            1nat
        } else {
            0nat
        }
}

/// For each position `j` of `u`'s list whose vertex takes part: the later
/// positions whose vertices take part and are joined to it.
pub open spec fn joined_at(adj: Seq<Vec<usize>>, is_pub: Seq<bool>, filtered: bool, u: int) -> spec_fn(
    int,
) -> nat {
    |j: int|
        if kept(is_pub, filtered, adj[u]@[j]) {
            sum_range(later_neighbours(adj, is_pub, filtered, u, j), 0, adj[u]@.len() as int)
        } else {
            0nat
        }
}

/// The number of pairs of neighbours of `u` that take part and are joined by an edge.
pub open spec fn neighbour_edges(adj: Seq<Vec<usize>>, is_pub: Seq<bool>, filtered: bool, u: int) -> nat {
    sum_range(joined_at(adj, is_pub, filtered, u), 0, adj[u]@.len() as int)
}

/// Law: on a simple undirected graph, the closed neighbour pairs of `u` (the
/// count behind the clustering coefficients, over the whole graph or, when
/// `filtered`, over the public subgraph) are the pairs of neighbours of `u`
/// that take part and are joined by an edge, each counted once.
pub proof fn lemma_closing_pairs_simple(
    adj: Seq<Vec<usize>>,
    is_pub: Seq<bool>,
    filtered: bool,
    n: nat,
    u: int,
)
    requires
        graph_wf(adj, n as int),
        simple_lists(adj, n),
        forall|x: int, i: int|
            1 <= x <= n && 0 <= i < adj[x]@.len() ==> adj[#[trigger] adj[x]@[i] as int]@.contains(
                x as usize,
            ),
        1 <= u <= n,
    ensures
        closing_pairs(adj, is_pub, filtered, u) == neighbour_edges(adj, is_pub, filtered, u),
{
    let d = adj[u]@.len() as int;
    let su = adj[u]@;
    let keep = Set::new(|x: usize| kept(is_pub, filtered, x));
    assert(su.no_duplicates());
    assert forall|j: int| 0 <= j < d implies #[trigger] pairs_at(adj, is_pub, filtered, u)(j)
        == joined_at(adj, is_pub, filtered, u)(j) by {
        let v = su[j];
        if kept(is_pub, filtered, v) {
            assert((v as int) <= n);
            let sv = adj[v as int]@;
            assert(sv.no_duplicates() && !sv.contains(v));
            let suf = values_from(su, j);
            let nv = values_from(sv, 0);
            assert forall|i: int| 0 <= i < sv.len() implies #[trigger] marked_at(
                adj,
                is_pub,
                filtered,
                u,
                j,
                sv,
            )(i) == in_set_from(sv, suf.intersect(keep), 0)(i) by {
                let w = sv[i];
                if suf.contains(w) {
                    let k = choose|k: int| 0 <= k && j <= k < su.len() && su[k] == w;
                    assert(su.contains(w));
                    if exists|q: int| 0 <= q < j && su[q] == w {
                        let q = choose|q: int| 0 <= q < j && su[q] == w;
                        assert(su[q] == su[k]);
                    }
                }
                if still_marked(adj, is_pub, filtered, u, j, w) {
                    let k = choose|k: int| 0 <= k < su.len() && su[k] == w;
                    assert(k >= j);
                }
            }
            lemma_sum_range_congruent(
                marked_at(adj, is_pub, filtered, u, j, sv),
                in_set_from(sv, suf.intersect(keep), 0),
                0,
                sv.len() as int,
            );
            lemma_count_distinct(sv, suf.intersect(keep), 0);
            assert forall|k: int| 0 <= k < d implies #[trigger] later_neighbours(
                adj,
                is_pub,
                filtered,
                u,
                j,
            )(k) == in_set_from(su, nv.intersect(keep), j)(k) by {
                let x = su[k];
                if nv.contains(x) {
                    let i = choose|i: int| 0 <= i < sv.len() && sv[i] == x;
                    assert(sv.contains(x));
                }
                if sv.contains(x) {
                    let i = choose|i: int| 0 <= i < sv.len() && sv[i] == x;
                    assert(nv.contains(x));
                }
                if k == j {
                    assert(x == v);
                }
            }
            lemma_sum_range_congruent(
                later_neighbours(adj, is_pub, filtered, u, j),
                in_set_from(su, nv.intersect(keep), j),
                0,
                d,
            );
            lemma_count_distinct(su, nv.intersect(keep), j);
            assert(nv.intersect(suf.intersect(keep)) =~= suf.intersect(nv.intersect(keep)));
        }
    }
    lemma_sum_range_congruent(
        pairs_at(adj, is_pub, filtered, u),
        joined_at(adj, is_pub, filtered, u),
        0,
        d,
    );
}

/// The joined pairs of neighbours of each vertex.
pub open spec fn neighbour_edges_of(adj: Seq<Vec<usize>>) -> spec_fn(int) -> nat {
    |u: int| neighbour_edges(adj, Seq::empty(), false, u)
}

/// Law: on a simple undirected graph, the second count of
/// `globalcoeff_counts` is twice the sum, over the vertices `1..=n`, of the
/// pairs of their neighbours that are joined.
pub proof fn lemma_triangle_sum_simple(adj: Seq<Vec<usize>>, n: nat)
    requires
        graph_wf(adj, n as int),
        simple_lists(adj, n),
        forall|x: int, i: int|
            1 <= x <= n && 0 <= i < adj[x]@.len() ==> adj[#[trigger] adj[x]@[i] as int]@.contains(
                x as usize,
            ),
    ensures
        triangle_sum(adj, n as int) == sum_range(neighbour_edges_of(adj), 1, (n + 1) as int),
{
    assert forall|u: int| 1 <= u < n + 1 implies #[trigger] triangle_pairs_of(adj)(u)
        == neighbour_edges_of(adj)(u) by {
        lemma_closing_pairs_simple(adj, Seq::empty(), false, n, u);
    }
    lemma_sum_range_congruent(triangle_pairs_of(adj), neighbour_edges_of(adj), 1, (n + 1) as int);
}

/// When the vertices `1..=n` are all public, counting over the public
/// subgraph counts the same as over the whole graph, for a vertex of `1..=n`.
proof fn lemma_vertex_all_public(adj: Seq<Vec<usize>>, is_pub: Seq<bool>, n: nat, u: int)
    requires
        graph_wf(adj, n as int),
        forall|x: int| 1 <= x <= n ==> #[trigger] is_pub[x],
        1 <= u <= n,
    ensures
        kept_degree(adj, is_pub, true, u) == kept_degree(adj, Seq::empty(), false, u),
        closing_pairs(adj, is_pub, true, u) == closing_pairs(adj, Seq::empty(), false, u),
{
    let su = adj[u]@;
    let d = su.len() as int;
    assert forall|k: int| 0 <= k < d implies #[trigger] kept_at(is_pub, true, su)(k) == kept_at(
        Seq::empty(),
        false,
        su,
    )(k) by {
        assert(1 <= su[k] <= n);
    }
    lemma_sum_range_congruent(kept_at(is_pub, true, su), kept_at(Seq::empty(), false, su), 0, d);
    assert forall|j: int| 0 <= j < d implies #[trigger] pairs_at(adj, is_pub, true, u)(j) == pairs_at(
        adj,
        Seq::empty(),
        false,
        u,
    )(j) by {
        let v = su[j];
        assert(1 <= v <= n);
        let sv = adj[v as int]@;
        assert forall|i: int| 0 <= i < sv.len() implies #[trigger] marked_at(
            adj,
            is_pub,
            true,
            u,
            j,
            sv,
        )(i) == marked_at(adj, Seq::empty(), false, u, j, sv)(i) by {
            assert(1 <= sv[i] <= n);
        }
        lemma_sum_range_congruent(
            marked_at(adj, is_pub, true, u, j, sv),
            marked_at(adj, Seq::empty(), false, u, j, sv),
            0,
            sv.len() as int,
        );
    }
    lemma_sum_range_congruent(
        pairs_at(adj, is_pub, true, u),
        pairs_at(adj, Seq::empty(), false, u),
        0,
        d,
    );
}

/// Law: when the vertices `1..=n` are all public, the clustering terms over
/// the public subgraph (`lpcavgcoeff_terms`) are those over the whole graph
/// (`avgcoeff_terms`), for any list of vertices of `1..=n`.
pub proof fn lemma_terms_all_public(adj: Seq<Vec<usize>>, is_pub: Seq<bool>, n: nat, vs: Seq<usize>)
    requires
        graph_wf(adj, n as int),
        forall|x: int| 1 <= x <= n ==> #[trigger] is_pub[x],
        forall|i: int| 0 <= i < vs.len() ==> 1 <= #[trigger] vs[i] <= n,
    ensures
        coeff_terms(adj, is_pub, true, vs) == coeff_terms(adj, Seq::empty(), false, vs),
        terms_fit(adj, is_pub, true, vs) == terms_fit(adj, Seq::empty(), false, vs),
    decreases vs.len(),
{
    if vs.len() > 0 {
        let vs1 = vs.drop_last();
        assert forall|i: int| 0 <= i < vs1.len() implies 1 <= #[trigger] vs1[i] <= n by {
            assert(vs1[i] == vs[i]);
        }
        lemma_terms_all_public(adj, is_pub, n, vs1);
        assert(1 <= vs[vs.len() - 1] <= n);
        lemma_vertex_all_public(adj, is_pub, n, vs.last() as int);
        assert forall|i: int| 0 <= i < vs.len() implies term_fits(adj, is_pub, true, #[trigger] vs[i] as int)
            == term_fits(adj, Seq::empty(), false, vs[i] as int) by {
            lemma_vertex_all_public(adj, is_pub, n, vs[i] as int);
        }
    }
}


/// The positions below `k` of `nbrs` that hold a public vertex.
pub open spec fn public_positions(is_pub: Seq<bool>, nbrs: Seq<usize>, k: int) -> Set<int> {
    Set::new(|i: int| 0 <= i < k && is_pub[nbrs[i] as int])
}

/// Counting public entries one position at a time counts the set of public positions.
proof fn lemma_public_positions(is_pub: Seq<bool>, nbrs: Seq<usize>, k: int)
    requires
        0 <= k,
    ensures
        public_positions(is_pub, nbrs, k).finite(),
        public_positions(is_pub, nbrs, k).len() == sum_range(public_at(is_pub, nbrs), 0, k),
    decreases k,
{
    if k == 0 {
        assert(public_positions(is_pub, nbrs, 0) =~= Set::<int>::empty());
    } else {
        lemma_public_positions(is_pub, nbrs, k - 1);
        let prev = public_positions(is_pub, nbrs, k - 1);
        if is_pub[nbrs[k - 1] as int] {
            assert(public_positions(is_pub, nbrs, k) =~= prev.insert(k - 1));
            assert(!prev.contains(k - 1));
        } else {
            assert(public_positions(is_pub, nbrs, k) =~= prev);
        }
    }
}

/// Law: the public degree of `v` (what `lpcavgdeg_sum` adds up for each
/// vertex) is the number of positions of `v`'s list that hold a public
/// vertex. So it is at most the length of the list, equals that length exactly
/// when every neighbour is public, and is 0 exactly when no neighbour is.
pub proof fn lemma_public_degree_positions(adj: Seq<Vec<usize>>, is_pub: Seq<bool>, v: int)
    ensures
        public_degree(adj, is_pub, v) == public_positions(is_pub, adj[v]@, adj[v]@.len() as int).len(),
        public_degree(adj, is_pub, v) <= adj[v]@.len(),
        (forall|i: int| 0 <= i < adj[v]@.len() ==> is_pub[#[trigger] adj[v]@[i] as int])
            <==> public_degree(adj, is_pub, v) == adj[v]@.len(),
        (forall|i: int| 0 <= i < adj[v]@.len() ==> !is_pub[#[trigger] adj[v]@[i] as int])
            <==> public_degree(adj, is_pub, v) == 0,
{
    let nbrs = adj[v]@;
    let len = nbrs.len() as int;
    let pos = public_positions(is_pub, nbrs, len);
    lemma_public_positions(is_pub, nbrs, len);
    vstd::set_lib::lemma_int_range(0, len);
    let range = vstd::set_lib::set_int_range(0, len);
    assert(pos.subset_of(range));
    vstd::set_lib::lemma_len_subset(pos, range);
    if forall|i: int| 0 <= i < len ==> is_pub[#[trigger] nbrs[i] as int] {
        assert(pos =~= range);
    } else {
        let i = choose|i: int| 0 <= i < len && !is_pub[#[trigger] nbrs[i] as int];
        assert(pos.subset_of(range.remove(i)));
        vstd::set_lib::lemma_len_subset(pos, range.remove(i));
        assert(range.contains(i));
    }
    if forall|i: int| 0 <= i < len ==> !is_pub[#[trigger] nbrs[i] as int] {
        assert(pos =~= Set::<int>::empty());
    } else {
        let i = choose|i: int| 0 <= i < len && is_pub[#[trigger] nbrs[i] as int];
        assert(pos.contains(i));
        vstd::set::axiom_set_contains_len(pos, i);
    }
}

/// The vertices of `1..=n` of degree at least 2.
pub open spec fn wedge_vertices(adj: Seq<Vec<usize>>, n: int) -> Set<int> {
    Set::new(|u: int| 1 <= u <= n && adj[u]@.len() >= 2)
}

/// Law: `vertices_upto(n)`, the vertices `avgcoeff_terms` goes through, is
/// `1, 2, ..., n`: it has `n` entries, entry `i` is `i + 1`, and it holds a
/// vertex exactly when the vertex lies in `1..=n`.
pub proof fn lemma_vertices_upto(n: nat)
    requires
        n <= usize::MAX,
    ensures
        vertices_upto(n).len() == n,
        forall|i: int| 0 <= i < n ==> #[trigger] vertices_upto(n)[i] == i + 1,
        forall|u: usize| #[trigger] vertices_upto(n).contains(u) <==> 1 <= u <= n,
{
    assert forall|u: usize| #[trigger] vertices_upto(n).contains(u) <==> 1 <= u <= n by {
        if 1 <= u <= n {
            assert(vertices_upto(n)[u - 1] == u);
        }
    }
}

/// Law: `avgcoeff_terms` gives one term for each vertex of `1..=n` of degree
/// at least 2, and no other: the whole-graph terms over `vertices_upto(n)`
/// are as many as those vertices.
pub proof fn lemma_avgcoeff_term_count(adj: Seq<Vec<usize>>, n: nat)
    requires
        n <= usize::MAX,
    ensures
        wedge_vertices(adj, n as int).finite(),
        coeff_terms(adj, Seq::empty(), false, vertices_upto(n)).len() == wedge_vertices(adj, n as int).len(),
    decreases n,
{
    if n == 0 {
        assert(vertices_upto(0) =~= Seq::<usize>::empty());
        assert(wedge_vertices(adj, 0) =~= Set::<int>::empty());
    } else {
        let m = (n - 1) as nat;
        lemma_avgcoeff_term_count(adj, m);
        let vs = vertices_upto(n);
        assert(vs.drop_last() =~= vertices_upto(m));
        assert(vs.last() == n);
        lemma_all_kept(Seq::empty(), adj[n as int]@, adj[n as int]@.len() as int);
        let prev = wedge_vertices(adj, m as int);
        if adj[n as int]@.len() >= 2 {
            assert(wedge_vertices(adj, n as int) =~= prev.insert(n as int));
            assert(!prev.contains(n as int));
        } else {
            assert(wedge_vertices(adj, n as int) =~= prev);
        }
    }
}

} // verus!
