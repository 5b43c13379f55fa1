//! A random walk over public vertices. At each step the walk draws neighbours
//! of the current vertex uniformly at random until it draws a public one, and
//! moves there. It tallies, per vertex, the draws made from it, the public
//! draws, and the draws that were neighbours of the previous vertex.
use vstd::prelude::*;
use rand::Rng;
use rand::rngs::ThreadRng;
use crate::graph::graph_wf;
use crate::counts::{lemma_sum_range_bump, lemma_sum_range_congruent, lemma_sum_range_mono, sum_range};

verus! {

/// `rand::rngs::ThreadRng`, the thread-local generator, carried opaquely.
#[verifier::external_type_specification]
#[verifier::external_body]
pub struct ExThreadRng(ThreadRng);

/// Calls `rand::thread_rng`, the generator of the current thread. Nothing is
/// stated of the generator's state.
#[verifier::external_body]
fn thread_generator() -> (rng: ThreadRng) {
    rand::thread_rng()
}

/// Calls `Rng::gen_range(0..len)`, which returns an index drawn uniformly from
/// `0..len` and panics when the range is empty. Stated: the index is below
/// `len`; which index comes out is chance and is not stated.
#[verifier::external_body]
fn random_index(rng: &mut ThreadRng, len: usize) -> (k: usize)
    requires
        len > 0,
    ensures
        k < len,
{
    rng.gen_range(0..len)
}

/// Why a walk stopped before its last step.
#[derive(Debug, Clone, Copy, PartialEq, Eq, Structural)]
pub enum WalkError {
    /// The walk stood on this vertex, which has no neighbour to draw.
    DeadEnd(usize),
    /// The count of draws would have exceeded `u64::MAX`.
    Exhausted,
}

/// The record of a walk of `r` steps.
pub struct Walk {
    /// The vertex of each step; the first is the start.
    pub vertices: Vec<usize>,
    /// How many neighbours were drawn at each step.
    pub tries: Vec<u64>,
    /// How many of the draws at each step were neighbours of the previous step's vertex.
    pub hits: Vec<u64>,
    /// Per vertex `0..=n`: the steps made from it (each ends in one public draw).
    pub picked: Vec<u64>,
    /// Per vertex `0..=n`: the draws made from it.
    pub drawn: Vec<u64>,
    /// Per vertex `0..=n`: the draws from it that were neighbours of the previous vertex.
    pub drawn_near: Vec<u64>,
    /// For each inner step `i` (`1 <= i < r - 1`), at index `i - 1`: whether the
    /// vertex of step `i + 1` is a neighbour of the vertex of step `i - 1`.
    pub closes: Vec<bool>,
    /// The vertices drawn at each step, in order.
    pub draws: Ghost<Seq<Seq<usize>>>,
}

/// The sum of `vals[i]` over the positions `i` where `vs[i] == v`.
pub open spec fn total_at(vs: Seq<usize>, vals: Seq<u64>, v: usize) -> nat
    decreases vs.len(),
{
    if vs.len() == 0 || vals.len() == 0 {
        0
    } else {
        total_at(vs.drop_last(), vals.drop_last(), v) + if vs.last() == v {
            vals.last() as nat
        } else {
            0
        }
    }
}

/// How often `v` occurs in `vs`.
pub open spec fn visits(vs: Seq<usize>, v: usize) -> nat
    decreases vs.len(),
{
    if vs.len() == 0 {
        0
    } else {
        visits(vs.drop_last(), v) + if vs.last() == v {
            1nat
        } else {
            0
        }
    }
}

/// The flags of `closing_flags`: for `1 <= i < vs.len() - 1`, at `i - 1`,
/// whether `vs[i + 1]` is a neighbour of `vs[i - 1]`.
pub open spec fn closing_spec(adj: Seq<Vec<usize>>, vs: Seq<usize>) -> Seq<bool> {
    Seq::new(
        if vs.len() >= 2 {
            (vs.len() - 2) as nat
        } else {
            0
        },
        |k: int| adj[vs[k] as int]@.contains(vs[k + 2]),
    )
}

/// 1 at each position of `ds` holding a vertex of `list`, else 0.
pub open spec fn in_list_at(list: Seq<usize>, ds: Seq<usize>) -> spec_fn(int) -> nat {
    |j: int|
        if list.contains(ds[j]) {
            1nat
        } else {
            0nat
        }
}

/// How many entries of `ds` lie in `list`.
pub open spec fn near_count(list: Seq<usize>, ds: Seq<usize>) -> nat {
    sum_range(in_list_at(list, ds), 0, ds.len() as int)
}

/// `ds` are the draws of one step from `v`: at least one, all neighbours of
/// `v`, every draw private but the last, which is public.
pub open spec fn step_draws(adj: Seq<Vec<usize>>, is_pub: Seq<bool>, v: usize, ds: Seq<usize>) -> bool {
    &&& ds.len() >= 1
    &&& forall|j: int| 0 <= j < ds.len() ==> adj[v as int]@.contains(#[trigger] ds[j])
    &&& forall|j: int| 0 <= j < ds.len() - 1 ==> !is_pub[#[trigger] ds[j] as int]
    &&& is_pub[ds.last() as int]
}

/// `p` is a route a walk from `s` may stand on: it starts at `s` and each
/// further vertex is a public neighbour of the one before.
pub open spec fn stands_on(adj: Seq<Vec<usize>>, is_pub: Seq<bool>, s: usize, p: Seq<usize>) -> bool {
    &&& p.len() >= 1
    &&& p[0] == s
    &&& forall|i: int|
        #![trigger p[i]]
        0 <= i < p.len() - 1 ==> adj[p[i] as int]@.contains(p[i + 1]) && is_pub[p[i + 1] as int]
}

/// Every vertex of `1..=n` has a neighbour, and all neighbours are public.
pub open spec fn all_neighbours_public(adj: Seq<Vec<usize>>, n: nat, is_pub: Seq<bool>) -> bool {
    forall|u: int|
        1 <= u <= n ==> (#[trigger] adj[u])@.len() > 0 && forall|k: int|
            0 <= k < adj[u]@.len() ==> is_pub[#[trigger] adj[u]@[k] as int]
}

/// What holds of a walk of `r` steps from `init_v`, whatever was drawn: each
/// step draws neighbours until a public one, which is the next step's vertex;
/// the per-step counts are the draws and the draws lying in the previous
/// vertex's list; and the per-vertex tallies add up the per-step counts.
pub open spec fn walk_wf(
    adj: Seq<Vec<usize>>,
    n: nat,
    is_pub: Seq<bool>,
    r: nat,
    init_v: usize,
    w: Walk,
) -> bool {
    let vs = w.vertices@;
    let ds = w.draws@;
    &&& vs.len() == r
    &&& vs[0] == init_v
    &&& w.tries@.len() == r
    &&& w.hits@.len() == r
    &&& ds.len() == r
    &&& forall|i: int| 0 <= i < r ==> step_draws(adj, is_pub, vs[i], #[trigger] ds[i])
    &&& forall|i: int| 0 <= i < r ==> #[trigger] w.tries@[i] == ds[i].len()
    &&& forall|i: int| 0 <= i < r - 1 ==> #[trigger] vs[i + 1] == ds[i].last()
    &&& w.hits@[0] == 0
    &&& forall|i: int| 1 <= i < r ==> #[trigger] w.hits@[i] == near_count(adj[vs[i - 1] as int]@, ds[i])
    &&& forall|i: int|
        #![trigger vs[i]]
        0 <= i < r - 1 ==> adj[vs[i] as int]@.contains(vs[i + 1]) && is_pub[vs[i + 1] as int]
    &&& forall|i: int| 0 <= i < r ==> 1 <= #[trigger] vs[i] <= n
    &&& forall|i: int| 0 <= i < r ==> 1 <= #[trigger] w.tries@[i]
    &&& forall|i: int| 0 <= i < r ==> #[trigger] w.hits@[i] <= w.tries@[i]
    &&& forall|i: int|
        #![trigger vs[i]]
        1 <= i < r - 1 && adj[vs[i - 1] as int]@.contains(vs[i + 1]) ==> 1 <= w.hits@[i]
    &&& w.picked@.len() == n + 1
    &&& w.drawn@.len() == n + 1
    &&& w.drawn_near@.len() == n + 1
    &&& forall|v: int| 0 <= v <= n ==> #[trigger] w.picked@[v] == visits(vs, v as usize)
    &&& forall|v: int| 0 <= v <= n ==> #[trigger] w.drawn@[v] == total_at(vs, w.tries@, v as usize)
    &&& forall|v: int|
        0 <= v <= n ==> #[trigger] w.drawn_near@[v] == total_at(vs, w.hits@, v as usize)
    &&& w.closes@ == closing_spec(adj, vs)
}

/// One more draw adds one to the count of draws in `list` exactly when it lies there.
proof fn lemma_near_count_push(list: Seq<usize>, ds: Seq<usize>, x: usize)
    ensures
        near_count(list, ds.push(x)) == near_count(list, ds) + if list.contains(x) {
            1nat
        } else {
            0nat
        },
{
    let e = ds.push(x);
    assert forall|j: int| 0 <= j < ds.len() implies #[trigger] in_list_at(list, e)(j) == in_list_at(
        list,
        ds,
    )(j) by {
        assert(e[j] == ds[j]);
    }
    lemma_sum_range_congruent(in_list_at(list, e), in_list_at(list, ds), 0, ds.len() as int);
    assert(e[ds.len() as int] == x);
}

/// For each inner position `i` of `v_list` (`1 <= i < len - 1`), at index
/// `i - 1`: whether `v_list[i + 1]` is a neighbour of `v_list[i - 1]`.
pub fn closing_flags(adj: &Vec<Vec<usize>>, v_list: &Vec<usize>) -> (flags: Vec<bool>)
    requires
        forall|i: int| 0 <= i < v_list@.len() ==> (#[trigger] v_list@[i] as int) < adj@.len(),
    ensures
        flags@ == closing_spec(adj@, v_list@),
{
    let r = v_list.len();
    let mut flags: Vec<bool> = Vec::new();
    if r < 2 {
        assert(flags@ =~= closing_spec(adj@, v_list@));
        return flags;
    }
    let mut i: usize = 1;
    while i < r - 1
        invariant
            2 <= r == v_list@.len(),
            1 <= i <= r - 1,
            forall|k: int| 0 <= k < v_list@.len() ==> (#[trigger] v_list@[k] as int) < adj@.len(),
            flags@ =~= closing_spec(adj@, v_list@).take(i - 1),
        decreases r - i,
    {
        let before = &adj[v_list[i - 1]];
        let target = v_list[i + 1];
        let mut flag = false;
        let mut j: usize = 0;
        while j < before.len()
            invariant
                j <= before@.len(),
                flag == exists|k: int| 0 <= k < j && #[trigger] before@[k] == target,
            decreases before@.len() - j,
        {
            if before[j] == target {
                flag = true;
            }
            j = j + 1;
        }
        assert(flag == before@.contains(target));
        flags.push(flag);
        i = i + 1;
    }
    flags
}

/// Records the draw of position `k` of `curr`'s list and returns the vertex
/// drawn: the draws from `curr` and of the step grow by one, the draws near
/// the previous vertex grow by one when `near` flags the vertex, and the
/// steps made from `curr` grow by one when the vertex is public.
pub fn record_draw(
    adj: &Vec<Vec<usize>>,
    is_pub: &Vec<bool>,
    near: &Vec<bool>,
    curr: usize,
    k: usize,
    picked: &mut Vec<u64>,
    drawn: &mut Vec<u64>,
    drawn_near: &mut Vec<u64>,
    tries: &mut u64,
    hits: &mut u64,
) -> (w: usize)
    requires
        (curr as int) < adj@.len(),
        (k as int) < adj@[curr as int]@.len(),
        (adj@[curr as int]@[k as int] as int) < near@.len(),
        (adj@[curr as int]@[k as int] as int) < is_pub@.len(),
        (curr as int) < old(picked)@.len(),
        (curr as int) < old(drawn)@.len(),
        (curr as int) < old(drawn_near)@.len(),
        old(drawn)@[curr as int] < u64::MAX,
        old(drawn_near)@[curr as int] <= old(drawn)@[curr as int],
        old(picked)@[curr as int] <= old(drawn)@[curr as int],
        *old(tries) < u64::MAX,
        *old(hits) <= *old(tries),
    ensures
        w == adj@[curr as int]@[k as int],
        final(drawn)@ == old(drawn)@.update(curr as int, (old(drawn)@[curr as int] + 1) as u64),
        final(drawn_near)@ == if near@[w as int] {
            old(drawn_near)@.update(curr as int, (old(drawn_near)@[curr as int] + 1) as u64)
        } else {
            old(drawn_near)@
        },
        final(picked)@ == if is_pub@[w as int] {
            old(picked)@.update(curr as int, (old(picked)@[curr as int] + 1) as u64)
        } else {
            old(picked)@
        },
        *final(tries) == *old(tries) + 1,
        *final(hits) == *old(hits) + if near@[w as int] {
            1u64
        } else {
            0u64
        },
{
    let w = adj[curr][k];
    *tries = *tries + 1;
    let dc = drawn[curr];
    drawn.set(curr, dc + 1);
    if near[w] {
        *hits = *hits + 1;
        let nc = drawn_near[curr];
        drawn_near.set(curr, nc + 1);
    }
    if is_pub[w] {
        let pc = picked[curr];
        picked.set(curr, pc + 1);
    }
    w
}

/// 1 at each position of `ds` whose vertex `flags` marks, else 0.
pub open spec fn flagged_at(flags: Seq<bool>, ds: Seq<usize>) -> spec_fn(int) -> nat {
    |j: int|
        if flags[ds[j] as int] {
            1nat
        } else {
            0nat
        }
}

/// How many entries of `ds` `flags` marks.
pub open spec fn flag_count(flags: Seq<bool>, ds: Seq<usize>) -> nat {
    sum_range(flagged_at(flags, ds), 0, ds.len() as int)
}

/// One more draw adds one to the flagged count exactly when it is flagged.
proof fn lemma_flag_count_push(flags: Seq<bool>, ds: Seq<usize>, x: usize)
    ensures
        flag_count(flags, ds.push(x)) == flag_count(flags, ds) + if flags[x as int] {
            1nat
        } else {
            0nat
        },
{
    let e = ds.push(x);
    assert forall|j: int| 0 <= j < ds.len() implies #[trigger] flagged_at(flags, e)(j) == flagged_at(
        flags,
        ds,
    )(j) by {
        assert(e[j] == ds[j]);
    }
    lemma_sum_range_congruent(flagged_at(flags, e), flagged_at(flags, ds), 0, ds.len() as int);
    assert(e[ds.len() as int] == x);
}

/// Draws neighbours of `curr` until one is public, recording each draw with
/// `record_draw`. Returns the public vertex, the number of draws, the number
/// of draws that `mark` flags, and the draws themselves; the step's draws are
/// added to `curr`'s tallies and to `total`. Fails only when `total` would
/// exceed `u64::MAX`.
fn draw_step(
    rng: &mut ThreadRng,
    adj: &Vec<Vec<usize>>,
    n: usize,
    is_pub: &Vec<bool>,
    mark: &Vec<bool>,
    curr: usize,
    picked: &mut Vec<u64>,
    drawn: &mut Vec<u64>,
    drawn_near: &mut Vec<u64>,
    total: &mut u64,
) -> (res: Result<(usize, u64, u64, Ghost<Seq<usize>>), WalkError>)
    requires
        graph_wf(adj@, n as int),
        n + 1 <= is_pub@.len(),
        mark@.len() == n + 1,
        1 <= curr <= n,
        adj@[curr as int]@.len() > 0,
        old(picked)@.len() == n + 1,
        old(drawn)@.len() == n + 1,
        old(drawn_near)@.len() == n + 1,
        old(drawn)@[curr as int] <= *old(total),
        old(drawn_near)@[curr as int] <= old(drawn)@[curr as int],
        old(picked)@[curr as int] <= old(drawn)@[curr as int],
    ensures
        match res {
            Ok((next, t, h, ds)) => {
                &&& step_draws(adj@, is_pub@, curr, ds@)
                &&& forall|j: int| 0 <= j < ds@.len() ==> 1 <= #[trigger] ds@[j] <= n
                &&& t == ds@.len()
                &&& h == flag_count(mark@, ds@)
                &&& h <= t
                &&& next == ds@.last()
                &&& *final(total) == *old(total) + t
                &&& final(picked)@ == old(picked)@.update(
                    curr as int,
                    (old(picked)@[curr as int] + 1) as u64,
                )
                &&& final(drawn)@ == old(drawn)@.update(curr as int, (old(drawn)@[curr as int] + t) as u64)
                &&& final(drawn_near)@ == old(drawn_near)@.update(
                    curr as int,
                    (old(drawn_near)@[curr as int] + h) as u64,
                )
                &&& (forall|k: int|
                    0 <= k < adj@[curr as int]@.len() ==> is_pub@[#[trigger] adj@[curr as int]@[k] as int])
                    ==> t == 1
            },
            Err(e) => e == WalkError::Exhausted,
        },
        *old(total) < u64::MAX && (forall|k: int|
            0 <= k < adj@[curr as int]@.len() ==> is_pub@[#[trigger] adj@[curr as int]@[k] as int])
            ==> res is Ok,
{
    let ghost p0 = picked@;
    let ghost d0 = drawn@;
    let ghost n0 = drawn_near@;
    let ghost total0 = *total;
    let deg = adj[curr].len();
    let mut t: u64 = 0;
    let mut h: u64 = 0;
    let mut found = false;
    let mut next: usize = curr;
    let ghost mut ds: Seq<usize> = Seq::empty();
    let ghost all_pub = forall|k: int|
        0 <= k < adj@[curr as int]@.len() ==> is_pub@[#[trigger] adj@[curr as int]@[k] as int];
    while !found
        invariant
            graph_wf(adj@, n as int),
            n + 1 <= is_pub@.len(),
            mark@.len() == n + 1,
            1 <= curr <= n,
            deg == adj@[curr as int]@.len() > 0,
            all_pub == forall|k: int|
                0 <= k < adj@[curr as int]@.len() ==> is_pub@[#[trigger] adj@[curr as int]@[k] as int],
            h <= t,
            t == ds.len(),
            *total == total0 + t,
            h == flag_count(mark@, ds),
            forall|j: int| 0 <= j < ds.len() ==> adj@[curr as int]@.contains(#[trigger] ds[j]),
            forall|j: int| 0 <= j < ds.len() ==> 1 <= #[trigger] ds[j] <= n,
            !found ==> forall|j: int| 0 <= j < ds.len() ==> !is_pub@[#[trigger] ds[j] as int],
            found ==> forall|j: int| 0 <= j < ds.len() - 1 ==> !is_pub@[#[trigger] ds[j] as int],
            found ==> 1 <= t && ds.last() == next && is_pub@[next as int],
            all_pub ==> t <= 1 && (!found ==> t == 0),
            picked@.len() == n + 1,
            drawn@.len() == n + 1,
            drawn_near@.len() == n + 1,
            picked@ == if found {
                p0.update(curr as int, (p0[curr as int] + 1) as u64)
            } else {
                p0
            },
            drawn@ == d0.update(curr as int, (d0[curr as int] + t) as u64),
            drawn_near@ == n0.update(curr as int, (n0[curr as int] + h) as u64),
            d0.len() == n + 1,
            n0.len() == n + 1,
            p0.len() == n + 1,
            total0 == *old(total),
            d0[curr as int] <= total0,
            d0[curr as int] + t <= *total,
            n0[curr as int] + h <= d0[curr as int] + t,
            n0[curr as int] <= d0[curr as int],
            p0[curr as int] <= d0[curr as int],
        decreases u64::MAX - *total,
    {
        if *total == u64::MAX {
            return Err(WalkError::Exhausted);
        }
        let k = random_index(rng, deg);
        proof {
            assert(1 <= adj@[curr as int]@[k as int] <= n);
            assert(drawn@[curr as int] == d0[curr as int] + t);
            assert(drawn_near@[curr as int] == n0[curr as int] + h);
        }
        let w = record_draw(
            adj,
            is_pub,
            mark,
            curr,
            k,
            picked,
            drawn,
            drawn_near,
            &mut t,
            &mut h,
        );
        *total = *total + 1;
        proof {
            lemma_flag_count_push(mark@, ds, w);
            assert(adj@[curr as int]@.contains(w)) by {
                assert(adj@[curr as int]@[k as int] == w);
            }
            let ds1 = ds.push(w);
            assert forall|j: int| 0 <= j < ds.len() implies #[trigger] ds1[j] == ds[j] by {}
            ds = ds1;
            assert(drawn@ =~= d0.update(curr as int, (d0[curr as int] + t) as u64));
            assert(drawn_near@ =~= n0.update(curr as int, (n0[curr as int] + h) as u64));
        }
        if is_pub[w] {
            found = true;
            next = w;
        }
    }
    Ok((next, t, h, Ghost(ds)))
}

/// Moves the flags of `mark` from the neighbours of `prev` (or from nothing,
/// when there is no previous vertex) to the neighbours of `curr`.
fn move_marks(adj: &Vec<Vec<usize>>, n: usize, mark: &mut Vec<bool>, has_prev: bool, prev: usize, curr: usize)
    requires
        graph_wf(adj@, n as int),
        old(mark)@.len() == n + 1,
        1 <= curr <= n,
        has_prev ==> 1 <= prev <= n,
        forall|x: int|
            0 <= x <= n ==> #[trigger] old(mark)@[x] == (has_prev && adj@[prev as int]@.contains(
                x as usize,
            )),
    ensures
        final(mark)@.len() == n + 1,
        forall|x: int| 0 <= x <= n ==> #[trigger] final(mark)@[x] == adj@[curr as int]@.contains(x as usize),
{
    assert(n < adj.len());
    if has_prev {
        let pn = &adj[prev];
        let mut j: usize = 0;
        while j < pn.len()
            invariant
                graph_wf(adj@, n as int),
                1 <= prev <= n,
                n < usize::MAX,
                pn@ == adj@[prev as int]@,
                j <= pn@.len(),
                mark@.len() == n + 1,
                forall|x: int|
                    0 <= x <= n ==> #[trigger] mark@[x] == (adj@[prev as int]@.contains(x as usize)
                        && !exists|q: int| 0 <= q < j && pn@[q] == x as usize),
            decreases pn@.len() - j,
        {
            let x = pn[j];
            assert(adj@[prev as int]@[j as int] == x);
            mark.set(x, false);
            proof {
                assert forall|y: int| 0 <= y <= n implies #[trigger] mark@[y] == (adj@[prev as int]@.contains(
                    y as usize,
                ) && !exists|q: int| 0 <= q < j + 1 && pn@[q] == y as usize) by {
                    if y as usize == x {
                        assert(pn@[j as int] == x);
                    } else if exists|q: int| 0 <= q < j + 1 && pn@[q] == y as usize {
                        let q = choose|q: int| 0 <= q < j + 1 && pn@[q] == y as usize;
                        assert(q < j);
                    }
                }
            }
            j = j + 1;
        }
        proof {
            assert forall|x: int| 0 <= x <= n implies !#[trigger] mark@[x] by {
                if adj@[prev as int]@.contains(x as usize) {
                    let q = choose|q: int| 0 <= q < pn@.len() && pn@[q] == x as usize;
                }
            }
        }
    }
    let cn = &adj[curr];
    let mut j: usize = 0;
    while j < cn.len()
        invariant
            graph_wf(adj@, n as int),
            1 <= curr <= n,
            n < usize::MAX,
            cn@ == adj@[curr as int]@,
            j <= cn@.len(),
            mark@.len() == n + 1,
            forall|x: int|
                0 <= x <= n ==> #[trigger] mark@[x] == exists|q: int| 0 <= q < j && cn@[q] == x as usize,
        decreases cn@.len() - j,
    {
        let x = cn[j];
        assert(adj@[curr as int]@[j as int] == x);
        mark.set(x, true);
        proof {
            assert forall|y: int| 0 <= y <= n implies #[trigger] mark@[y] == exists|q: int|
                0 <= q < j + 1 && cn@[q] == y as usize by {
                if y as usize == x {
                    assert(cn@[j as int] == x);
                } else if exists|q: int| 0 <= q < j + 1 && cn@[q] == y as usize {
                    let q = choose|q: int| 0 <= q < j + 1 && cn@[q] == y as usize;
                    assert(q < j);
                }
            }
        }
        j = j + 1;
    }
}

/// Walks `r` steps from `init_v`. At each step it draws neighbours of the
/// current vertex uniformly at random until one is public; that one is where
/// the next step stands. Which neighbours are drawn is chance: the contract
/// states what holds of every outcome (`walk_wf`, with the draws of each step
/// in `draws`), and that the walk succeeds when every neighbour is public.
pub fn rand_walk(
    adj: &Vec<Vec<usize>>,
    n: usize,
    is_pub: &Vec<bool>,
    r: usize,
    init_v: usize,
) -> (res: Result<Walk, WalkError>)
    requires
        graph_wf(adj@, n as int),
        n + 1 <= is_pub@.len(),
        1 <= init_v <= n,
        r >= 1,
    ensures
        match res {
            Ok(w) => walk_wf(adj@, n as nat, is_pub@, r as nat, init_v, w),
            Err(WalkError::DeadEnd(v)) => {
                &&& 1 <= v <= n
                &&& adj@[v as int]@.len() == 0
                &&& exists|p: Seq<usize>|
                    #[trigger] stands_on(adj@, is_pub@, init_v, p) && p.len() <= r && p.last() == v
            },
            Err(WalkError::Exhausted) => true,
        },
        adj@[init_v as int]@.len() == 0 ==> (res matches Err(WalkError::DeadEnd(v)) && v == init_v),
        all_neighbours_public(adj@, n as nat, is_pub@) ==> res is Ok,
{
    assert(n + 1 <= adj.len());
    let ghost all_pub = all_neighbours_public(adj@, n as nat, is_pub@);
    let mut rng = thread_generator();
    let mut vertices: Vec<usize> = Vec::new();
    let mut tries: Vec<u64> = Vec::new();
    let mut hits: Vec<u64> = Vec::new();
    let mut picked: Vec<u64> = vec![0u64; n + 1];
    let mut drawn: Vec<u64> = vec![0u64; n + 1];
    let mut drawn_near: Vec<u64> = vec![0u64; n + 1];
    let mut mark: Vec<bool> = vec![false; n + 1];
    let ghost mut draws: Seq<Seq<usize>> = Seq::empty();
    let mut total: u64 = 0;
    let mut curr: usize = init_v;
    let mut prev: usize = 0;
    let mut i: usize = 0;
    while i < r
        invariant
            graph_wf(adj@, n as int),
            n + 1 <= is_pub@.len(),
            1 <= init_v <= n,
            all_pub == all_neighbours_public(adj@, n as nat, is_pub@),
            i <= r,
            vertices@.len() == i,
            tries@.len() == i,
            hits@.len() == i,
            draws.len() == i,
            1 <= curr <= n,
            i == 0 ==> curr == init_v,
            i >= 1 ==> vertices@[0] == init_v,
            i >= 1 ==> 1 <= prev <= n && prev == vertices@[i - 1] && adj@[prev as int]@.contains(
                curr,
            ) && is_pub@[curr as int] && curr == draws[i - 1].last(),
            i >= 2 ==> (adj@[vertices@[i - 2] as int]@.contains(curr) ==> 1 <= hits@[i - 1]),
            all_pub ==> total == i,
            forall|k: int| 0 <= k < i ==> step_draws(adj@, is_pub@, vertices@[k], #[trigger] draws[k]),
            forall|k: int| 0 <= k < i ==> #[trigger] tries@[k] == draws[k].len(),
            forall|k: int| 0 <= k < i - 1 ==> #[trigger] vertices@[k + 1] == draws[k].last(),
            i >= 1 ==> hits@[0] == 0,
            forall|k: int|
                1 <= k < i ==> #[trigger] hits@[k] == near_count(
                    adj@[vertices@[k - 1] as int]@,
                    draws[k],
                ),
            forall|k: int|
                #![trigger vertices@[k]]
                0 <= k < i - 1 ==> adj@[vertices@[k] as int]@.contains(vertices@[k + 1])
                    && is_pub@[vertices@[k + 1] as int],
            forall|k: int| 0 <= k < i ==> 1 <= (#[trigger] vertices@[k] as int) <= n,
            forall|k: int| 0 <= k < i ==> 1 <= #[trigger] tries@[k],
            forall|k: int| 0 <= k < i ==> #[trigger] hits@[k] <= tries@[k],
            forall|k: int|
                #![trigger vertices@[k]]
                1 <= k < i - 1 && adj@[vertices@[k - 1] as int]@.contains(vertices@[k + 1]) ==> 1
                    <= hits@[k],
            picked@.len() == n + 1,
            drawn@.len() == n + 1,
            drawn_near@.len() == n + 1,
            mark@.len() == n + 1,
            forall|v: int| 0 <= v <= n ==> #[trigger] picked@[v] == visits(vertices@, v as usize),
            forall|v: int|
                0 <= v <= n ==> #[trigger] drawn@[v] == total_at(vertices@, tries@, v as usize),
            forall|v: int|
                0 <= v <= n ==> #[trigger] drawn_near@[v] == total_at(
                    vertices@,
                    hits@,
                    v as usize,
                ),
            forall|v: int| 0 <= v <= n ==> #[trigger] drawn@[v] <= total,
            forall|v: int| 0 <= v <= n ==> #[trigger] drawn_near@[v] <= drawn@[v],
            forall|v: int| 0 <= v <= n ==> #[trigger] picked@[v] <= drawn@[v],
            forall|x: int|
                0 <= x <= n ==> #[trigger] mark@[x] == (i >= 1 && adj@[prev as int]@.contains(
                    x as usize,
                )),
        decreases r - i,
    {
        if adj[curr].len() == 0 {
            proof {
                let p = vertices@.push(curr);
                assert forall|k: int| #![trigger p[k]] 0 <= k < p.len() - 1 implies adj@[p[k] as int]@.contains(
                    p[k + 1],
                ) && is_pub@[p[k + 1] as int] by {
                    assert(p[k] == vertices@[k]);
                    if k < i - 1 {
                        assert(p[k + 1] == vertices@[k + 1]);
                    }
                }
                assert(stands_on(adj@, is_pub@, init_v, p));
            }
            return Err(WalkError::DeadEnd(curr));
        }
        let ghost tally0 = (picked@, drawn@, drawn_near@);
        let (next, t, h, Ghost(ds)) = match draw_step(
            &mut rng,
            adj,
            n,
            is_pub,
            &mark,
            curr,
            &mut picked,
            &mut drawn,
            &mut drawn_near,
            &mut total,
        ) {
            Ok(step) => step,
            Err(e) => {
                proof {
                    if all_pub {
                        assert(i < r);
                        assert(usize::MAX <= u64::MAX);
                        assert(adj@[curr as int] == adj@[curr as int]);
                    }
                }
                return Err(e);
            },
        };
        proof {
            if i >= 1 {
                let prev_list = adj@[prev as int]@;
                assert forall|j: int| 0 <= j < ds.len() implies #[trigger] flagged_at(mark@, ds)(j)
                    == in_list_at(prev_list, ds)(j) by {}
                lemma_sum_range_congruent(flagged_at(mark@, ds), in_list_at(prev_list, ds), 0, ds.len() as int);
                if prev_list.contains(next) {
                    assert(ds[ds.len() - 1] == next);
                    lemma_one_counted(mark@, ds, ds.len() - 1);
                }
            } else {
                assert forall|j: int| 0 <= j < ds.len() implies #[trigger] flagged_at(mark@, ds)(j)
                    == (|x: int| 0nat)(j) by {}
                lemma_sum_range_congruent(flagged_at(mark@, ds), |x: int| 0nat, 0, ds.len() as int);
                lemma_zero_sum(0, ds.len() as int);
            }
            let vs = vertices@.push(curr);
            assert(vs.drop_last() =~= vertices@);
            assert(tries@.push(t).drop_last() =~= tries@);
            assert(hits@.push(h).drop_last() =~= hits@);
            draws = draws.push(ds);
            if all_pub {
                assert(adj@[curr as int]@.len() > 0);
            }
        }
        vertices.push(curr);
        tries.push(t);
        hits.push(h);
        move_marks(adj, n, &mut mark, i >= 1, prev, curr);
        prev = curr;
        curr = next;
        i = i + 1;
    }
    let closes = closing_flags(adj, &vertices);
    let walk = Walk {
        vertices,
        tries,
        hits,
        picked,
        drawn,
        drawn_near,
        closes,
        draws: Ghost(draws),
    };
    Ok(walk)
}

/// A flagged draw makes the flagged count positive.
proof fn lemma_one_counted(flags: Seq<bool>, ds: Seq<usize>, j: int)
    requires
        0 <= j < ds.len(),
        flags[ds[j] as int],
    ensures
        1 <= flag_count(flags, ds),
{
    lemma_sum_range_mono(flagged_at(flags, ds), 0, j + 1, ds.len() as int);
    lemma_sum_range_mono(flagged_at(flags, ds), 0, j, j);
}

/// 1 at each position of `vs` holding `x`, else 0.
pub open spec fn equal_at(vs: Seq<usize>, x: usize) -> spec_fn(int) -> nat {
    |j: int|
        if vs[j] == x {
            1nat
        } else {
            0nat
        }
}

/// For each position `i >= m`: how many positions `j <= i - m` hold the same vertex.
pub open spec fn lag_matches(vs: Seq<usize>, m: int) -> spec_fn(int) -> nat {
    |i: int| sum_range(equal_at(vs, vs[i]), 0, i - m + 1)
}

/// The number of pairs of positions `j <= i - m` of `vs` that hold the same
/// vertex: the collisions at lag at least `m`.
pub open spec fn collisions(vs: Seq<usize>, m: int) -> nat {
    sum_range(lag_matches(vs, m), m, vs.len() as int)
}

/// Twice the number of pairs of positions at least `m` apart in `v_list`
/// that hold the same vertex: the denominator of the collision estimates of
/// the component size. `None` when it exceeds `usize::MAX`.
pub fn size_collisions(n: usize, v_list: &Vec<usize>, m: usize) -> (res: Option<usize>)
    requires
        n < usize::MAX,
        forall|i: int| 0 <= i < v_list@.len() ==> #[trigger] v_list@[i] <= n,
    ensures
        match res {
            Some(sum1) => sum1 == 2 * collisions(v_list@, m as int),
            None => 2 * collisions(v_list@, m as int) > usize::MAX,
        },
{
    let r = v_list.len();
    let ghost vs = v_list@;
    let mut cntv: Vec<usize> = vec![0; n + 1];
    let mut sum1: usize = 0;
    if m >= r {
        return Some(0);
    }
    let mut i: usize = m;
    while i < r
        invariant
            m <= i <= r,
            r == vs.len(),
            vs == v_list@,
            forall|k: int| 0 <= k < vs.len() ==> #[trigger] vs[k] <= n,
            cntv@.len() == n + 1,
            forall|x: int|
                0 <= x <= n ==> #[trigger] cntv@[x] == sum_range(
                    equal_at(vs, x as usize),
                    0,
                    i - m,
                ),
            forall|x: int| 0 <= x <= n ==> #[trigger] cntv@[x] <= i - m,
            sum1 == 2 * sum_range(lag_matches(vs, m as int), m as int, i as int),
        decreases r - i,
    {
        let a = v_list[i - m];
        let ca = cntv[a];
        cntv.set(a, ca + 1);
        proof {
            assert forall|x: int| 0 <= x <= n implies #[trigger] cntv@[x] == sum_range(
                equal_at(vs, x as usize),
                0,
                i - m + 1,
            ) by {
                assert(vs[i - m] == a);
            }
            lemma_sum_range_mono(lag_matches(vs, m as int), m as int, i + 1, r as int);
        }
        let b = v_list[i];
        let same = cntv[b];
        let twice = match same.checked_mul(2) {
            Some(t) => t,
            None => return None,
        };
        match sum1.checked_add(twice) {
            Some(s) => sum1 = s,
            None => return None,
        }
        i = i + 1;
    }
    Some(sum1)
}

/// Per position, `a` is at most `b`: so are the totals.
proof fn lemma_total_le(vs: Seq<usize>, a: Seq<u64>, b: Seq<u64>, v: usize)
    requires
        a.len() == vs.len(),
        b.len() == vs.len(),
        forall|i: int| 0 <= i < vs.len() ==> #[trigger] a[i] <= b[i],
    ensures
        total_at(vs, a, v) <= total_at(vs, b, v),
    decreases vs.len(),
{
    if vs.len() > 0 {
        let (vs1, a1, b1) = (vs.drop_last(), a.drop_last(), b.drop_last());
        assert forall|i: int| 0 <= i < vs1.len() implies #[trigger] a1[i] <= b1[i] by {
            assert(a1[i] == a[i] && b1[i] == b[i]);
        }
        lemma_total_le(vs1, a1, b1, v);
        assert(a[a.len() - 1] <= b[b.len() - 1]);
    }
}

/// With at least one draw per step, the draws from `v` are at least its visits,
/// and a vertex that occurs is visited at least once.
proof fn lemma_visits_le(vs: Seq<usize>, t: Seq<u64>, v: usize)
    requires
        t.len() == vs.len(),
        forall|i: int| 0 <= i < vs.len() ==> 1 <= #[trigger] t[i],
    ensures
        visits(vs, v) <= total_at(vs, t, v),
        vs.contains(v) ==> 1 <= visits(vs, v),
    decreases vs.len(),
{
    if vs.len() > 0 {
        let (vs1, t1) = (vs.drop_last(), t.drop_last());
        assert forall|i: int| 0 <= i < vs1.len() implies 1 <= #[trigger] t1[i] by {
            assert(t1[i] == t[i]);
        }
        lemma_visits_le(vs1, t1, v);
        assert(1 <= t[t.len() - 1]);
        if vs.contains(v) && vs.last() != v {
            let k = choose|k: int| 0 <= k < vs.len() && vs[k] == v;
            assert(k < vs.len() - 1);
            assert(vs1[k] == v);
        }
    }
}

/// Law: in every walk, each vertex it stands on was stood on at least once
/// (so its draw count is positive and the ratios of its tallies are defined),
/// and per vertex the public draws and the draws near the previous vertex never
/// exceed the draws.
pub proof fn lemma_walk_tallies(
    adj: Seq<Vec<usize>>,
    n: nat,
    is_pub: Seq<bool>,
    r: nat,
    init_v: usize,
    w: Walk,
)
    requires
        walk_wf(adj, n, is_pub, r, init_v, w),
    ensures
        forall|i: int| 0 <= i < r ==> 1 <= #[trigger] w.picked@[w.vertices@[i] as int],
        forall|v: int| 0 <= v <= n ==> #[trigger] w.picked@[v] <= w.drawn@[v],
        forall|v: int| 0 <= v <= n ==> #[trigger] w.drawn_near@[v] <= w.drawn@[v],
{
    let vs = w.vertices@;
    assert forall|v: int| 0 <= v <= n implies #[trigger] w.picked@[v] <= w.drawn@[v] by {
        lemma_visits_le(vs, w.tries@, v as usize);
    }
    assert forall|v: int| 0 <= v <= n implies #[trigger] w.drawn_near@[v] <= w.drawn@[v] by {
        lemma_total_le(vs, w.hits@, w.tries@, v as usize);
    }
    assert forall|i: int| 0 <= i < r implies 1 <= #[trigger] w.picked@[w.vertices@[i] as int] by {
        let v = vs[i];
        assert(vs.contains(v));
        lemma_visits_le(vs, w.tries@, v);
    }
}

/// The visits of each vertex.
pub open spec fn visits_of(vs: Seq<usize>) -> spec_fn(int) -> nat {
    |v: int| visits(vs, v as usize)
}

/// The entries of a tally, as numbers.
pub open spec fn tally_of(vals: Seq<u64>) -> spec_fn(int) -> nat {
    |i: int| vals[i] as nat
}

/// The visits of the vertices `0..=n` add up to the length of `vs`.
proof fn lemma_visits_total(vs: Seq<usize>, n: nat)
    requires
        n < usize::MAX,
        forall|i: int| 0 <= i < vs.len() ==> (#[trigger] vs[i] as int) <= n,
    ensures
        sum_range(visits_of(vs), 0, (n + 1) as int) == vs.len(),
    decreases vs.len(),
{
    if vs.len() > 0 {
        let vs1 = vs.drop_last();
        assert forall|i: int| 0 <= i < vs1.len() implies (#[trigger] vs1[i] as int) <= n by {
            assert(vs1[i] == vs[i]);
        }
        lemma_visits_total(vs1, n);
        let x = vs.last() as int;
        assert(vs[vs.len() - 1] as int <= n);
        assert forall|i: int| 0 <= i < n + 1 implies #[trigger] visits_of(vs)(i) == visits_of(vs1)(i)
            + if i == x {
            1nat
        } else {
            0nat
        } by {}
        lemma_sum_range_bump(visits_of(vs), visits_of(vs1), x, 0, (n + 1) as int);
    } else {
        lemma_sum_range_congruent(visits_of(vs), |i: int| 0nat, 0, (n + 1) as int);
        lemma_zero_sum(0, (n + 1) as int);
    }
}

/// A sum of zeros is zero.
proof fn lemma_zero_sum(lo: int, hi: int)
    ensures
        sum_range(|i: int| 0nat, lo, hi) == 0,
    decreases hi - lo,
{
    if hi > lo {
        lemma_zero_sum(lo, hi - 1);
    }
}

/// Law: in every walk of `r` steps, the steps made from the vertices
/// `0..=n` add up to `r`: each step is tallied at exactly one vertex.
pub proof fn lemma_walk_steps_total(
    adj: Seq<Vec<usize>>,
    n: nat,
    is_pub: Seq<bool>,
    r: nat,
    init_v: usize,
    w: Walk,
)
    requires
        n < usize::MAX,
        walk_wf(adj, n, is_pub, r, init_v, w),
    ensures
        sum_range(tally_of(w.picked@), 0, (n + 1) as int) == r,
{
    let vs = w.vertices@;
    lemma_visits_total(vs, n);
    assert forall|v: int| 0 <= v < n + 1 implies #[trigger] tally_of(w.picked@)(v) == visits_of(vs)(v) by {
        assert(w.picked@[v] == visits(vs, v as usize));
    }
    lemma_sum_range_congruent(tally_of(w.picked@), visits_of(vs), 0, (n + 1) as int);
}

/// A sum of ones counts the range.
proof fn lemma_one_sum(k: int)
    requires
        0 <= k,
    ensures
        sum_range(|j: int| 1nat, 0, k) == k,
    decreases k,
{
    if k > 0 {
        lemma_one_sum(k - 1);
    }
}

/// Law: in every walk, a step from a vertex whose neighbours are all public
/// draws once; a step none of whose vertex's neighbours lie in the previous
/// vertex's list has no near draws; and one all of whose do has only near draws.
pub proof fn lemma_walk_step_counts(
    adj: Seq<Vec<usize>>,
    n: nat,
    is_pub: Seq<bool>,
    r: nat,
    init_v: usize,
    w: Walk,
    i: int,
)
    requires
        walk_wf(adj, n, is_pub, r, init_v, w),
        0 <= i < r,
    ensures
        (forall|k: int|
            0 <= k < adj[w.vertices@[i] as int]@.len() ==> is_pub[#[trigger] adj[w.vertices@[
                i] as int]@[k] as int]) ==> w.tries@[i] == 1,
        i >= 1 && (forall|k: int|
            0 <= k < adj[w.vertices@[i] as int]@.len() ==> !adj[w.vertices@[i - 1] as int]@.contains(
                #[trigger] adj[w.vertices@[i] as int]@[k],
            )) ==> w.hits@[i] == 0,
        i >= 1 && (forall|k: int|
            0 <= k < adj[w.vertices@[i] as int]@.len() ==> adj[w.vertices@[i - 1] as int]@.contains(
                #[trigger] adj[w.vertices@[i] as int]@[k],
            )) ==> w.hits@[i] == w.tries@[i],
{
    let vs = w.vertices@;
    let ds = w.draws@[i];
    let v = vs[i];
    assert(step_draws(adj, is_pub, v, ds));
    if forall|k: int| 0 <= k < adj[v as int]@.len() ==> is_pub[#[trigger] adj[v as int]@[k] as int] {
        if ds.len() >= 2 {
            assert(adj[v as int]@.contains(ds[0]));
            let k = choose|k: int| 0 <= k < adj[v as int]@.len() && adj[v as int]@[k] == ds[0];
            assert(!is_pub[ds[0] as int]);
        }
    }
    if i >= 1 {
        let prev_list = adj[vs[i - 1] as int]@;
        if forall|k: int| 0 <= k < adj[v as int]@.len() ==> !prev_list.contains(
            #[trigger] adj[v as int]@[k],
        ) {
            assert forall|j: int| 0 <= j < ds.len() implies #[trigger] in_list_at(prev_list, ds)(j)
                == (|x: int| 0nat)(j) by {
                assert(adj[v as int]@.contains(ds[j]));
                let k = choose|k: int| 0 <= k < adj[v as int]@.len() && adj[v as int]@[k] == ds[j];
            }
            lemma_sum_range_congruent(in_list_at(prev_list, ds), |x: int| 0nat, 0, ds.len() as int);
            lemma_zero_sum(0, ds.len() as int);
        }
        if forall|k: int| 0 <= k < adj[v as int]@.len() ==> prev_list.contains(
            #[trigger] adj[v as int]@[k],
        ) {
            assert forall|j: int| 0 <= j < ds.len() implies #[trigger] in_list_at(prev_list, ds)(j)
                == (|x: int| 1nat)(j) by {
                assert(adj[v as int]@.contains(ds[j]));
                let k = choose|k: int| 0 <= k < adj[v as int]@.len() && adj[v as int]@[k] == ds[j];
            }
            lemma_sum_range_congruent(in_list_at(prev_list, ds), |x: int| 1nat, 0, ds.len() as int);
            lemma_one_sum(ds.len() as int);
        }
    }
}

/// With one draw at each step at `v`, the draws from `v` are its visits.
proof fn lemma_total_ones(vs: Seq<usize>, t: Seq<u64>, v: usize)
    requires
        t.len() == vs.len(),
        forall|i: int| 0 <= i < vs.len() && vs[i] == v ==> #[trigger] t[i] == 1,
    ensures
        total_at(vs, t, v) == visits(vs, v),
    decreases vs.len(),
{
    if vs.len() > 0 {
        let (vs1, t1) = (vs.drop_last(), t.drop_last());
        assert forall|i: int| 0 <= i < vs1.len() && vs1[i] == v implies #[trigger] t1[i] == 1 by {
            assert(t1[i] == t[i] && vs1[i] == vs[i]);
        }
        lemma_total_ones(vs1, t1, v);
    }
}

/// With no value at the steps at `v`, the total at `v` is 0.
proof fn lemma_total_zero(vs: Seq<usize>, t: Seq<u64>, v: usize)
    requires
        t.len() == vs.len(),
        forall|i: int| 0 <= i < vs.len() && vs[i] == v ==> #[trigger] t[i] == 0,
    ensures
        total_at(vs, t, v) == 0,
    decreases vs.len(),
{
    if vs.len() > 0 {
        let (vs1, t1) = (vs.drop_last(), t.drop_last());
        assert forall|i: int| 0 <= i < vs1.len() && vs1[i] == v implies #[trigger] t1[i] == 0 by {
            assert(t1[i] == t[i] && vs1[i] == vs[i]);
        }
        lemma_total_zero(vs1, t1, v);
    }
}

/// Law: in every walk, a vertex of `1..=n` all of whose neighbours are public
/// has as many draws as steps, so its public-degree estimate is its degree.
pub proof fn lemma_walk_all_public_draws(
    adj: Seq<Vec<usize>>,
    n: nat,
    is_pub: Seq<bool>,
    r: nat,
    init_v: usize,
    w: Walk,
    v: usize,
)
    requires
        walk_wf(adj, n, is_pub, r, init_v, w),
        1 <= v <= n,
        forall|k: int| 0 <= k < adj[v as int]@.len() ==> is_pub[#[trigger] adj[v as int]@[k] as int],
    ensures
        w.drawn@[v as int] == w.picked@[v as int],
{
    let vs = w.vertices@;
    assert forall|i: int| 0 <= i < vs.len() && vs[i] == v implies #[trigger] w.tries@[i] == 1 by {
        lemma_walk_step_counts(adj, n, is_pub, r, init_v, w, i);
    }
    lemma_total_ones(vs, w.tries@, v);
}

/// No three vertices of `1..=n` are joined `a -> b`, `b -> c`, `a -> c`.
pub open spec fn triangle_free(adj: Seq<Vec<usize>>, n: nat) -> bool {
    forall|a: int, b: usize, c: usize|
        1 <= a <= n && 1 <= b <= n && #[trigger] adj[a]@.contains(b) && #[trigger] adj[b as int]@.contains(c)
            ==> !adj[a]@.contains(c)
}

/// Law: in every walk on a triangle-free graph no draw is near the previous
/// vertex, so every near-draw tally is 0 (and so is the second clustering ratio).
pub proof fn lemma_walk_triangle_free(
    adj: Seq<Vec<usize>>,
    n: nat,
    is_pub: Seq<bool>,
    r: nat,
    init_v: usize,
    w: Walk,
)
    requires
        walk_wf(adj, n, is_pub, r, init_v, w),
        triangle_free(adj, n),
    ensures
        forall|i: int| 0 <= i < r ==> #[trigger] w.hits@[i] == 0,
        forall|v: int| 0 <= v <= n ==> #[trigger] w.drawn_near@[v] == 0,
{
    let vs = w.vertices@;
    assert forall|i: int| 0 <= i < r implies #[trigger] w.hits@[i] == 0 by {
        if i >= 1 {
            let a = vs[i - 1];
            let b = vs[i];
            assert(adj[a as int]@.contains(b));
            let ds = w.draws@[i];
            assert(step_draws(adj, is_pub, b, ds));
            assert forall|j: int| 0 <= j < ds.len() implies #[trigger] in_list_at(adj[a as int]@, ds)(j)
                == (|x: int| 0nat)(j) by {
                assert(adj[b as int]@.contains(ds[j]));
            }
            lemma_sum_range_congruent(in_list_at(adj[a as int]@, ds), |x: int| 0nat, 0, ds.len() as int);
            lemma_zero_sum(0, ds.len() as int);
        }
    }
    assert forall|v: int| 0 <= v <= n implies #[trigger] w.drawn_near@[v] == 0 by {
        lemma_total_zero(vs, w.hits@, v as usize);
    }
}

} // verus!
