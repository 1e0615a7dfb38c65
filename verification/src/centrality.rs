//! Centrality ranking: an iterative eigenvector-style (PageRank-family)
//! score over the dependency graph, held as fixed-point millionths.

use vstd::prelude::*;
use crate::graph::{DependencyGraph, id_views};
use crate::text::lex_lt;

verus! {

/// Damping factor in millionths: each iteration keeps this share of the
/// redistributed mass, the rest teleports uniformly.
pub const DAMPING: u64 = 850_000;

/// Convergence tolerance in millionths for the L1 difference between
/// successive score vectors.
pub const TOLERANCE: u64 = 1_000;

/// Iteration cap; hitting it without convergence is reported, never
/// passed off as success.
pub const MAX_ITERATIONS: usize = 50;

/// Structural importance of one module. `score` is raw probability mass
/// in millionths (see [`crate::SCALE`]); the masses of all modules are
/// intended to total one, and no post-normalization is applied.
pub struct CentralityScore {
    pub node: String,
    pub score: u64,
}

/// Outcome of centrality ranking: one score per module, sorted by
/// descending score with ties broken by ascending identifier, and
/// whether the iteration converged within its cap.
pub struct CentralityResult {
    pub scores: Vec<CentralityScore>,
    pub converged: bool,
}

/// Total mass of a score vector, in millionths.
pub open spec fn sum64(s: Seq<u64>) -> int
    decreases s.len(),
{
    if s.len() == 0 {
        0
    } else {
        sum64(s.drop_last()) + s.last()
    }
}

proof fn lemma_sum64_nonneg(s: Seq<u64>)
    ensures
        sum64(s) >= 0,
    decreases s.len(),
{
    if s.len() > 0 {
        lemma_sum64_nonneg(s.drop_last());
    }
}

proof fn lemma_sum64_take_step(s: Seq<u64>, i: int)
    requires
        0 <= i < s.len(),
    ensures
        sum64(s.take(i + 1)) == sum64(s.take(i)) + s[i],
{
    assert(s.take(i + 1).drop_last() =~= s.take(i));
    assert(s.take(i + 1).last() == s[i]);
}

proof fn lemma_sum64_take_all(s: Seq<u64>)
    ensures
        sum64(s.take(s.len() as int)) == sum64(s),
{
    assert(s.take(s.len() as int) =~= s);
}

proof fn lemma_sum64_take_mono(s: Seq<u64>, k: int)
    requires
        0 <= k <= s.len(),
    ensures
        sum64(s.take(k)) <= sum64(s),
    decreases s.len() - k,
{
    if k < s.len() {
        lemma_sum64_take_step(s, k);
        lemma_sum64_take_mono(s, k + 1);
    } else {
        lemma_sum64_take_all(s);
    }
}

proof fn lemma_sum64_elem(s: Seq<u64>, i: int)
    requires
        0 <= i < s.len(),
    ensures
        s[i] <= sum64(s),
    decreases s.len(),
{
    if i == s.len() - 1 {
        lemma_sum64_nonneg(s.drop_last());
    } else {
        lemma_sum64_elem(s.drop_last(), i);
    }
}

proof fn lemma_sum64_update(s: Seq<u64>, i: int, v: u64)
    requires
        0 <= i < s.len(),
    ensures
        sum64(s.update(i, v)) == sum64(s) - s[i] + v,
    decreases s.len(),
{
    if i == s.len() - 1 {
        assert(s.update(i, v).drop_last() =~= s.drop_last());
        assert(s.update(i, v).last() == v);
    } else {
        assert(s.update(i, v).drop_last() =~= s.drop_last().update(i, v));
        assert(s.update(i, v).last() == s.last());
        lemma_sum64_update(s.drop_last(), i, v);
    }
}

/// Number of edges among the first `j` whose source is `u`.
pub open spec fn count_src(es: Seq<(usize, usize)>, u: usize, j: int) -> int
    decreases j,
{
    if j <= 0 {
        0
    } else {
        count_src(es, u, j - 1) + if es[j - 1].0 == u {
            1int
        } else {
            0int
        }
    }
}

proof fn lemma_count_src_le(es: Seq<(usize, usize)>, u: usize, j: int)
    requires
        0 <= j,
    ensures
        count_src(es, u, j) <= j,
    decreases j,
{
    if j > 0 {
        lemma_count_src_le(es, u, j - 1);
    }
}

proof fn lemma_count_src_mono(es: Seq<(usize, usize)>, u: usize, j: int, k: int)
    requires
        0 <= j <= k,
    ensures
        count_src(es, u, j) <= count_src(es, u, k),
    decreases k,
{
    if j < k {
        lemma_count_src_mono(es, u, j, k - 1);
    }
}

/// Total mass of a ranking of (node index, score) pairs.
pub open spec fn sum_pairs(s: Seq<(usize, u64)>) -> int
    decreases s.len(),
{
    if s.len() == 0 {
        0
    } else {
        sum_pairs(s.drop_last()) + s.last().1
    }
}

proof fn lemma_sum_pairs_insert(s: Seq<(usize, u64)>, p: int, v: (usize, u64))
    requires
        0 <= p <= s.len(),
    ensures
        sum_pairs(s.insert(p, v)) == sum_pairs(s) + v.1,
    decreases s.len(),
{
    if p == s.len() {
        assert(s.insert(p, v).drop_last() =~= s);
        assert(s.insert(p, v).last() == v);
    } else {
        assert(s.insert(p, v).drop_last() =~= s.drop_last().insert(p, v));
        assert(s.insert(p, v).last() == s.last());
        lemma_sum_pairs_insert(s.drop_last(), p, v);
    }
}

proof fn lemma_sum_pairs_take_step(s: Seq<(usize, u64)>, i: int)
    requires
        0 <= i < s.len(),
    ensures
        sum_pairs(s.take(i + 1)) == sum_pairs(s.take(i)) + s[i].1,
{
    assert(s.take(i + 1).drop_last() =~= s.take(i));
    assert(s.take(i + 1).last() == s[i]);
}

/// Total mass of a reported score list, in millionths.
pub open spec fn sum_scores(s: Seq<CentralityScore>) -> int
    decreases s.len(),
{
    if s.len() == 0 {
        0
    } else {
        sum_scores(s.drop_last()) + s.last().score
    }
}

proof fn lemma_sum_scores_nonneg(s: Seq<CentralityScore>)
    ensures
        sum_scores(s) >= 0,
    decreases s.len(),
{
    if s.len() > 0 {
        lemma_sum_scores_nonneg(s.drop_last());
    }
}

proof fn lemma_sum_scores_take_step(s: Seq<CentralityScore>, i: int)
    requires
        0 <= i < s.len(),
    ensures
        sum_scores(s.take(i + 1)) == sum_scores(s.take(i)) + s[i].score,
{
    assert(s.take(i + 1).drop_last() =~= s.take(i));
    assert(s.take(i + 1).last() == s[i]);
}

/// Each score is at most the total mass of its list.
pub proof fn lemma_score_within_total(s: Seq<CentralityScore>, i: int)
    requires
        0 <= i < s.len(),
    ensures
        s[i].score <= sum_scores(s),
    decreases s.len(),
{
    if i == s.len() - 1 {
        lemma_sum_scores_nonneg(s.drop_last());
    } else {
        lemma_score_within_total(s.drop_last(), i);
    }
}

/// Says whether the score list holds an entry for the given identifier.
pub open spec fn scores_have(v: Seq<CentralityScore>, id: Seq<char>) -> bool {
    exists|i: int| 0 <= i < v.len() && (#[trigger] v[i]).node@ == id
}

/// Says whether a ranking holds an entry for the given node index.
pub open spec fn ranked_has(v: Seq<(usize, u64)>, q: usize) -> bool {
    exists|k: int| 0 <= k < v.len() && (#[trigger] v[k]).0 == q
}

/// Ranking order on (node index, score) pairs: higher score first, then
/// lower node index (which is ascending identifier order).
pub open spec fn rank_before(a: (usize, u64), b: (usize, u64)) -> bool {
    a.1 > b.1 || (a.1 == b.1 && a.0 < b.0)
}

/// Damped share of a module's mass, handed out along its edges.
pub open spec fn spec_dshare(su: u64) -> int {
    (su as int) * (DAMPING as int) / (crate::SCALE as int)
}

/// The gathered-mass vector after node `u`'s per-edge share has been
/// pushed along its first `j` edges.
pub open spec fn spec_push_edges(
    inc: Seq<u64>,
    es: Seq<(usize, usize)>,
    u: usize,
    q: u64,
    j: int,
) -> Seq<u64>
    decreases j,
{
    if j <= 0 {
        inc
    } else {
        let p = spec_push_edges(inc, es, u, q, j - 1);
        if es[j - 1].0 == u {
            p.update(es[j - 1].1 as int, (p[es[j - 1].1 as int] + q) as u64)
        } else {
            p
        }
    }
}

/// Gathered mass per node and teleport pool after the first `u` modules
/// have handed out their mass: a module without outgoing edges yields
/// all its mass to the pool; otherwise the damped share travels the
/// edges in equal parts and the undamped rest and rounding remainders
/// go to the pool.
pub open spec fn spec_gather(
    es: Seq<(usize, usize)>,
    ne: int,
    s: Seq<u64>,
    n: int,
    u: int,
) -> (Seq<u64>, u64)
    decreases u,
{
    if u <= 0 {
        (Seq::new(n as nat, |i: int| 0u64), 0u64)
    } else {
        let prev = spec_gather(es, ne, s, n, u - 1);
        let su = s[u - 1];
        let deg = count_src(es, (u - 1) as usize, ne);
        if deg == 0 {
            (prev.0, (prev.1 + su) as u64)
        } else {
            let d = spec_dshare(su);
            let q = d / deg;
            let rem = d % deg;
            (
                spec_push_edges(prev.0, es, (u - 1) as usize, q as u64, ne),
                (prev.1 + (su - d) + rem) as u64,
            )
        }
    }
}

/// One full update step: gather, then teleport the pool uniformly, its
/// indivisible remainder going to the first module.
pub open spec fn spec_step(es: Seq<(usize, usize)>, ne: int, s: Seq<u64>, n: int) -> Seq<u64> {
    let g = spec_gather(es, ne, s, n, n);
    let base = (g.1 as int) / n;
    let extra = (g.1 as int) % n;
    Seq::new(
        n as nat,
        |v: int|
            if v == 0 {
                ((g.0[0] + base) + extra) as u64
            } else {
                (g.0[v] + base) as u64
            },
    )
}

/// Saturating L1 distance between the first `i` entries of two vectors.
pub open spec fn spec_l1(a: Seq<u64>, b: Seq<u64>, i: int) -> int
    decreases i,
{
    if i <= 0 {
        0
    } else {
        let prev = spec_l1(a, b, i - 1);
        let d = if a[i - 1] >= b[i - 1] {
            a[i - 1] - b[i - 1]
        } else {
            b[i - 1] - a[i - 1]
        };
        if prev + d <= u64::MAX as int {
            prev + d
        } else {
            u64::MAX as int
        }
    }
}

/// The score vector and convergence verdict reached by stepping from
/// vector `s` at iteration number `it`: stop once the L1 difference of
/// a step falls within [`TOLERANCE`], or report failure at the cap.
pub open spec fn spec_run(
    es: Seq<(usize, usize)>,
    ne: int,
    n: int,
    s: Seq<u64>,
    it: int,
) -> (Seq<u64>, bool)
    decreases MAX_ITERATIONS - it,
{
    if it >= MAX_ITERATIONS {
        (s, false)
    } else {
        let f = spec_step(es, ne, s, n);
        if spec_l1(f, s, n) <= TOLERANCE as int {
            (f, true)
        } else {
            spec_run(es, ne, n, f, it + 1)
        }
    }
}

/// The uniform starting vector: total mass one, the indivisible
/// remainder on the first module.
pub open spec fn spec_init(n: int) -> Seq<u64> {
    Seq::new(
        n as nat,
        |i: int|
            if i == 0 {
                ((crate::SCALE as int) / n + (crate::SCALE as int) % n) as u64
            } else {
                ((crate::SCALE as int) / n) as u64
            },
    )
}

/// The centrality mass of each module of a graph, by node index, and
/// whether the iteration converged.
pub open spec fn spec_centrality(g: DependencyGraph) -> (Seq<u64>, bool) {
    let n = g.spec_nodes().len() as int;
    if n == 0 {
        (Seq::empty(), true)
    } else {
        spec_run(g.spec_edges(), g.spec_edges().len() as int, n, spec_init(n), 0)
    }
}

/// Says whether the score list holds an entry for the given identifier
/// carrying the given score.
pub open spec fn scores_have_val(v: Seq<CentralityScore>, id: Seq<char>, sc: u64) -> bool {
    exists|i: int| 0 <= i < v.len() && (#[trigger] v[i]).node@ == id && v[i].score == sc
}

/// Says whether a ranking holds the given (node index, score) pair.
pub open spec fn ranked_entry(v: Seq<(usize, u64)>, q: usize, sc: u64) -> bool {
    exists|k: int| 0 <= k < v.len() && #[trigger] v[k] == (q, sc)
}

/// Adds two scores, saturating at the numeric maximum.
fn sat_add64(a: u64, b: u64) -> (r: u64)
    ensures
        r as int == if a + b <= u64::MAX as int {
            a + b
        } else {
            u64::MAX as int
        },
{
    if a <= u64::MAX - b {
        a + b
    } else {
        u64::MAX
    }
}

/// Inserts a (node index, score) pair into a ranking that is sorted by
/// [`rank_before`], keeping it sorted; all indices already present are
/// smaller than the inserted one.
#[verifier::loop_isolation(false)]
#[verifier::rlimit(60)]
fn insert_ranked(out: &mut Vec<(usize, u64)>, idx: usize, score: u64)
    requires
        forall|i: int, j: int|
            0 <= i < j < old(out)@.len() ==> rank_before(old(out)@[i], old(out)@[j]),
        forall|k: int| 0 <= k < old(out)@.len() ==> (#[trigger] old(out)@[k]).0 < idx,
    ensures
        final(out)@.len() == old(out)@.len() + 1,
        forall|i: int, j: int|
            0 <= i < j < final(out)@.len() ==> rank_before(final(out)@[i], final(out)@[j]),
        forall|k: int| 0 <= k < final(out)@.len() ==> (#[trigger] final(out)@[k]).0 <= idx,
        forall|q: usize|
            #![trigger ranked_has(final(out)@, q)]
            ranked_has(old(out)@, q) || q == idx <==> ranked_has(final(out)@, q),
        forall|q: usize, sc: u64|
            #![trigger ranked_entry(final(out)@, q, sc)]
            ranked_entry(old(out)@, q, sc) || (q == idx && sc == score) <==> ranked_entry(
                final(out)@,
                q,
                sc,
            ),
        sum_pairs(final(out)@) == sum_pairs(old(out)@) + score,
{
    let ghost ov = out@;
    let n: usize = out.len();
    let mut p: usize = 0;
    while p < n && (out[p].1 > score || (out[p].1 == score && out[p].0 < idx))
        invariant
            p <= n,
            out@ == ov,
            forall|k: int| 0 <= k < p ==> rank_before(ov[k], (idx, score)),
        decreases n - p,
    {
        p = p + 1;
    }
    proof {
        if p < n {
            assert(ov[p as int].0 < idx);
            assert(!rank_before(ov[p as int], (idx, score)));
            assert(ov[p as int].1 < score);
            assert(rank_before((idx, score), ov[p as int]));
        }
        assert forall|k: int| p <= k < n implies rank_before((idx, score), ov[k]) by {
            if k > p {
                assert(rank_before(ov[p as int], ov[k]));
                assert(ov[k].1 <= ov[p as int].1);
            }
        }
    }
    out.insert(p, (idx, score));
    proof {
        lemma_sum_pairs_insert(ov, p as int, (idx, score));
        let nv = out@;
        assert(nv =~= ov.insert(p as int, (idx, score)));
        assert(forall|k: int| 0 <= k < p ==> nv[k] == ov[k]);
        assert(nv[p as int] == (idx, score));
        assert(forall|k: int| p < k <= n ==> nv[k] == ov[k - 1]);
        assert forall|i: int, j: int| 0 <= i < j < nv.len() implies rank_before(nv[i], nv[j]) by {
            if i < p && j == p {
            } else if i == p && j > p {
            } else if i < p && j > p {
                if i < j - 1 {
                } else {
                    assert(rank_before(ov[i], (idx, score)));
                    assert(rank_before((idx, score), ov[i]));
                }
            }
        }
        assert forall|q: usize| ranked_has(ov, q) || q == idx implies ranked_has(nv, q) by {
            if q == idx {
                assert(nv[p as int].0 == q);
            } else {
                let k = choose|k: int| 0 <= k < ov.len() && (#[trigger] ov[k]).0 == q;
                if k < p {
                    assert(nv[k].0 == q);
                } else {
                    assert(nv[k + 1].0 == q);
                }
            }
        }
        assert forall|q: usize| ranked_has(nv, q) implies ranked_has(ov, q) || q == idx by {
            let k = choose|k: int| 0 <= k < nv.len() && (#[trigger] nv[k]).0 == q;
            if k < p {
                assert(ov[k].0 == q);
            } else if k > p {
                assert(ov[k - 1].0 == q);
            }
        }
        assert forall|q: usize, sc: u64|
            ranked_entry(ov, q, sc) || (q == idx && sc == score) implies ranked_entry(
            nv,
            q,
            sc,
        ) by {
            if q == idx && sc == score {
                assert(nv[p as int] == (q, sc));
            } else {
                let k = choose|k: int| 0 <= k < ov.len() && #[trigger] ov[k] == (q, sc);
                if k < p {
                    assert(nv[k] == (q, sc));
                } else {
                    assert(nv[k + 1] == (q, sc));
                }
            }
        }
        assert forall|q: usize, sc: u64|
            ranked_entry(nv, q, sc) implies ranked_entry(ov, q, sc) || (q == idx && sc
            == score) by {
            let k = choose|k: int| 0 <= k < nv.len() && #[trigger] nv[k] == (q, sc);
            if k < p {
                assert(ov[k] == (q, sc));
            } else if k > p {
                assert(ov[k - 1] == (q, sc));
            }
        }
    }
}

impl DependencyGraph {
    /// Ranks every module by an iterative eigenvector-style score.
    ///
    /// Each iteration redistributes a damped share of every module's mass
    /// uniformly along its outgoing edges; the undamped remainder, the
    /// mass of modules without outgoing edges, and all fixed-point
    /// rounding remainders teleport uniformly across all modules.
    /// Iteration stops when the L1 difference of successive vectors
    /// falls below [`TOLERANCE`] or after [`MAX_ITERATIONS`], and the
    /// result says which. Scores are raw mass in millionths, one entry
    /// per module, sorted by descending score with ties broken by
    /// ascending module identifier. Every step conserves the mass
    /// exactly: on any non-empty graph the scores total exactly one,
    /// and each single score lies between zero and one.
    #[verifier::loop_isolation(false)]
    #[verifier::rlimit(80)]
    pub fn calculate_centrality(&self) -> (r: CentralityResult)
        requires
            self.wf(),
        ensures
            r.scores@.len() == self.spec_nodes().len(),
            forall|i: int, j: int|
                0 <= i < j < r.scores@.len() ==> (r.scores@[i].score > r.scores@[j].score || (
                r.scores@[i].score == r.scores@[j].score && lex_lt(
                    (#[trigger] r.scores@[i]).node@,
                    (#[trigger] r.scores@[j]).node@,
                ))),
            forall|q: int|
                #![trigger self.spec_nodes()[q]]
                0 <= q < self.spec_nodes().len() ==> scores_have(r.scores@, self.spec_nodes()[q]),
            self.spec_nodes().len() >= 1 ==> sum_scores(r.scores@) == crate::SCALE as int,
            forall|i: int|
                0 <= i < r.scores@.len() ==> (#[trigger] r.scores@[i]).score <= crate::SCALE,
            r.converged == spec_centrality(*self).1,
            forall|q: int|
                #![trigger self.spec_nodes()[q]]
                0 <= q < self.spec_nodes().len() ==> scores_have_val(
                    r.scores@,
                    self.spec_nodes()[q],
                    spec_centrality(*self).0[q],
                ),
    {
        let nodes = self.node_ids();
        let edges = self.edge_list();
        let n: usize = nodes.len();
        let ne: usize = edges.len();
        if n == 0 {
            proof {
                assert(self.spec_nodes().len() == 0);
                assert(spec_centrality(*self).1 == true);
            }
            return CentralityResult { scores: Vec::new(), converged: true };
        }
        // out-degree of every node
        let mut outdeg: Vec<usize> = Vec::new();
        let mut z: usize = 0;
        while z < n
            invariant
                z <= n,
                outdeg@.len() == z,
                forall|v: int| 0 <= v < z ==> #[trigger] outdeg@[v] == 0,
            decreases n - z,
        {
            outdeg.push(0);
            z = z + 1;
        }
        let mut ei: usize = 0;
        while ei < ne
            invariant
                ei <= ne,
                outdeg@.len() == n,
                forall|v: int|
                    0 <= v < n ==> (#[trigger] outdeg@[v]) as int == count_src(
                        edges@,
                        (v as usize),
                        ei as int,
                    ),
            decreases ne - ei,
        {
            let src: usize = edges[ei].0;
            proof {
                lemma_count_src_le(edges@, src, ei as int);
            }
            let cur: usize = outdeg[src];
            let ghost before = outdeg@;
            outdeg.set(src, cur + 1);
            proof {
                assert forall|v: int|
                    0 <= v < n implies (#[trigger] outdeg@[v]) as int == count_src(
                    edges@,
                    (v as usize),
                    ei + 1,
                ) by {
                    if v == src as int {
                        assert(outdeg@[v] == cur + 1);
                    } else {
                        assert(outdeg@[v] == before[v]);
                    }
                }
            }
            ei = ei + 1;
        }
        // uniform start: total mass is one
        let share: u64 = crate::SCALE / (n as u64);
        let extra0: u64 = crate::SCALE % (n as u64);
        let mut scores: Vec<u64> = Vec::new();
        let mut z2: usize = 0;
        while z2 < n
            invariant
                z2 <= n,
                scores@.len() == z2,
                sum64(scores@) == (z2 as int) * (share as int),
                forall|i: int| 0 <= i < z2 ==> #[trigger] scores@[i] == share,
            decreases n - z2,
        {
            let ghost pre = scores@;
            scores.push(share);
            proof {
                assert(scores@.drop_last() =~= pre);
                assert((z2 + 1) as int * (share as int) == (z2 as int) * (share as int) + (
                share as int)) by (nonlinear_arith);
            }
            z2 = z2 + 1;
        }
        proof {
            vstd::arithmetic::div_mod::lemma_fundamental_div_mod(
                crate::SCALE as int,
                n as int,
            );
            lemma_sum64_elem(scores@, 0);
            assert((n as int) * (share as int) == (n as int) * ((crate::SCALE / (n as u64)) as int));
        }
        let first: u64 = scores[0];
        proof {
            lemma_sum64_update(scores@, 0, (first + extra0) as u64);
        }
        scores.set(0, first + extra0);
        let ghost target: (Seq<u64>, bool) = spec_centrality(*self);
        proof {
            assert(sum64(scores@) == crate::SCALE as int);
            assert(self.spec_nodes().len() == n);
            assert forall|i: int| 0 <= i < n implies #[trigger] scores@[i] == spec_init(
                n as int,
            )[i] by {
                if i == 0 {
                    assert(scores@[0] == first + extra0);
                    assert((crate::SCALE as int) / (n as int) + (crate::SCALE as int) % (n as int)
                        <= crate::SCALE as int);
                } else {
                    assert(scores@[i] == share);
                }
            }
            assert(spec_init(n as int) =~= scores@);
            assert(target == spec_run(edges@, ne as int, n as int, scores@, 0));
        }
        let mut converged: bool = false;
        let mut it: usize = 0;
        while it < MAX_ITERATIONS && !converged
            invariant
                scores@.len() == n,
                outdeg@.len() == n,
                forall|v: int|
                    0 <= v < n ==> (#[trigger] outdeg@[v]) as int == count_src(
                        edges@,
                        (v as usize),
                        ne as int,
                    ),
                sum64(scores@) == crate::SCALE as int,
                it <= MAX_ITERATIONS,
                if converged {
                    target == (scores@, true)
                } else {
                    spec_run(edges@, ne as int, n as int, scores@, it as int) == target
                },
            decreases MAX_ITERATIONS - it,
        {
            let ghost sc0: Seq<u64> = scores@;
            let ghost it0: int = it as int;
            // gather the mass each module receives; all undistributed
            // mass (undamped share, dangling mass, rounding remainders)
            // goes to the teleport pool, so no mass is created or lost
            let mut incoming: Vec<u64> = Vec::new();
            let mut z3: usize = 0;
            while z3 < n
                invariant
                    z3 <= n,
                    incoming@.len() == z3,
                    sum64(incoming@) == 0,
                    forall|i: int| 0 <= i < z3 ==> #[trigger] incoming@[i] == 0,
                decreases n - z3,
            {
                let ghost pre = incoming@;
                incoming.push(0);
                proof {
                    assert(incoming@.drop_last() =~= pre);
                }
                z3 = z3 + 1;
            }
            proof {
                assert forall|i: int|
                    0 <= i < n implies #[trigger] incoming@[i] == spec_gather(
                    edges@,
                    ne as int,
                    sc0,
                    n as int,
                    0,
                ).0[i] by {
                    assert(incoming@[i] == 0);
                }
                assert(incoming@ =~= spec_gather(edges@, ne as int, sc0, n as int, 0).0);
            }
            let mut pool: u64 = 0;
            let mut u: usize = 0;
            while u < n
                invariant
                    u <= n,
                    incoming@.len() == n,
                    scores@.len() == n,
                    scores@ == sc0,
                    outdeg@.len() == n,
                    forall|v: int|
                        0 <= v < n ==> (#[trigger] outdeg@[v]) as int == count_src(
                            edges@,
                            (v as usize),
                            ne as int,
                        ),
                    sum64(scores@) == crate::SCALE as int,
                    sum64(incoming@) + pool == sum64(scores@.take(u as int)),
                    incoming@ == spec_gather(edges@, ne as int, sc0, n as int, u as int).0,
                    pool == spec_gather(edges@, ne as int, sc0, n as int, u as int).1,
                decreases n - u,
            {
                let ghost gprev: (Seq<u64>, u64) = spec_gather(
                    edges@,
                    ne as int,
                    sc0,
                    n as int,
                    u as int,
                );
                let su: u64 = scores[u];
                proof {
                    lemma_sum64_elem(scores@, u as int);
                    lemma_sum64_take_step(scores@, u as int);
                    lemma_sum64_take_mono(scores@, u + 1);
                    lemma_sum64_nonneg(incoming@);
                    lemma_sum64_nonneg(scores@.take(u as int));
                }
                let deg: usize = outdeg[u];
                if deg == 0 {
                    pool = pool + su;
                    proof {
                        assert(count_src(edges@, u, ne as int) == 0);
                        assert(spec_gather(edges@, ne as int, sc0, n as int, u + 1).0 == gprev.0);
                        assert(spec_gather(edges@, ne as int, sc0, n as int, u + 1).1 as int
                            == gprev.1 + su);
                    }
                } else {
                    proof {
                        assert((su as int) * (DAMPING as int) <= (crate::SCALE as int) * (
                        DAMPING as int)) by (nonlinear_arith)
                            requires
                                su <= crate::SCALE,
                        ;
                        assert((crate::SCALE as int) * (DAMPING as int) < u64::MAX as int)
                            by (nonlinear_arith);
                        assert((su as int) * (DAMPING as int) >= 0) by (nonlinear_arith)
                            requires
                                su >= 0,
                        ;
                    }
                    let wide: u128 = (su as u128) * (DAMPING as u128) / (crate::SCALE as u128);
                    let d_share: u64 = wide as u64;
                    proof {
                        assert((su as int) * (DAMPING as int) <= (su as int) * (
                        crate::SCALE as int)) by (nonlinear_arith)
                            requires
                                su >= 0,
                        ;
                        vstd::arithmetic::div_mod::lemma_div_is_ordered(
                            (su as int) * (DAMPING as int),
                            (su as int) * (crate::SCALE as int),
                            crate::SCALE as int,
                        );
                        vstd::arithmetic::div_mod::lemma_div_multiples_vanish(
                            su as int,
                            crate::SCALE as int,
                        );
                        assert((su as int) * (crate::SCALE as int) == (crate::SCALE as int) * (
                        su as int)) by (nonlinear_arith);
                        assert(d_share <= su);
                        assert(d_share as int == spec_dshare(su));
                    }
                    let q: u64 = d_share / (deg as u64);
                    let rem: u64 = d_share % (deg as u64);
                    proof {
                        vstd::arithmetic::div_mod::lemma_fundamental_div_mod(
                            d_share as int,
                            deg as int,
                        );
                        assert((deg as int) * (q as int) + rem == d_share as int);
                        assert((deg as int) * (q as int) >= 0) by (nonlinear_arith)
                            requires
                                deg >= 0,
                                q >= 0,
                        ;
                    }
                    pool = pool + (su - d_share);
                    pool = pool + rem;
                    // hand the damped share out in equal parts along the
                    // outgoing edges
                    let ghost s0: int = sum64(incoming@);
                    let ghost pool0: int = pool as int;
                    let ghost inc0: Seq<u64> = incoming@;
                    let mut j: usize = 0;
                    while j < ne
                        invariant
                            j <= ne,
                            incoming@.len() == n,
                            incoming@ == spec_push_edges(inc0, edges@, u, q, j as int),
                            sum64(incoming@) == s0 + (q as int) * count_src(edges@, u, j as int),
                            (q as int) * count_src(edges@, u, j as int) <= (q as int) * (
                            deg as int),
                            pool as int == pool0,
                            (deg as int) * (q as int) + rem == d_share as int,
                            q <= d_share <= su <= crate::SCALE,
                            s0 + pool0 <= crate::SCALE as int + su as int,
                            s0 >= 0,
                        decreases ne - j,
                    {
                        let e: (usize, usize) = edges[j];
                        if e.0 == u {
                            let dst: usize = e.1;
                            proof {
                                assert(self.spec_edges()[j as int] == e);
                                assert((dst as int) < n);
                                lemma_sum64_elem(incoming@, dst as int);
                                lemma_count_src_mono(edges@, u, j + 1, ne as int);
                                assert(count_src(edges@, u, j + 1) == count_src(edges@, u, j as int)
                                    + 1);
                                assert((q as int) * count_src(edges@, u, j + 1) == (q as int)
                                    * count_src(edges@, u, j as int) + (q as int))
                                    by (nonlinear_arith)
                                    requires
                                        count_src(edges@, u, j + 1) == count_src(
                                            edges@,
                                            u,
                                            j as int,
                                        ) + 1,
                                ;
                                vstd::arithmetic::mul::lemma_mul_inequality(
                                    count_src(edges@, u, j + 1),
                                    deg as int,
                                    q as int,
                                );
                                assert((q as int) * count_src(edges@, u, j + 1) <= (q as int) * (
                                deg as int)) by (nonlinear_arith)
                                    requires
                                        count_src(edges@, u, j + 1) * (q as int) <= (deg as int) * (
                                        q as int),
                                ;
                                assert((q as int) * (deg as int) <= d_share as int)
                                    by (nonlinear_arith)
                                    requires
                                        (deg as int) * (q as int) + rem == d_share as int,
                                        rem >= 0,
                                ;
                            }
                            let cur: u64 = incoming[dst];
                            let ghost pre = incoming@;
                            incoming.set(dst, cur + q);
                            proof {
                                lemma_sum64_update(pre, dst as int, (cur + q) as u64);
                            }
                        }
                        j = j + 1;
                    }
                    proof {
                        assert(count_src(edges@, u, ne as int) == deg as int);
                        assert((q as int) * (deg as int) == (deg as int) * (q as int))
                            by (nonlinear_arith);
                        assert((q as u64) as int == (spec_dshare(su) / (deg as int)));
                        assert(spec_gather(edges@, ne as int, sc0, n as int, u + 1).0
                            == spec_push_edges(gprev.0, edges@, u, q, ne as int));
                        assert(spec_gather(edges@, ne as int, sc0, n as int, u + 1).1 as int
                            == gprev.1 + (su - spec_dshare(su)) + (spec_dshare(su) % (deg as int)));
                        assert(rem as int == spec_dshare(su) % (deg as int));
                    }
                }
                u = u + 1;
            }
            proof {
                lemma_sum64_take_all(scores@);
                assert(sum64(incoming@) + pool == crate::SCALE as int);
                lemma_sum64_nonneg(incoming@);
            }
            // teleport the pool uniformly; the indivisible remainder goes
            // to the first module for determinism
            let base: u64 = pool / (n as u64);
            let extra: u64 = pool % (n as u64);
            proof {
                vstd::arithmetic::div_mod::lemma_fundamental_div_mod(pool as int, n as int);
                assert((n as int) * (base as int) + extra == pool as int);
                assert((n as int) * (base as int) >= 0) by (nonlinear_arith)
                    requires
                        n >= 0,
                        base >= 0,
                ;
            }
            let mut fresh: Vec<u64> = Vec::new();
            let mut v2: usize = 0;
            while v2 < n
                invariant
                    v2 <= n,
                    fresh@.len() == v2,
                    incoming@.len() == n,
                    sum64(incoming@) + pool == crate::SCALE as int,
                    (n as int) * (base as int) + extra == pool as int,
                    sum64(fresh@) == sum64(incoming@.take(v2 as int)) + (v2 as int) * (base as int),
                    forall|p: int| 0 <= p < v2 ==> #[trigger] fresh@[p] == ((incoming@[p] + base) as u64),
                decreases n - v2,
            {
                proof {
                    lemma_sum64_elem(incoming@, v2 as int);
                    lemma_sum64_take_step(incoming@, v2 as int);
                    assert((v2 as int) * (base as int) <= (n as int) * (base as int))
                        by (nonlinear_arith)
                        requires
                            0 <= v2 < n,
                            base >= 0,
                    ;
                    assert(((v2 + 1) as int) * (base as int) == (v2 as int) * (base as int) + (
                    base as int)) by (nonlinear_arith);
                }
                let ghost pre = fresh@;
                fresh.push(incoming[v2] + base);
                proof {
                    assert(fresh@.drop_last() =~= pre);
                }
                v2 = v2 + 1;
            }
            proof {
                lemma_sum64_take_all(incoming@);
                assert(sum64(fresh@) == sum64(incoming@) + (n as int) * (base as int));
                lemma_sum64_elem(fresh@, 0);
            }
            let f0: u64 = fresh[0];
            proof {
                lemma_sum64_update(fresh@, 0, (f0 + extra) as u64);
            }
            fresh.set(0, f0 + extra);
            proof {
                assert(sum64(fresh@) == crate::SCALE as int);
                let gfin = spec_gather(edges@, ne as int, sc0, n as int, n as int);
                assert(gfin.0 == incoming@);
                assert(gfin.1 == pool);
                assert(base as int == (gfin.1 as int) / (n as int));
                assert(extra as int == (gfin.1 as int) % (n as int));
                assert forall|p: int| 0 <= p < n implies #[trigger] fresh@[p] == spec_step(
                    edges@,
                    ne as int,
                    sc0,
                    n as int,
                )[p] by {
                    assert(spec_step(edges@, ne as int, sc0, n as int)[p] == (if p == 0 {
                        ((gfin.0[0] + (gfin.1 as int) / (n as int)) + (gfin.1 as int) % (
                        n as int)) as u64
                    } else {
                        (gfin.0[p] + (gfin.1 as int) / (n as int)) as u64
                    }));
                    if p == 0 {
                        assert(fresh@[0] == f0 + extra);
                        assert(f0 == (incoming@[0] + base) as u64);
                        lemma_sum64_elem(incoming@, 0);
                        assert((base as int) <= (n as int) * (base as int)) by (nonlinear_arith)
                            requires
                                n >= 1,
                                base >= 0,
                        ;
                        assert(incoming@[0] + base <= u64::MAX as int);
                        assert(f0 + extra <= u64::MAX as int);
                    } else {
                        assert(fresh@[p] == (incoming@[p] + base) as u64);
                    }
                }
                assert(fresh@ =~= spec_step(edges@, ne as int, sc0, n as int));
            }
            // L1 distance to the previous vector
            let mut diff: u64 = 0;
            let mut v3: usize = 0;
            while v3 < n
                invariant
                    v3 <= n,
                    fresh@.len() == n,
                    scores@.len() == n,
                    scores@ == sc0,
                    diff as int == spec_l1(fresh@, sc0, v3 as int),
                decreases n - v3,
            {
                let a: u64 = fresh[v3];
                let b: u64 = scores[v3];
                let d: u64 = if a >= b {
                    a - b
                } else {
                    b - a
                };
                diff = sat_add64(diff, d);
                v3 = v3 + 1;
            }
            proof {
                assert(spec_run(edges@, ne as int, n as int, sc0, it0) == (if spec_l1(
                    fresh@,
                    sc0,
                    n as int,
                ) <= TOLERANCE as int {
                    (fresh@, true)
                } else {
                    spec_run(edges@, ne as int, n as int, fresh@, it0 + 1)
                }));
            }
            scores = fresh;
            if diff <= TOLERANCE {
                converged = true;
            }
            it = it + 1;
        }
        proof {
            if !converged {
                assert(spec_run(edges@, ne as int, n as int, scores@, it as int) == (
                scores@,
                false,
                ));
            }
            assert(scores@ == target.0);
            assert(converged == target.1);
        }
        // rank: descending score, ties by ascending identifier
        let mut ranked: Vec<(usize, u64)> = Vec::new();
        let mut idx: usize = 0;
        while idx < n
            invariant
                idx <= n,
                ranked@.len() == idx,
                scores@.len() == n,
                forall|i: int, j: int|
                    0 <= i < j < ranked@.len() ==> rank_before(ranked@[i], ranked@[j]),
                forall|k: int| 0 <= k < ranked@.len() ==> (#[trigger] ranked@[k]).0 < idx,
                forall|q: usize| #![trigger ranked_has(ranked@, q)]
                    (q as int) < idx ==> ranked_has(ranked@, q),
                forall|q: usize|
                    #![trigger ranked_entry(ranked@, q, scores@[q as int])]
                    (q as int) < idx ==> ranked_entry(ranked@, q, scores@[q as int]),
                sum_pairs(ranked@) == sum64(scores@.take(idx as int)),
            decreases n - idx,
        {
            proof {
                lemma_sum64_take_step(scores@, idx as int);
            }
            insert_ranked(&mut ranked, idx, scores[idx]);
            proof {
                assert forall|q: usize| (q as int) < idx + 1 implies #[trigger] ranked_entry(
                    ranked@,
                    q,
                    scores@[q as int],
                ) by {
                    if (q as int) < idx {
                        assert(ranked_entry(ranked@, q, scores@[q as int]));
                    } else {
                        assert(ranked_entry(ranked@, idx, scores@[idx as int]));
                    }
                }
            }
            idx = idx + 1;
        }
        proof {
            lemma_sum64_take_all(scores@);
        }
        // attach identifiers
        let mut out: Vec<CentralityScore> = Vec::new();
        let mut w: usize = 0;
        while w < n
            invariant
                w <= n,
                ranked@.len() == n,
                out@.len() == w,
                forall|k: int| 0 <= k < n ==> (#[trigger] ranked@[k]).0 < n,
                forall|k: int|
                    0 <= k < w ==> (#[trigger] out@[k]).node@ == id_views(nodes@)[ranked@[k].0 as int]
                        && out@[k].score == ranked@[k].1,
                sum_scores(out@) == sum_pairs(ranked@.take(w as int)),
            decreases n - w,
        {
            proof {
                lemma_sum_pairs_take_step(ranked@, w as int);
            }
            let pair: (usize, u64) = ranked[w];
            let ghost pre = out@;
            out.push(CentralityScore { node: nodes[pair.0].clone(), score: pair.1 });
            proof {
                assert(out@.drop_last() =~= pre);
            }
            w = w + 1;
        }
        proof {
            assert(ranked@.take(ranked@.len() as int) =~= ranked@);
        }
        let ghost outv = out@;
        proof {
            assert(sum_scores(outv) == crate::SCALE as int);
        }
        let result = CentralityResult { scores: out, converged };
        proof {
            assert(result.scores@ == outv);
            assert(sum_scores(result.scores@) == crate::SCALE as int);
            assert forall|i: int|
                0 <= i < result.scores@.len() implies (#[trigger] result.scores@[i]).score
                <= crate::SCALE by {
                lemma_score_within_total(result.scores@, i);
            }
            assert forall|i: int, j: int|
                0 <= i < j < result.scores@.len() implies (result.scores@[i].score
                > result.scores@[j].score || (result.scores@[i].score == result.scores@[j].score
                && lex_lt(
                (#[trigger] result.scores@[i]).node@,
                (#[trigger] result.scores@[j]).node@,
            ))) by {
                assert(result.scores@[i] == outv[i]);
                assert(result.scores@[j] == outv[j]);
                assert(outv[i].node@ == id_views(nodes@)[ranked@[i].0 as int]);
                assert(outv[j].node@ == id_views(nodes@)[ranked@[j].0 as int]);
                assert(rank_before(ranked@[i], ranked@[j]));
                if ranked@[i].1 == ranked@[j].1 {
                    assert((ranked@[i].0 as int) < (ranked@[j].0 as int));
                    assert(lex_lt(
                        self.spec_nodes()[ranked@[i].0 as int],
                        self.spec_nodes()[ranked@[j].0 as int],
                    ));
                }
            }
            assert forall|q: int|
                #![trigger self.spec_nodes()[q]]
                0 <= q < self.spec_nodes().len() implies scores_have(
                result.scores@,
                self.spec_nodes()[q],
            ) by {
                assert(ranked_has(ranked@, q as usize));
                let k = choose|k: int|
                    0 <= k < ranked@.len() && (#[trigger] ranked@[k]).0 == q as usize;
                assert(outv[k].node@ == self.spec_nodes()[q]);
                assert(result.scores@[k].node@ == self.spec_nodes()[q]);
            }
            assert(converged == spec_centrality(*self).1);
            assert forall|q: int|
                #![trigger self.spec_nodes()[q]]
                0 <= q < self.spec_nodes().len() implies scores_have_val(
                result.scores@,
                self.spec_nodes()[q],
                spec_centrality(*self).0[q],
            ) by {
                assert(ranked_entry(ranked@, q as usize, scores@[q]));
                let k = choose|k: int|
                    0 <= k < ranked@.len() && #[trigger] ranked@[k] == (q as usize, scores@[q]);
                assert(outv[k].node@ == id_views(nodes@)[ranked@[k].0 as int]);
                assert(outv[k].score == ranked@[k].1);
                assert(result.scores@[k].node@ == self.spec_nodes()[q]);
                assert(result.scores@[k].score == scores@[q]);
                assert(scores@ == target.0);
                assert(result.scores@[k].score == spec_centrality(*self).0[q]);
                assert(scores_have_val(
                    result.scores@,
                    self.spec_nodes()[q],
                    spec_centrality(*self).0[q],
                ));
            }
        }
        result
    }
}

} // verus!
