//! Dependency-graph construction: canonical module identities, edge
//! resolution, and aggregate graph metrics.

use vstd::prelude::*;
use crate::parser::FileMetadata;
use crate::text::{
    lex_lt, normalize_spec, normalize_module_id, str_eq, str_lt, lemma_lex_total, lemma_lex_trans,
    lemma_lex_asym, lemma_lex_irrefl,
};

verus! {

/// The character sequences of a vector of identifier strings.
pub open spec fn id_views(v: Seq<String>) -> Seq<Seq<char>> {
    v.map_values(|s: String| s@)
}

/// Canonical module identifier of each file, in input order.
pub open spec fn ids_of(files: Seq<FileMetadata>) -> Seq<Seq<char>> {
    files.map_values(|f: FileMetadata| normalize_spec(f.path@))
}

/// Says whether an identifier occurs in a sequence of identifiers.
pub open spec fn id_in(ids: Seq<Seq<char>>, id: Seq<char>) -> bool {
    exists|i: int| 0 <= i < ids.len() && ids[i] == id
}

/// Strictly ascending lexicographic order; implies all entries distinct.
pub open spec fn sorted_ids(ids: Seq<Seq<char>>) -> bool {
    forall|i: int, j: int| 0 <= i < j < ids.len() ==> lex_lt(ids[i], ids[j])
}

/// Says whether two distinct files resolve to the same module identifier.
pub open spec fn has_dup_ids(files: Seq<FileMetadata>) -> bool {
    exists|i: int, j: int|
        0 <= i < j < files.len() && ids_of(files)[i] == ids_of(files)[j]
}

/// Fatal failures of graph construction.
#[derive(Debug)]
pub enum AnalysisError {
    /// Two distinct source paths normalized to one module identifier.
    DuplicateModule { module: String, first_path: String, second_path: String },
}

/// Non-fatal findings recorded while building the graph.
#[derive(Debug)]
pub enum Diagnostic {
    /// A declared reference did not resolve to any known module.
    UnresolvedReference { module: String, reference: String },
}

impl Diagnostic {
    pub open spec fn spec_module(self) -> Seq<char> {
        match self {
            Diagnostic::UnresolvedReference { module, .. } => module@,
        }
    }

    pub open spec fn spec_reference(self) -> Seq<char> {
        match self {
            Diagnostic::UnresolvedReference { reference, .. } => reference@,
        }
    }
}

/// Aggregate metrics of a built graph. `density` is a fixed-point value
/// in millionths (see [`crate::SCALE`]).
pub struct GraphMetrics {
    pub node_count: usize,
    pub edge_count: usize,
    pub cyclomatic_complexity: usize,
    pub density: u64,
}

/// Complexity attributed to one file: its structural branch count when the
/// parse supplied one, else the documented line-count fallback `loc / 10`.
pub open spec fn file_complexity(f: FileMetadata) -> int {
    match f.complexity_hint {
        Some(h) => h as int,
        None => (f.loc as int) / 10,
    }
}

/// Sum of per-file complexities, saturating at `usize::MAX`.
pub open spec fn total_complexity(files: Seq<FileMetadata>) -> int
    decreases files.len(),
{
    if files.len() == 0 {
        0
    } else {
        let rest = total_complexity(files.drop_last());
        let c = file_complexity(files.last());
        if rest + c <= usize::MAX as int {
            rest + c
        } else {
            usize::MAX as int
        }
    }
}

/// Directed simple-graph density in millionths: edges over possible
/// edges `n * (n - 1)`, defined as 0 when fewer than two nodes, clamped
/// to at most one.
pub open spec fn density_spec(n: int, e: int) -> int {
    if n < 2 {
        0
    } else {
        let d = (e * (crate::SCALE as int)) / (n * (n - 1));
        if d > crate::SCALE as int {
            crate::SCALE as int
        } else {
            d
        }
    }
}

/// A directed dependency graph over canonical module identifiers.
///
/// Nodes are held sorted lexicographically so that traversal order, and
/// with it every derived artifact, is independent of the order in which
/// the file system enumerated the inputs. Edges are index pairs into the
/// node list, deduplicated at construction.
pub struct DependencyGraph {
    nodes: Vec<String>,
    edges: Vec<(usize, usize)>,
}

impl DependencyGraph {
    /// The node identifiers, in their sorted order.
    pub closed spec fn spec_nodes(self) -> Seq<Seq<char>> {
        id_views(self.nodes@)
    }

    /// The deduplicated directed edges, as node-index pairs.
    pub closed spec fn spec_edges(self) -> Seq<(usize, usize)> {
        self.edges@
    }

    /// Well-formedness: nodes strictly sorted (hence distinct), every edge
    /// endpoint a valid node index, no duplicate edges.
    pub open spec fn wf(self) -> bool {
        &&& sorted_ids(self.spec_nodes())
        &&& forall|k: int|
            0 <= k < self.spec_edges().len() ==> (self.spec_edges()[k].0 as int)
                < self.spec_nodes().len() && (self.spec_edges()[k].1 as int)
                < self.spec_nodes().len()
        &&& forall|k: int, l: int|
            0 <= k < l < self.spec_edges().len() ==> self.spec_edges()[k] != self.spec_edges()[l]
    }

    /// Says whether the graph has an edge between the given node indices.
    pub open spec fn has_edge(self, s: int, t: int) -> bool {
        exists|k: int|
            0 <= k < self.spec_edges().len() && self.spec_edges()[k].0 == s
                && self.spec_edges()[k].1 == t
    }

    /// Creates an empty graph.
    pub fn new() -> (r: DependencyGraph)
        ensures
            r.wf(),
            r.spec_nodes().len() == 0,
            r.spec_edges().len() == 0,
    {
        let r = DependencyGraph { nodes: Vec::new(), edges: Vec::new() };
        proof {
            assert(r.spec_nodes() =~= Seq::<Seq<char>>::empty());
        }
        r
    }

    /// Number of nodes.
    pub fn node_count(&self) -> (r: usize)
        ensures
            r == self.spec_nodes().len(),
    {
        self.nodes.len()
    }

    /// Number of (deduplicated) edges.
    pub fn edge_count(&self) -> (r: usize)
        ensures
            r == self.spec_edges().len(),
    {
        self.edges.len()
    }

    /// The node identifiers in sorted order.
    pub fn node_ids(&self) -> (r: &Vec<String>)
        ensures
            id_views(r@) == self.spec_nodes(),
    {
        &self.nodes
    }

    /// The edges as node-index pairs.
    pub fn edge_list(&self) -> (r: &Vec<(usize, usize)>)
        ensures
            r@ == self.spec_edges(),
    {
        &self.edges
    }
}

/// Inserts an identifier into a sorted vector, keeping it sorted.
#[verifier::loop_isolation(false)]
fn insert_sorted(nodes: &mut Vec<String>, id: String)
    requires
        sorted_ids(id_views(old(nodes)@)),
        !id_in(id_views(old(nodes)@), id@),
    ensures
        sorted_ids(id_views(final(nodes)@)),
        final(nodes)@.len() == old(nodes)@.len() + 1,
        forall|x: Seq<char>|
            id_in(id_views(final(nodes)@), x) <==> (id_in(id_views(old(nodes)@), x) || x
                == id@),
{
    let ghost ov: Seq<Seq<char>> = id_views(nodes@);
    let n: usize = nodes.len();
    let mut p: usize = 0;
    while p < n && str_lt(nodes[p].as_str(), id.as_str())
        invariant
            p <= n,
            nodes@ == old(nodes)@,
            forall|k: int| 0 <= k < p ==> lex_lt(ov[k], id@),
        decreases n - p,
    {
        p = p + 1;
    }
    proof {
        if p < n {
            lemma_lex_total(id@, ov[p as int]);
            if ov[p as int] == id@ {
                assert(id_in(ov, id@));
            }
            assert(lex_lt(id@, ov[p as int]));
        }
        assert forall|k: int| p <= k < n implies lex_lt(id@, ov[k]) by {
            if k > p {
                assert(lex_lt(ov[p as int], ov[k]));
                lemma_lex_trans(id@, ov[p as int], ov[k]);
            }
        }
    }
    nodes.insert(p, id);
    proof {
        let nv = id_views(nodes@);
        assert(nv =~= ov.insert(p as int, id@));
        assert(forall|k: int| 0 <= k < p ==> nv[k] == ov[k]);
        assert(nv[p as int] == id@);
        assert(forall|k: int| p < k <= n ==> nv[k] == ov[k - 1]);
        assert forall|i: int, j: int| 0 <= i < j < nv.len() implies lex_lt(nv[i], nv[j]) by {
            if i < p && j < p {
            } else if i < p && j == p {
            } else if i == p && j > p {
            } else if i < p && j > p {
                assert(lex_lt(ov[i], ov[j - 1]) || i == j - 1);
                if i < j - 1 {
                    assert(lex_lt(nv[i], nv[j]));
                }
            }
        }
        assert forall|x: Seq<char>|
            id_in(nv, x) <==> (id_in(ov, x) || x == id@) by {
            if id_in(nv, x) {
                let i = choose|i: int| 0 <= i < nv.len() && nv[i] == x;
                if i < p {
                    assert(ov[i] == x);
                } else if i == p {
                } else {
                    assert(ov[i - 1] == x);
                }
            }
            if id_in(ov, x) {
                let i = choose|i: int| 0 <= i < ov.len() && ov[i] == x;
                if i < p {
                    assert(nv[i] == x);
                } else {
                    assert(nv[i + 1] == x);
                }
            }
            if x == id@ {
                assert(nv[p as int] == x);
            }
        }
    }
}

/// Finds the position of an identifier in a vector of identifiers.
#[verifier::loop_isolation(false)]
fn find_id(v: &Vec<String>, id: &str) -> (r: Option<usize>)
    ensures
        match r {
            Some(i) => i < v@.len() && id_views(v@)[i as int] == id@,
            None => !id_in(id_views(v@), id@),
        },
{
    let n: usize = v.len();
    let mut i: usize = 0;
    while i < n
        invariant
            i <= n,
            forall|k: int| 0 <= k < i ==> id_views(v@)[k] != id@,
        decreases n - i,
    {
        if str_eq(v[i].as_str(), id) {
            proof {
                assert(id_views(v@)[i as int] == id@);
            }
            return Some(i);
        }
        i = i + 1;
    }
    None
}

/// Says whether an edge pair is already recorded.
#[verifier::loop_isolation(false)]
fn edge_in(edges: &Vec<(usize, usize)>, s: usize, t: usize) -> (r: bool)
    ensures
        r == exists|k: int| 0 <= k < edges@.len() && edges@[k] == (s, t),
{
    let n: usize = edges.len();
    let mut i: usize = 0;
    while i < n
        invariant
            i <= n,
            forall|k: int| 0 <= k < i ==> edges@[k] != (s, t),
        decreases n - i,
    {
        let e: (usize, usize) = edges[i];
        if e.0 == s && e.1 == t {
            return true;
        }
        i = i + 1;
    }
    false
}

/// Says whether an edge pair occurs in a sequence of edges.
pub open spec fn pair_in(es: Seq<(usize, usize)>, s: usize, t: usize) -> bool {
    exists|k: int| 0 <= k < es.len() && es[k] == (s, t)
}

/// Says whether the file set declares a dependency from the module at
/// node `s` on the module at node `t`.
pub open spec fn ref_edge(
    files: Seq<FileMetadata>,
    nv: Seq<Seq<char>>,
    s: usize,
    t: usize,
) -> bool {
    exists|k: int|
        0 <= k < files.len() && ids_of(files)[k] == nv[s as int] && id_in(
            files[k].spec_refs(),
            nv[t as int],
        )
}

/// A sound unresolved-reference diagnostic: its reference resolves to no
/// node, and some file with the named module identifier declares it.
pub open spec fn diag_sound(
    files: Seq<FileMetadata>,
    nv: Seq<Seq<char>>,
    d: Diagnostic,
) -> bool {
    &&& !id_in(nv, d.spec_reference())
    &&& exists|k: int|
        0 <= k < files.len() && ids_of(files)[k] == d.spec_module() && id_in(
            files[k].spec_refs(),
            d.spec_reference(),
        )
}

/// Says whether the diagnostics hold an entry naming the given module
/// and unresolved reference.
pub open spec fn has_unres_diag(ds: Seq<Diagnostic>, m: Seq<char>, rf: Seq<char>) -> bool {
    exists|di: int|
        0 <= di < ds.len() && ds[di].spec_module() == m && ds[di].spec_reference() == rf
}

/// Computes the graph density in millionths.
fn density_of(n: usize, e: usize) -> (r: u64)
    ensures
        r as int == density_spec(n as int, e as int),
        r <= crate::SCALE,
{
    if n < 2 {
        0
    } else {
        proof {
            vstd::arithmetic::mul::lemma_mul_upper_bound(
                e as int,
                usize::MAX as int,
                crate::SCALE as int,
                crate::SCALE as int,
            );
            vstd::arithmetic::mul::lemma_mul_upper_bound(
                n as int,
                usize::MAX as int,
                (n - 1) as int,
                usize::MAX as int,
            );
            assert((usize::MAX as int) * (crate::SCALE as int) < u128::MAX as int)
                by (nonlinear_arith);
            assert((usize::MAX as int) * (usize::MAX as int) < u128::MAX as int)
                by (nonlinear_arith);
            assert((n as int) * ((n - 1) as int) >= 2) by (nonlinear_arith)
                requires
                    n >= 2,
            ;
        }
        let num: u128 = (e as u128) * (crate::SCALE as u128);
        let den: u128 = (n as u128) * ((n - 1) as u128);
        let d: u128 = num / den;
        if d > (crate::SCALE as u128) {
            crate::SCALE
        } else {
            d as u64
        }
    }
}

/// Sums the per-file complexities, saturating at `usize::MAX`.
#[verifier::loop_isolation(false)]
fn complexity_of(files: &Vec<FileMetadata>) -> (r: usize)
    ensures
        r as int == total_complexity(files@),
{
    let nf: usize = files.len();
    let mut acc: usize = 0;
    let mut i: usize = 0;
    while i < nf
        invariant
            i <= nf,
            acc as int == total_complexity(files@.take(i as int)),
        decreases nf - i,
    {
        let c: usize = match files[i].complexity_hint {
            Some(h) => h,
            None => files[i].loc / 10,
        };
        proof {
            assert(files@.take(i + 1).drop_last() =~= files@.take(i as int));
            assert(files@.take(i + 1).last() == files@[i as int]);
            assert(c as int == file_complexity(files@[i as int]));
        }
        if acc <= usize::MAX - c {
            acc = acc + c;
        } else {
            acc = usize::MAX;
        }
        i = i + 1;
    }
    proof {
        assert(files@.take(nf as int) =~= files@);
    }
    acc
}

/// Resolves the declared references of the single module at node `s2`,
/// whose file is `fk`: appends one edge per reference that names a known
/// node (deduplicated) and one diagnostic per reference that does not.
#[verifier::loop_isolation(false)]
#[verifier::rlimit(80)]
fn resolve_one(
    files: &Vec<FileMetadata>,
    nodes: &Vec<String>,
    fk: usize,
    s2: usize,
    edges: &mut Vec<(usize, usize)>,
    diags: &mut Vec<Diagnostic>,
)
    requires
        (fk as int) < files@.len(),
        (s2 as int) < nodes@.len(),
        ids_of(files@)[fk as int] == id_views(nodes@)[s2 as int],
        forall|a: int, b: int|
            0 <= a < b < files@.len() ==> ids_of(files@)[a] != ids_of(files@)[b],
        forall|a: int, b: int|
            0 <= a < b < nodes@.len() ==> id_views(nodes@)[a] != id_views(nodes@)[b],
        forall|k: int|
            0 <= k < old(edges)@.len() ==> (old(edges)@[k].0 as int) < nodes@.len() && (old(edges)@[k].1 as int) < nodes@.len(),
        forall|k: int, l: int| 0 <= k < l < old(edges)@.len() ==> old(edges)@[k] != old(edges)@[l],
        forall|s: usize, t: usize|
            #![trigger pair_in(old(edges)@, s, t)]
            pair_in(old(edges)@, s, t) <==> ((s as int) < s2 && (t as int) < nodes@.len()
                && ref_edge(files@, id_views(nodes@), s, t)),
        forall|di: int|
            0 <= di < old(diags)@.len() ==> diag_sound(files@, id_views(nodes@), old(diags)@[di]),
    ensures
        forall|k: int|
            0 <= k < final(edges)@.len() ==> (final(edges)@[k].0 as int) < nodes@.len() && (final(edges)@[k].1 as int) < nodes@.len(),
        forall|k: int, l: int|
            0 <= k < l < final(edges)@.len() ==> final(edges)@[k] != final(edges)@[l],
        forall|s: usize, t: usize|
            #![trigger pair_in(final(edges)@, s, t)]
            pair_in(final(edges)@, s, t) <==> ((s as int) < s2 + 1 && (t as int) < nodes@.len()
                && ref_edge(files@, id_views(nodes@), s, t)),
        forall|di: int|
            0 <= di < final(diags)@.len() ==> diag_sound(files@, id_views(nodes@), final(diags)@[di]),
        final(diags)@.len() >= old(diags)@.len(),
        forall|di: int| 0 <= di < old(diags)@.len() ==> final(diags)@[di] == old(diags)@[di],
        forall|rj: int|
            0 <= rj < files@[fk as int].spec_refs().len() && !id_in(
                id_views(nodes@),
                #[trigger] files@[fk as int].spec_refs()[rj],
            ) ==> has_unres_diag(
                final(diags)@,
                id_views(nodes@)[s2 as int],
                files@[fk as int].spec_refs()[rj],
            ),
{
    let ghost nv: Seq<Seq<char>> = id_views(nodes@);
    let ghost refs: Seq<Seq<char>> = files@[fk as int].spec_refs();
    let n: usize = nodes.len();
    let nrefs: usize = files[fk].referenced_modules.len();
    let mut rj: usize = 0;
    while rj < nrefs
        invariant
            rj <= nrefs,
            forall|k: int|
                0 <= k < edges@.len() ==> (edges@[k].0 as int) < n && (edges@[k].1 as int) < n,
            forall|k: int, l: int| 0 <= k < l < edges@.len() ==> edges@[k] != edges@[l],
            forall|s: usize, t: usize|
                #![trigger pair_in(edges@, s, t)]
                pair_in(edges@, s, t) <==> (((s as int) < s2 && (t as int) < n && ref_edge(
                    files@,
                    nv,
                    s,
                    t,
                )) || (s == s2 && (t as int) < n && (exists|r0: int|
                    0 <= r0 < rj && refs[r0] == nv[t as int]))),
            forall|di: int| 0 <= di < diags@.len() ==> diag_sound(files@, nv, diags@[di]),
            diags@.len() >= old(diags)@.len(),
            forall|di: int| 0 <= di < old(diags)@.len() ==> diags@[di] == old(diags)@[di],
            forall|r0: int|
                0 <= r0 < rj && !id_in(nv, #[trigger] refs[r0]) ==> has_unres_diag(
                    diags@,
                    nv[s2 as int],
                    refs[r0],
                ),
        decreases nrefs - rj,
    {
        let refstr: &String = &files[fk].referenced_modules[rj];
        proof {
            assert(refstr@ == refs[rj as int]);
        }
        match find_id(nodes, refstr.as_str()) {
            Some(ti) => {
                proof {
                    assert(refs[rj as int] == nv[ti as int]);
                }
                proof {
                    assert forall|t: usize|
                        (t as int) < n && refs[rj as int] == nv[t as int] implies t == ti by {
                        if t < ti {
                            assert(nv[t as int] != nv[ti as int]);
                        } else if t > ti {
                            assert(nv[ti as int] != nv[t as int]);
                        }
                    }
                }
                if !edge_in(&edges, s2, ti) {
                    let ghost oldedges = edges@;
                    edges.push((s2, ti));
                    proof {
                        assert forall|s: usize, t: usize|
                            pair_in(edges@, s, t) <==> (pair_in(oldedges, s, t) || (s == s2 && t
                                == ti)) by {
                            if pair_in(edges@, s, t) {
                                let k = choose|k: int|
                                    0 <= k < edges@.len() && edges@[k] == (s, t);
                                if k < oldedges.len() {
                                    assert(oldedges[k] == (s, t));
                                    assert(pair_in(oldedges, s, t));
                                }
                            }
                            if pair_in(oldedges, s, t) {
                                let k = choose|k: int|
                                    0 <= k < oldedges.len() && oldedges[k] == (s, t);
                                assert(edges@[k] == (s, t));
                                assert(pair_in(edges@, s, t));
                            }
                            if s == s2 && t == ti {
                                assert(edges@[oldedges.len() as int] == (s, t));
                                assert(pair_in(edges@, s, t));
                            }
                        }
                        assert forall|s: usize, t: usize|
                            pair_in(edges@, s, t) <==> (((s as int) < s2 && (t as int) < n
                                && ref_edge(files@, nv, s, t)) || (s == s2 && (t as int) < n && (
                            exists|r0: int|
                                0 <= r0 < rj + 1 && refs[r0] == nv[t as int]))) by {
                            if pair_in(edges@, s, t) {
                                if pair_in(oldedges, s, t) {
                                    if s == s2 {
                                        let r0 = choose|r0: int|
                                            0 <= r0 < rj && refs[r0] == nv[t as int];
                                        assert(0 <= r0 < rj + 1 && refs[r0] == nv[t as int]);
                                    }
                                } else {
                                    assert(s == s2 && t == ti);
                                    assert(0 <= rj < rj + 1 && refs[rj as int] == nv[t as int]);
                                }
                            }
                            if (s as int) < s2 && (t as int) < n && ref_edge(
                                files@,
                                nv,
                                s,
                                t,
                            ) {
                                assert(pair_in(oldedges, s, t));
                                assert(pair_in(edges@, s, t));
                            }
                            if s == s2 && (t as int) < n && (exists|r0: int|
                                0 <= r0 < rj + 1 && refs[r0] == nv[t as int]) {
                                let r0 = choose|r0: int|
                                    0 <= r0 < rj + 1 && refs[r0] == nv[t as int];
                                if r0 == rj {
                                    assert(t == ti);
                                    assert(edges@[oldedges.len() as int] == (s2, ti));
                                    assert(pair_in(edges@, s, t));
                                } else {
                                    assert(pair_in(oldedges, s, t));
                                    assert(pair_in(edges@, s, t));
                                }
                            }
                        }
                    }
                } else {
                    proof {
                        assert forall|s: usize, t: usize|
                            pair_in(edges@, s, t) <==> (((s as int) < s2 && (t as int) < n
                                && ref_edge(files@, nv, s, t)) || (s == s2 && (t as int) < n && (
                            exists|r0: int|
                                0 <= r0 < rj + 1 && refs[r0] == nv[t as int]))) by {
                            if pair_in(edges@, s, t) && s == s2 {
                                let r0 = choose|r0: int|
                                    0 <= r0 < rj && refs[r0] == nv[t as int];
                                assert(0 <= r0 < rj + 1 && refs[r0] == nv[t as int]);
                            }
                            if (s as int) < s2 && (t as int) < n && ref_edge(
                                files@,
                                nv,
                                s,
                                t,
                            ) {
                                assert(pair_in(edges@, s, t));
                            }
                            if s == s2 && (t as int) < n && (exists|r0: int|
                                0 <= r0 < rj + 1 && refs[r0] == nv[t as int]) {
                                let r0 = choose|r0: int|
                                    0 <= r0 < rj + 1 && refs[r0] == nv[t as int];
                                if r0 == rj {
                                    assert(t == ti);
                                    assert(pair_in(edges@, s, t));
                                } else {
                                    assert(pair_in(edges@, s, t));
                                }
                            }
                        }
                    }
                }
            },
            None => {
                let d = Diagnostic::UnresolvedReference {
                    module: nodes[s2].clone(),
                    reference: files[fk].referenced_modules[rj].clone(),
                };
                let ghost olddiags = diags@;
                diags.push(d);
                proof {
                    assert forall|t: usize| (t as int) < n implies refs[rj as int] != nv[t as int] by {
                        assert(id_in(nv, nv[t as int]));
                    }
                    assert forall|s: usize, t: usize|
                        pair_in(edges@, s, t) <==> (((s as int) < s2 && (t as int) < n
                            && ref_edge(files@, nv, s, t)) || (s == s2 && (t as int) < n && (
                        exists|r0: int|
                            0 <= r0 < rj + 1 && refs[r0] == nv[t as int]))) by {
                        if pair_in(edges@, s, t) && s == s2 {
                            let r0 = choose|r0: int| 0 <= r0 < rj && refs[r0] == nv[t as int];
                            assert(0 <= r0 < rj + 1 && refs[r0] == nv[t as int]);
                        }
                        if (s as int) < s2 && (t as int) < n && ref_edge(files@, nv, s, t) {
                            assert(pair_in(edges@, s, t));
                        }
                        if s == s2 && (t as int) < n && (exists|r0: int|
                            0 <= r0 < rj + 1 && refs[r0] == nv[t as int]) {
                            let r0 = choose|r0: int|
                                0 <= r0 < rj + 1 && refs[r0] == nv[t as int];
                            assert(r0 != rj);
                            assert(pair_in(edges@, s, t));
                        }
                    }
                    let di = olddiags.len() as int;
                    assert(diags@[di].spec_module() == nv[s2 as int]);
                    assert(diags@[di].spec_reference() == refs[rj as int]);
                    assert(id_in(files@[fk as int].spec_refs(), refs[rj as int]));
                    assert(diag_sound(files@, nv, diags@[di]));
                    assert(has_unres_diag(diags@, nv[s2 as int], refs[rj as int]));
                    assert(forall|x: int| 0 <= x < olddiags.len() ==> diags@[x] == olddiags[x]);
                    assert forall|r0: int|
                        0 <= r0 < rj + 1 && !id_in(nv, #[trigger] refs[r0]) implies has_unres_diag(
                        diags@,
                        nv[s2 as int],
                        refs[r0],
                    ) by {
                        if r0 < rj {
                            let dx = choose|dx: int|
                                0 <= dx < olddiags.len() && olddiags[dx].spec_module() == nv[s2 as int]
                                    && olddiags[dx].spec_reference() == refs[r0];
                            assert(diags@[dx].spec_module() == nv[s2 as int]);
                            assert(has_unres_diag(diags@, nv[s2 as int], refs[r0]));
                        }
                    }
                }
            },
        }
        rj = rj + 1;
    }
    proof {
        assert forall|s: usize, t: usize|
            pair_in(edges@, s, t) <==> ((s as int) < s2 + 1 && (t as int) < n && ref_edge(
                files@,
                nv,
                s,
                t,
            )) by {
            if pair_in(edges@, s, t) && s == s2 {
                let r0 = choose|r0: int| 0 <= r0 < nrefs && refs[r0] == nv[t as int];
                assert(id_in(files@[fk as int].spec_refs(), nv[t as int]));
                assert(ref_edge(files@, nv, s, t));
            }
            if (s as int) < s2 + 1 && (t as int) < n && ref_edge(files@, nv, s, t) && s == s2 {
                let k = choose|k: int|
                    0 <= k < files@.len() && ids_of(files@)[k] == nv[s as int] && id_in(
                        files@[k].spec_refs(),
                        nv[t as int],
                    );
                // module identifiers are unique, so k is the file of node s2
                assert(ids_of(files@)[k] == ids_of(files@)[fk as int]);
                if k < fk as int {
                    assert(ids_of(files@)[k] != ids_of(files@)[fk as int]);
                } else if k > fk as int {
                    assert(ids_of(files@)[fk as int] != ids_of(files@)[k]);
                }
                assert(k == fk as int);
                let r0 = choose|r0: int| 0 <= r0 < refs.len() && refs[r0] == nv[t as int];
                assert(pair_in(edges@, s, t));
            }
        }
    }
}

/// Resolves every declared reference of every module: an edge per
/// reference that names a known node (deduplicated), a diagnostic per
/// reference that does not.
#[verifier::loop_isolation(false)]
#[verifier::rlimit(80)]
fn resolve_refs(files: &Vec<FileMetadata>, nodes: &Vec<String>, file_of: &Vec<usize>) -> (r: (
    Vec<(usize, usize)>,
    Vec<Diagnostic>,
))
    requires
        file_of@.len() == nodes@.len(),
        forall|s: int|
            #![trigger file_of@[s]]
            0 <= s < nodes@.len() ==> 0 <= file_of@[s] < files@.len() && ids_of(files@)[file_of@[s] as int]
                == id_views(nodes@)[s],
        forall|a: int, b: int|
            0 <= a < b < files@.len() ==> ids_of(files@)[a] != ids_of(files@)[b],
        forall|a: int, b: int|
            0 <= a < b < nodes@.len() ==> id_views(nodes@)[a] != id_views(nodes@)[b],
    ensures
        forall|k: int|
            0 <= k < r.0@.len() ==> (r.0@[k].0 as int) < nodes@.len() && (r.0@[k].1 as int)
                < nodes@.len(),
        forall|k: int, l: int| 0 <= k < l < r.0@.len() ==> r.0@[k] != r.0@[l],
        forall|s: usize, t: usize|
            #![trigger pair_in(r.0@, s, t)]
            pair_in(r.0@, s, t) <==> ((s as int) < nodes@.len() && (t as int) < nodes@.len()
                && ref_edge(files@, id_views(nodes@), s, t)),
        forall|di: int|
            0 <= di < r.1@.len() ==> diag_sound(files@, id_views(nodes@), r.1@[di]),
        forall|k: int, rj: int|
            #![trigger files@[k].spec_refs()[rj]]
            0 <= k < files@.len() && 0 <= rj < files@[k].spec_refs().len() && id_in(
                id_views(nodes@),
                ids_of(files@)[k],
            ) && !id_in(id_views(nodes@), files@[k].spec_refs()[rj]) ==> has_unres_diag(
                r.1@,
                ids_of(files@)[k],
                files@[k].spec_refs()[rj],
            ),
{
    let ghost nv: Seq<Seq<char>> = id_views(nodes@);
    let n: usize = nodes.len();
    let nf: usize = files.len();
    let mut edges: Vec<(usize, usize)> = Vec::new();
    let mut diags: Vec<Diagnostic> = Vec::new();
    let mut s2: usize = 0;
    while s2 < n
        invariant
            s2 <= n,
            forall|k: int|
                0 <= k < edges@.len() ==> (edges@[k].0 as int) < n && (edges@[k].1 as int) < n,
            forall|k: int, l: int| 0 <= k < l < edges@.len() ==> edges@[k] != edges@[l],
            forall|s: usize, t: usize|
                #![trigger pair_in(edges@, s, t)]
                pair_in(edges@, s, t) <==> ((s as int) < s2 && (t as int) < n && ref_edge(
                    files@,
                    nv,
                    s,
                    t,
                )),
            forall|di: int| 0 <= di < diags@.len() ==> diag_sound(files@, nv, diags@[di]),
            forall|k: int, rj: int|
                #![trigger files@[k].spec_refs()[rj]]
                0 <= k < nf && 0 <= rj < files@[k].spec_refs().len() && (exists|s: int|
                    0 <= s < s2 && nv[s] == ids_of(files@)[k]) && !id_in(
                    nv,
                    files@[k].spec_refs()[rj],
                ) ==> has_unres_diag(diags@, ids_of(files@)[k], files@[k].spec_refs()[rj]),
        decreases n - s2,
    {
        let fk: usize = file_of[s2];
        proof {
            assert(s2 < nodes@.len());
            assert(0 <= file_of@[s2 as int]);
            assert(file_of@[s2 as int] < files@.len());
            assert(ids_of(files@)[file_of@[s2 as int] as int] == id_views(nodes@)[s2 as int]);
        }
        let ghost olddiags = diags@;
        resolve_one(files, nodes, fk, s2, &mut edges, &mut diags);
        proof {
            assert forall|k: int, rj2: int|
                0 <= k < nf && 0 <= rj2 < files@[k].spec_refs().len() && (exists|s: int|
                    0 <= s < s2 + 1 && nv[s] == ids_of(files@)[k]) && !id_in(
                    nv,
                    #[trigger] files@[k].spec_refs()[rj2],
                ) implies has_unres_diag(diags@, ids_of(files@)[k], files@[k].spec_refs()[rj2]) by {
                let s = choose|s: int| 0 <= s < s2 + 1 && nv[s] == ids_of(files@)[k];
                if s == s2 as int {
                    // identifiers are unique, so k is the file of node s2
                    assert(ids_of(files@)[k] == ids_of(files@)[fk as int]);
                    if k < fk as int {
                        assert(ids_of(files@)[k] != ids_of(files@)[fk as int]);
                    } else if k > fk as int {
                        assert(ids_of(files@)[fk as int] != ids_of(files@)[k]);
                    }
                    assert(k == fk as int);
                    assert(has_unres_diag(diags@, nv[s2 as int], files@[fk as int].spec_refs()[rj2]));
                } else {
                    let di = choose|di: int|
                        0 <= di < olddiags.len() && olddiags[di].spec_module() == ids_of(files@)[k]
                            && olddiags[di].spec_reference() == files@[k].spec_refs()[rj2];
                    assert(diags@[di].spec_module() == ids_of(files@)[k]);
                    assert(has_unres_diag(diags@, ids_of(files@)[k], files@[k].spec_refs()[rj2]));
                }
            }
        }
        s2 = s2 + 1;
    }
    proof {
        assert forall|k: int, rj: int|
            0 <= k < files@.len() && 0 <= rj < files@[k].spec_refs().len() && id_in(
                id_views(nodes@),
                ids_of(files@)[k],
            ) && !id_in(id_views(nodes@), #[trigger] files@[k].spec_refs()[rj]) implies has_unres_diag(
                diags@,
                ids_of(files@)[k],
                files@[k].spec_refs()[rj],
            ) by {
            assert(id_in(nv, ids_of(files@)[k]));
            assert(!id_in(nv, files@[k].spec_refs()[rj]));
            assert(s2 == n);
            assert(nv.len() == n);
            let s = choose|s: int| 0 <= s < nv.len() && nv[s] == ids_of(files@)[k];
            assert(0 <= s < s2 && nv[s] == ids_of(files@)[k]);
            assert(exists|s0: int| 0 <= s0 < s2 && nv[s0] == ids_of(files@)[k]);
        }
    }
    (edges, diags)
}

/// Result of building the dependency graph: the graph, its aggregate
/// metrics, and the non-fatal diagnostics recorded along the way.
pub struct GraphBuild {
    pub graph: DependencyGraph,
    pub metrics: GraphMetrics,
    pub diagnostics: Vec<Diagnostic>,
}

impl DependencyGraph {
    /// Builds the dependency graph of a file set.
    ///
    /// Every file's path is normalized to a canonical module identifier;
    /// two files normalizing to the same identifier are a fatal error
    /// naming both paths. Nodes are the identifiers in lexicographic
    /// order. Each declared reference that names a known module becomes
    /// an edge (deduplicated); each that does not is recorded as an
    /// unresolved-reference diagnostic, never an edge to a phantom node.
    #[verifier::loop_isolation(false)]
    #[verifier::rlimit(80)]
    pub fn build_from_files(files: &Vec<FileMetadata>) -> (r: Result<GraphBuild, AnalysisError>)
        ensures
            r is Err <==> has_dup_ids(files@),
            match r {
                Err(e) => match e {
                    AnalysisError::DuplicateModule { module, first_path, second_path } => {
                        exists|i: int, j: int|
                            0 <= i < j < files@.len() && ids_of(files@)[i] == ids_of(files@)[j]
                                && module@ == ids_of(files@)[j] && first_path@ == files@[i].path@
                                && second_path@ == files@[j].path@
                    },
                },
                Ok(b) => {
                    &&& b.graph.wf()
                    &&& b.graph.spec_nodes().len() == files@.len()
                    &&& forall|x: Seq<char>|
                        id_in(b.graph.spec_nodes(), x) <==> id_in(ids_of(files@), x)
                    &&& forall|s: usize, t: usize|
                        #![trigger pair_in(b.graph.spec_edges(), s, t)]
                        pair_in(b.graph.spec_edges(), s, t) <==> ((s as int)
                            < b.graph.spec_nodes().len() && (t as int) < b.graph.spec_nodes().len()
                            && ref_edge(files@, b.graph.spec_nodes(), s, t))
                    &&& forall|di: int|
                        0 <= di < b.diagnostics@.len() ==> diag_sound(
                            files@,
                            b.graph.spec_nodes(),
                            b.diagnostics@[di],
                        )
                    &&& forall|k: int, rj: int|
                        #![trigger files@[k].spec_refs()[rj]]
                        0 <= k < files@.len() && 0 <= rj < files@[k].spec_refs().len() && !id_in(
                            b.graph.spec_nodes(),
                            files@[k].spec_refs()[rj],
                        ) ==> has_unres_diag(
                            b.diagnostics@,
                            ids_of(files@)[k],
                            files@[k].spec_refs()[rj],
                        )
                    &&& b.metrics.node_count == b.graph.spec_nodes().len()
                    &&& b.metrics.edge_count == b.graph.spec_edges().len()
                    &&& b.metrics.cyclomatic_complexity as int == total_complexity(files@)
                    &&& b.metrics.density as int == density_spec(
                        b.metrics.node_count as int,
                        b.metrics.edge_count as int,
                    )
                    &&& b.metrics.density <= crate::SCALE
                },
            },
    {
        let nf: usize = files.len();
        // canonical identifier of each file
        let mut ids: Vec<String> = Vec::new();
        let mut k: usize = 0;
        while k < nf
            invariant
                k <= nf,
                ids@.len() == k,
                id_views(ids@) =~= ids_of(files@).take(k as int),
            decreases nf - k,
        {
            ids.push(normalize_module_id(files[k].path.as_str()));
            proof {
                assert(id_views(ids@) =~= ids_of(files@).take(k + 1));
            }
            k = k + 1;
        }
        proof {
            assert(id_views(ids@) =~= ids_of(files@));
        }
        // identity collisions are fatal
        let mut j: usize = 0;
        while j < nf
            invariant
                j <= nf,
                forall|a: int, b: int|
                    0 <= a < b < j ==> ids_of(files@)[a] != ids_of(files@)[b],
            decreases nf - j,
        {
            let mut i: usize = 0;
            while i < j
                invariant
                    i <= j,
                    forall|a: int| 0 <= a < i ==> ids_of(files@)[a] != ids_of(files@)[j as int],
                decreases j - i,
            {
                if str_eq(ids[i].as_str(), ids[j].as_str()) {
                    proof {
                        assert(ids_of(files@)[i as int] == ids_of(files@)[j as int]);
                    }
                    return Err(AnalysisError::DuplicateModule {
                        module: ids[j].clone(),
                        first_path: files[i].path.clone(),
                        second_path: files[j].path.clone(),
                    });
                }
                i = i + 1;
            }
            j = j + 1;
        }
        proof {
            assert(!has_dup_ids(files@));
        }
        // nodes: the identifiers in lexicographic order
        let mut nodes: Vec<String> = Vec::new();
        let mut k2: usize = 0;
        while k2 < nf
            invariant
                k2 <= nf,
                nodes@.len() == k2,
                sorted_ids(id_views(nodes@)),
                forall|x: Seq<char>|
                    id_in(id_views(nodes@), x) <==> id_in(ids_of(files@).take(k2 as int), x),
            decreases nf - k2,
        {
            let ghost before: Seq<Seq<char>> = id_views(nodes@);
            proof {
                if id_in(before, ids_of(files@)[k2 as int]) {
                    let a = choose|a: int|
                        0 <= a < ids_of(files@).take(k2 as int).len() && ids_of(files@).take(
                            k2 as int,
                        )[a] == ids_of(files@)[k2 as int];
                    assert(ids_of(files@)[a] == ids_of(files@)[k2 as int]);
                    assert(false);
                }
                assert(ids@[k2 as int]@ == ids_of(files@)[k2 as int]);
            }
            insert_sorted(&mut nodes, ids[k2].clone());
            proof {
                assert forall|x: Seq<char>|
                    id_in(id_views(nodes@), x) <==> id_in(
                        ids_of(files@).take(k2 + 1),
                        x,
                    ) by {
                    if id_in(ids_of(files@).take(k2 + 1), x) {
                        let a = choose|a: int|
                            0 <= a < k2 + 1 && #[trigger] ids_of(files@).take(k2 + 1)[a] == x;
                        if a < k2 {
                            assert(ids_of(files@).take(k2 as int)[a] == x);
                            assert(id_in(ids_of(files@).take(k2 as int), x));
                        } else {
                            assert(x == ids_of(files@)[k2 as int]);
                        }
                    }
                    if id_in(id_views(nodes@), x) {
                        if id_in(before, x) {
                            let a = choose|a: int|
                                0 <= a < k2 && ids_of(files@).take(k2 as int)[a] == x;
                            assert(ids_of(files@).take(k2 + 1)[a] == x);
                            assert(id_in(ids_of(files@).take(k2 + 1), x));
                        } else {
                            assert(x == ids_of(files@)[k2 as int]);
                            assert(ids_of(files@).take(k2 + 1)[k2 as int] == x);
                            assert(id_in(ids_of(files@).take(k2 + 1), x));
                        }
                    }
                }
            }
            k2 = k2 + 1;
        }
        proof {
            assert(ids_of(files@).take(nf as int) =~= ids_of(files@));
            assert forall|a: int, b: int|
                0 <= a < b < nodes@.len() implies id_views(nodes@)[a] != id_views(nodes@)[b] by {
                if id_views(nodes@)[a] == id_views(nodes@)[b] {
                    assert(lex_lt(id_views(nodes@)[a], id_views(nodes@)[b]));
                    lemma_lex_irrefl(id_views(nodes@)[a]);
                }
            }
        }
        // which file each node came from
        let n: usize = nodes.len();
        let mut file_of: Vec<usize> = Vec::new();
        let mut si: usize = 0;
        while si < n
            invariant
                si <= n,
                file_of@.len() == si,
                forall|s: int|
                    #![trigger file_of@[s]]
                    0 <= s < si ==> 0 <= file_of@[s] < files@.len() && ids_of(files@)[file_of@[s] as int]
                        == id_views(nodes@)[s],
            decreases n - si,
        {
            let fk: usize = match find_id(&ids, nodes[si].as_str()) {
                Some(x) => x,
                None => {
                    proof {
                        assert(id_in(id_views(nodes@), id_views(nodes@)[si as int]));
                        assert(false);
                    }
                    0
                },
            };
            file_of.push(fk);
            si = si + 1;
        }
        // edges and diagnostics
        let (edges, diags) = resolve_refs(files, &nodes, &file_of);
        // aggregate metrics
        let ecount: usize = edges.len();
        let metrics = GraphMetrics {
            node_count: n,
            edge_count: ecount,
            cyclomatic_complexity: complexity_of(files),
            density: density_of(n, ecount),
        };
        let g = DependencyGraph { nodes, edges };
        proof {
            assert(g.spec_nodes().len() == files@.len());
        }
        Ok(GraphBuild { graph: g, metrics, diagnostics: diags })
    }
}

/// A dependency edge between two module identifiers of a graph.
pub open spec fn dep_edge(g: DependencyGraph, a: Seq<char>, b: Seq<char>) -> bool {
    exists|k: int|
        0 <= k < g.spec_edges().len() && g.spec_nodes()[g.spec_edges()[k].0 as int] == a
            && g.spec_nodes()[g.spec_edges()[k].1 as int] == b
}

/// A valid cycle over module identifiers: nonempty, pairwise distinct,
/// each consecutive pair an edge, and an edge from the last back to the
/// first, so that traversing it edge by edge returns to its start.
pub open spec fn cycle_ok(g: DependencyGraph, c: Seq<Seq<char>>) -> bool {
    &&& c.len() >= 1
    &&& forall|i: int| 0 <= i < c.len() - 1 ==> dep_edge(g, #[trigger] c[i], c[i + 1])
    &&& dep_edge(g, c[c.len() - 1], c[0])
    &&& forall|i: int, j: int| 0 <= i < j < c.len() ==> c[i] != c[j]
}

/// Canonical form of a cycle: it starts at its lexicographically
/// smallest identifier.
pub open spec fn canonical_cycle(c: Seq<Seq<char>>) -> bool {
    forall|i: int| 1 <= i < c.len() ==> lex_lt(c[0], c[i])
}

/// The rotation of a cycle that starts at position `k` instead.
pub open spec fn rotation(c: Seq<Seq<char>>, k: int) -> Seq<Seq<char>> {
    c.skip(k) + c.take(k)
}

/// Two distinct canonical cycles with pairwise distinct identifiers are
/// never rotations of one and the same cycle.
pub proof fn lemma_canonical_cycles_not_rotations(c: Seq<Seq<char>>, d: Seq<Seq<char>>, k: int)
    requires
        c.len() >= 1,
        canonical_cycle(c),
        canonical_cycle(d),
        forall|i: int, j: int| 0 <= i < j < c.len() ==> c[i] != c[j],
        c != d,
        0 <= k < c.len(),
    ensures
        d != rotation(c, k),
{
    if d == rotation(c, k) {
        if k == 0 {
            assert(c =~= rotation(c, 0));
        } else {
            let len = c.len() as int;
            assert(d[0] == c.skip(k)[0]);
            assert(d[0] == c[k]);
            assert(d[len - k] == c.take(k)[len - k - (len - k)]);
            assert(d[len - k] == c[0]);
            assert(lex_lt(d[0], d[len - k]));
            assert(lex_lt(c[0], c[k]));
            lemma_lex_asym(c[0], c[k]);
        }
    }
}

/// A valid cycle over node indices.
pub open spec fn cycle_edges_ok(g: DependencyGraph, c: Seq<usize>) -> bool {
    &&& c.len() >= 1
    &&& forall|i: int| 0 <= i < c.len() ==> (c[i] as int) < g.spec_nodes().len()
    &&& forall|i: int| 0 <= i < c.len() - 1 ==> pair_in(g.spec_edges(), #[trigger] c[i], c[i + 1])
    &&& pair_in(g.spec_edges(), c[c.len() - 1], c[0])
    &&& forall|i: int, j: int| 0 <= i < j < c.len() ==> c[i] != c[j]
}

/// A node-index cycle that starts at its lexicographically smallest
/// module identifier.
pub open spec fn canonical_idx(g: DependencyGraph, c: Seq<usize>) -> bool {
    forall|i: int|
        1 <= i < c.len() ==> lex_lt(g.spec_nodes()[c[0] as int], g.spec_nodes()[c[i] as int])
}

/// The module identifiers of a sequence of node indices.
pub open spec fn ids_of_idx(g: DependencyGraph, c: Seq<usize>) -> Seq<Seq<char>> {
    c.map_values(|i: usize| g.spec_nodes()[i as int])
}

/// Rotating a valid node-index cycle yields a valid node-index cycle.
pub proof fn lemma_rotation_cycle_ok(g: DependencyGraph, c: Seq<usize>, m: int)
    requires
        cycle_edges_ok(g, c),
        0 <= m < c.len(),
    ensures
        cycle_edges_ok(g, c.skip(m) + c.take(m)),
{
    let r = c.skip(m) + c.take(m);
    let len = c.len() as int;
    assert(r.len() == len);
    assert(forall|i: int| 0 <= i < len - m ==> r[i] == c[m + i]);
    assert(forall|i: int| len - m <= i < len ==> r[i] == c[i - (len - m)]);
    assert forall|i: int, j: int| 0 <= i < j < len implies r[i] != r[j] by {
        if i < len - m && j >= len - m {
            assert(r[i] == c[m + i] && r[j] == c[j - (len - m)]);
            assert(j - (len - m) < m + i);
        }
    }
    assert forall|i: int| 0 <= i < len - 1 implies pair_in(g.spec_edges(), #[trigger] r[i], r[i + 1]) by {
        if i + 1 < len - m {
            assert(r[i] == c[m + i] && r[i + 1] == c[m + i + 1]);
        } else if i + 1 == len - m {
            assert(r[i] == c[len - 1] && r[i + 1] == c[0]);
        } else {
            assert(r[i] == c[i - (len - m)] && r[i + 1] == c[i + 1 - (len - m)]);
        }
    }
    if m == 0 {
        assert(r[len - 1] == c[len - 1] && r[0] == c[0]);
    } else {
        assert(r[len - 1] == c[m - 1] && r[0] == c[m]);
    }
}

/// On a graph with distinct node identifiers, distinct index cycles map
/// to distinct identifier cycles, and index-cycle validity carries over.
pub proof fn lemma_idx_cycle_to_ids(g: DependencyGraph, c: Seq<usize>)
    requires
        g.wf(),
        cycle_edges_ok(g, c),
        canonical_idx(g, c),
    ensures
        cycle_ok(g, ids_of_idx(g, c)),
        canonical_cycle(ids_of_idx(g, c)),
        ids_of_idx(g, c).len() == c.len(),
{
    let ids = ids_of_idx(g, c);
    let nv = g.spec_nodes();
    assert forall|a: int, b: int| 0 <= a < nv.len() && 0 <= b < nv.len() && a != b implies nv[a]
        != nv[b] by {
        if a < b {
            assert(lex_lt(nv[a], nv[b]));
            if nv[a] == nv[b] {
                lemma_lex_irrefl(nv[a]);
            }
        } else {
            assert(lex_lt(nv[b], nv[a]));
            if nv[a] == nv[b] {
                lemma_lex_irrefl(nv[a]);
            }
        }
    }
    assert forall|i: int| 0 <= i < ids.len() - 1 implies dep_edge(g, #[trigger] ids[i], ids[i + 1]) by {
        assert(pair_in(g.spec_edges(), c[i], c[i + 1]));
        let k = choose|k: int|
            0 <= k < g.spec_edges().len() && g.spec_edges()[k] == (c[i], c[i + 1]);
        assert(nv[g.spec_edges()[k].0 as int] == ids[i]);
        assert(nv[g.spec_edges()[k].1 as int] == ids[i + 1]);
    }
    assert(dep_edge(g, ids[ids.len() - 1], ids[0])) by {
        let k = choose|k: int|
            0 <= k < g.spec_edges().len() && g.spec_edges()[k] == (c[c.len() - 1], c[0]);
        assert(nv[g.spec_edges()[k].0 as int] == ids[ids.len() - 1]);
        assert(nv[g.spec_edges()[k].1 as int] == ids[0]);
    }
    assert forall|i: int, j: int| 0 <= i < j < ids.len() implies ids[i] != ids[j] by {
        assert(c[i] != c[j]);
    }
}

/// On a graph with distinct node identifiers, mapping index cycles to
/// identifier cycles is injective.
pub proof fn lemma_ids_of_idx_injective(g: DependencyGraph, c1: Seq<usize>, c2: Seq<usize>)
    requires
        g.wf(),
        forall|i: int| 0 <= i < c1.len() ==> (c1[i] as int) < g.spec_nodes().len(),
        forall|i: int| 0 <= i < c2.len() ==> (c2[i] as int) < g.spec_nodes().len(),
        c1 != c2,
    ensures
        ids_of_idx(g, c1) != ids_of_idx(g, c2),
{
    let nv = g.spec_nodes();
    if ids_of_idx(g, c1) == ids_of_idx(g, c2) {
        assert(ids_of_idx(g, c1).len() == c1.len());
        assert(ids_of_idx(g, c2).len() == c2.len());
        assert(c1.len() == c2.len());
        assert forall|q: int| 0 <= q < c1.len() implies c1[q] == c2[q] by {
            assert(nv[c1[q] as int] == ids_of_idx(g, c1)[q]);
            assert(nv[c2[q] as int] == ids_of_idx(g, c2)[q]);
            if c1[q] != c2[q] {
                if c1[q] < c2[q] {
                    assert(lex_lt(nv[c1[q] as int], nv[c2[q] as int]));
                    lemma_lex_irrefl(nv[c1[q] as int]);
                } else {
                    assert(lex_lt(nv[c2[q] as int], nv[c1[q] as int]));
                    lemma_lex_irrefl(nv[c1[q] as int]);
                }
            }
        }
        assert(c1 =~= c2);
    }
}

/// Compares two node-index sequences for equality.
#[verifier::loop_isolation(false)]
fn cycles_equal(a: &Vec<usize>, b: &Vec<usize>) -> (r: bool)
    ensures
        r == (a@ == b@),
{
    if a.len() != b.len() {
        proof {
            assert(a@ != b@);
        }
        return false;
    }
    let n: usize = a.len();
    let mut i: usize = 0;
    while i < n
        invariant
            i <= n,
            forall|q: int| 0 <= q < i ==> a@[q] == b@[q],
        decreases n - i,
    {
        if a[i] != b[i] {
            return false;
        }
        i = i + 1;
    }
    proof {
        assert(a@ =~= b@);
    }
    true
}

/// Says whether a node-index cycle is already listed.
#[verifier::loop_isolation(false)]
fn cycle_listed(cs: &Vec<Vec<usize>>, c: &Vec<usize>) -> (r: bool)
    ensures
        r == exists|i: int| 0 <= i < cs@.len() && #[trigger] cs@[i]@ == c@,
{
    let n: usize = cs.len();
    let mut i: usize = 0;
    while i < n
        invariant
            i <= n,
            forall|q: int| 0 <= q < i ==> #[trigger] cs@[q]@ != c@,
        decreases n - i,
    {
        if cycles_equal(&cs[i], c) {
            proof {
                assert(cs@[i as int]@ == c@);
            }
            return true;
        }
        i = i + 1;
    }
    false
}

/// Position of the lexicographically smallest identifier of a cycle,
/// scanning positions `i` onward with current best `m`.
pub open spec fn min_id_idx(nv: Seq<Seq<char>>, c: Seq<usize>, i: int, m: int) -> int
    decreases c.len() - i,
{
    if i >= c.len() {
        m
    } else if lex_lt(nv[c[i] as int], nv[c[m] as int]) {
        min_id_idx(nv, c, i + 1, i)
    } else {
        min_id_idx(nv, c, i + 1, m)
    }
}

/// Rotates a node-index cycle so that it starts at its lexicographically
/// smallest module identifier; also returns the rotation offset.
#[verifier::loop_isolation(false)]
#[verifier::rlimit(80)]
fn canonical_rotation(nodes: &Vec<String>, c: &Vec<usize>) -> (r: (Vec<usize>, usize))
    requires
        c@.len() >= 1,
        forall|i: int| 0 <= i < c@.len() ==> (c@[i] as int) < nodes@.len(),
        forall|i: int, j: int| 0 <= i < j < c@.len() ==> c@[i] != c@[j],
        sorted_ids(id_views(nodes@)),
    ensures
        (r.1 as int) < c@.len(),
        r.1 as int == min_id_idx(id_views(nodes@), c@, 1, 0),
        r.0@ == c@.skip(r.1 as int) + c@.take(r.1 as int),
        r.0@.len() == c@.len(),
        forall|i: int|
            1 <= i < r.0@.len() ==> lex_lt(
                id_views(nodes@)[r.0@[0] as int],
                id_views(nodes@)[r.0@[i] as int],
            ),
{
    let ghost nv: Seq<Seq<char>> = id_views(nodes@);
    let len: usize = c.len();
    let mut m: usize = 0;
    let mut i: usize = 1;
    while i < len
        invariant
            1 <= i <= len,
            m < i,
            forall|q: int| 0 <= q < i && q != m ==> lex_lt(nv[c@[m as int] as int], nv[c@[q] as int]),
            min_id_idx(nv, c@, 1, 0) == min_id_idx(nv, c@, i as int, m as int),
        decreases len - i,
    {
        if str_lt(nodes[c[i]].as_str(), nodes[c[m]].as_str()) {
            proof {
                assert forall|q: int| 0 <= q < i && q != i implies lex_lt(
                    nv[c@[i as int] as int],
                    nv[c@[q] as int],
                ) by {
                    if q != m {
                        lemma_lex_trans(
                            nv[c@[i as int] as int],
                            nv[c@[m as int] as int],
                            nv[c@[q] as int],
                        );
                    }
                }
            }
            m = i;
        } else {
            proof {
                lemma_lex_total(nv[c@[i as int] as int], nv[c@[m as int] as int]);
                if nv[c@[i as int] as int] == nv[c@[m as int] as int] {
                    if (c@[i as int] as int) < (c@[m as int] as int) {
                        assert(lex_lt(nv[c@[i as int] as int], nv[c@[m as int] as int]));
                        lemma_lex_irrefl(nv[c@[i as int] as int]);
                    } else {
                        assert(c@[m as int] != c@[i as int]);
                        assert(lex_lt(nv[c@[m as int] as int], nv[c@[i as int] as int]));
                        lemma_lex_irrefl(nv[c@[i as int] as int]);
                    }
                }
            }
        }
        i = i + 1;
    }
    // build the rotation starting at m
    let mut out: Vec<usize> = Vec::new();
    let ghost target: Seq<usize> = c@.skip(m as int) + c@.take(m as int);
    let mut q: usize = 0;
    while q < len
        invariant
            q <= len,
            m < len,
            out@.len() == q,
            forall|p: int| 0 <= p < q ==> out@[p] == target[p],
        decreases len - q,
    {
        let idx: usize = if q < len - m {
            m + q
        } else {
            q - (len - m)
        };
        out.push(c[idx]);
        proof {
            if q < len - m {
                assert(target[q as int] == c@.skip(m as int)[q as int]);
            } else {
                assert(target[q as int] == c@.take(m as int)[q - (len - m)]);
            }
            assert(out@[q as int] == target[q as int]);
        }
        q = q + 1;
    }
    proof {
        assert(out@ =~= target);
        assert forall|p: int| 1 <= p < len implies lex_lt(
            nv[out@[0] as int],
            nv[out@[p] as int],
        ) by {
            assert(out@[0] == c@[m as int]);
            if p < len - m {
                assert(out@[p] == c@[m + p]);
                assert(m + p != m);
            } else {
                assert(out@[p] == c@[p - (len - m)]);
                assert(p - (len - m) < m);
            }
        }
    }
    (out, m)
}

/// Number of unvisited entries in a traversal color vector.
pub open spec fn count_white(cs: Seq<u8>) -> int
    decreases cs.len(),
{
    if cs.len() == 0 {
        0
    } else {
        count_white(cs.drop_last()) + if cs.last() == 0 {
            1int
        } else {
            0int
        }
    }
}

proof fn lemma_count_white_nonneg(cs: Seq<u8>)
    ensures
        count_white(cs) >= 0,
    decreases cs.len(),
{
    if cs.len() > 0 {
        lemma_count_white_nonneg(cs.drop_last());
    }
}

proof fn lemma_count_white_update(cs: Seq<u8>, i: int, v: u8)
    requires
        0 <= i < cs.len(),
    ensures
        count_white(cs.update(i, v)) == count_white(cs) - (if cs[i] == 0 {
            1int
        } else {
            0int
        }) + (if v == 0 {
            1int
        } else {
            0int
        }),
    decreases cs.len(),
{
    if i == cs.len() - 1 {
        assert(cs.update(i, v).drop_last() =~= cs.drop_last());
        assert(cs.update(i, v).last() == v);
    } else {
        assert(cs.update(i, v).drop_last() =~= cs.drop_last().update(i, v));
        assert(cs.update(i, v).last() == cs.last());
        lemma_count_white_update(cs.drop_last(), i, v);
    }
}

/// Remaining edge-scan budget of the traversal stack.
pub open spec fn scan_slack(its: Seq<usize>, ne: int) -> int
    decreases its.len(),
{
    if its.len() == 0 {
        0
    } else {
        scan_slack(its.drop_last(), ne) + (ne + 1 - its.last())
    }
}

proof fn lemma_scan_slack_nonneg(its: Seq<usize>, ne: int)
    requires
        forall|i: int| 0 <= i < its.len() ==> #[trigger] its[i] <= ne,
    ensures
        scan_slack(its, ne) >= 0,
    decreases its.len(),
{
    if its.len() > 0 {
        assert(forall|i: int|
            0 <= i < its.drop_last().len() ==> #[trigger] its.drop_last()[i] <= ne);
        lemma_scan_slack_nonneg(its.drop_last(), ne);
    }
}

/// An edge whose source is finished leads to a node finished strictly
/// earlier in the traversal's finishing order.
pub open spec fn edge_finished_ok(
    es: Seq<(usize, usize)>,
    cs: Seq<u8>,
    posn: Seq<int>,
    k: int,
) -> bool {
    cs[es[k].0 as int] == 2 ==> (cs[es[k].1 as int] == 2 && posn[es[k].1 as int] < posn[es[k].0 as int])
}

/// An already-scanned edge of a stack frame leads to a finished node or
/// to the frame's current child on the stack.
pub open spec fn scanned_edge_ok(
    es: Seq<(usize, usize)>,
    cs: Seq<u8>,
    pth: Seq<usize>,
    its: Seq<usize>,
    i: int,
    k: int,
) -> bool {
    (0 <= k < its[i] && es[k].0 == pth[i]) ==> (cs[es[k].1 as int] == 2 || (i + 1 < pth.len()
        && es[k].1 == pth[i + 1]))
}

/// Says whether a reported cycle list holds the one-module cycle of the
/// given identifier.
pub open spec fn lists_id_cycle(cs: Seq<Vec<String>>, id: Seq<char>) -> bool {
    exists|ci: int| 0 <= ci < cs.len() && id_views((#[trigger] cs[ci])@) == seq![id]
}

/// Says whether a cycle list holds the given node-index cycle.
pub open spec fn lists_cycle(fs: Seq<Vec<usize>>, c: Seq<usize>) -> bool {
    exists|fc: int| 0 <= fc < fs.len() && (#[trigger] fs[fc])@ == c
}

/// A scanned self-loop of a stack frame is already listed as a cycle.
pub open spec fn self_loop_listed(
    es: Seq<(usize, usize)>,
    pth: Seq<usize>,
    its: Seq<usize>,
    fs: Seq<Vec<usize>>,
    i: int,
    k: int,
) -> bool {
    (0 <= k < its[i] && es[k].0 == pth[i] && es[k].1 == pth[i]) ==> lists_cycle(
        fs,
        seq![pth[i]],
    )
}

proof fn lemma_descent_chain(g: DependencyGraph, posn: Seq<int>, c: Seq<usize>, i: int)
    requires
        g.wf(),
        posn.len() == g.spec_nodes().len(),
        forall|k: int|
            0 <= k < g.spec_edges().len() ==> posn[(#[trigger] g.spec_edges()[k]).1 as int]
                < posn[g.spec_edges()[k].0 as int],
        cycle_edges_ok(g, c),
        0 <= i < c.len(),
    ensures
        posn[c[i] as int] <= posn[c[0] as int] - i,
    decreases i,
{
    if i > 0 {
        lemma_descent_chain(g, posn, c, i - 1);
        assert(pair_in(g.spec_edges(), c[i - 1], c[i]));
        let k = choose|k: int|
            0 <= k < g.spec_edges().len() && g.spec_edges()[k] == (c[i - 1], c[i]);
        assert(posn[c[i] as int] < posn[c[i - 1] as int]);
    }
}

/// A finishing order along which every edge strictly descends rules out
/// any cycle: following a cycle would lower the position forever.
proof fn lemma_descent_blocks_cycle(g: DependencyGraph, posn: Seq<int>, c: Seq<usize>)
    requires
        g.wf(),
        posn.len() == g.spec_nodes().len(),
        forall|k: int|
            0 <= k < g.spec_edges().len() ==> posn[(#[trigger] g.spec_edges()[k]).1 as int]
                < posn[g.spec_edges()[k].0 as int],
    ensures
        !cycle_edges_ok(g, c),
{
    if cycle_edges_ok(g, c) {
        let l = c.len() - 1;
        lemma_descent_chain(g, posn, c, l);
        assert(pair_in(g.spec_edges(), c[l], c[0]));
        let k = choose|k: int|
            0 <= k < g.spec_edges().len() && g.spec_edges()[k] == (c[l], c[0]);
        assert(posn[c[0] as int] < posn[c[l] as int]);
    }
}


/// The node-index views of a list of stored cycles.
pub open spec fn found_views(fs: Seq<Vec<usize>>) -> Seq<Seq<usize>> {
    fs.map_values(|v: Vec<usize>| v@)
}

/// The complete traversal state of the cycle search.
pub struct DfsState {
    pub colors: Seq<u8>,
    pub path: Seq<usize>,
    pub iters: Seq<usize>,
    pub found: Seq<Seq<usize>>,
}

/// Index of the first edge at or after `j` whose source is `u`, or `ne`.
pub open spec fn next_src_edge(es: Seq<(usize, usize)>, ne: int, u: usize, j: int) -> int
    decreases ne - j,
{
    if j >= ne {
        ne
    } else if es[j].0 == u {
        j
    } else {
        next_src_edge(es, ne, u, j + 1)
    }
}

/// Index of the first occurrence of `v` at or after `i`, or the length.
pub open spec fn first_pos(pth: Seq<usize>, v: usize, i: int) -> int
    decreases pth.len() - i,
{
    if i >= pth.len() {
        pth.len() as int
    } else if pth[i] == v {
        i
    } else {
        first_pos(pth, v, i + 1)
    }
}

/// Says whether a cycle sequence is already among the stored ones.
pub open spec fn dfs_listed(fs: Seq<Seq<usize>>, c: Seq<usize>) -> bool {
    exists|i: int| 0 <= i < fs.len() && #[trigger] fs[i] == c
}

/// One step of the depth-first search from a nonempty stack: scan the
/// top frame's next outgoing edge; a fresh target is pushed, a target
/// on the stack closes a cycle that is rotated canonically and listed
/// once, a finished target is skipped, and an exhausted frame finishes.
pub open spec fn dfs_step(
    es: Seq<(usize, usize)>,
    ne: int,
    nv: Seq<Seq<char>>,
    st: DfsState,
) -> DfsState {
    let u = st.path[st.path.len() - 1];
    let k = st.iters[st.iters.len() - 1];
    let j = next_src_edge(es, ne, u, k as int);
    if j < ne {
        let v = es[j].1;
        let its2 = st.iters.update(st.iters.len() - 1, (j + 1) as usize);
        if st.colors[v as int] == 0 {
            DfsState {
                colors: st.colors.update(v as int, 1u8),
                path: st.path.push(v),
                iters: its2.push(0usize),
                found: st.found,
            }
        } else if st.colors[v as int] == 1 {
            let pos = first_pos(st.path, v, 0);
            let cyc = st.path.subrange(pos, st.path.len() as int);
            let m = min_id_idx(nv, cyc, 1, 0);
            let rot = cyc.skip(m) + cyc.take(m);
            if dfs_listed(st.found, rot) {
                DfsState { colors: st.colors, path: st.path, iters: its2, found: st.found }
            } else {
                DfsState {
                    colors: st.colors,
                    path: st.path,
                    iters: its2,
                    found: st.found.push(rot),
                }
            }
        } else {
            DfsState { colors: st.colors, path: st.path, iters: its2, found: st.found }
        }
    } else {
        DfsState {
            colors: st.colors.update(u as int, 2u8),
            path: st.path.drop_last(),
            iters: st.iters.drop_last(),
            found: st.found,
        }
    }
}

/// The state after `fuel` search steps, stopping early once the stack
/// is empty.
pub open spec fn dfs_run(
    es: Seq<(usize, usize)>,
    ne: int,
    nv: Seq<Seq<char>>,
    st: DfsState,
    fuel: int,
) -> DfsState
    decreases fuel,
{
    if fuel <= 0 || st.path.len() == 0 {
        st
    } else {
        dfs_run(es, ne, nv, dfs_step(es, ne, nv, st), fuel - 1)
    }
}

/// Once the stack has emptied, further steps change nothing.
proof fn lemma_dfs_run_stable(
    es: Seq<(usize, usize)>,
    ne: int,
    nv: Seq<Seq<char>>,
    st: DfsState,
    s: int,
    f: int,
)
    requires
        0 <= s <= f,
        dfs_run(es, ne, nv, st, s).path.len() == 0,
    ensures
        dfs_run(es, ne, nv, st, f) == dfs_run(es, ne, nv, st, s),
    decreases s,
{
    if st.path.len() == 0 {
    } else if s > 0 {
        lemma_dfs_run_stable(es, ne, nv, dfs_step(es, ne, nv, st), s - 1, f - 1);
    }
}

/// Running one more step continues from the reached state while the
/// stack is nonempty.
proof fn lemma_dfs_run_peel(
    es: Seq<(usize, usize)>,
    ne: int,
    nv: Seq<Seq<char>>,
    st: DfsState,
    s: int,
)
    requires
        0 <= s,
        dfs_run(es, ne, nv, st, s).path.len() > 0,
    ensures
        dfs_run(es, ne, nv, st, s + 1) == dfs_step(es, ne, nv, dfs_run(es, ne, nv, st, s)),
    decreases s,
{
    if st.path.len() == 0 {
        assert(dfs_run(es, ne, nv, st, s) == st);
    } else if s == 0 {
        assert(dfs_run(es, ne, nv, st, 0) == st);
        assert(dfs_run(es, ne, nv, st, 1) == dfs_run(es, ne, nv, dfs_step(es, ne, nv, st), 0));
    } else {
        assert(dfs_run(es, ne, nv, st, s) == dfs_run(es, ne, nv, dfs_step(es, ne, nv, st), s - 1));
        assert(dfs_run(es, ne, nv, st, s + 1) == dfs_run(es, ne, nv, dfs_step(es, ne, nv, st), s));
        lemma_dfs_run_peel(es, ne, nv, dfs_step(es, ne, nv, st), s - 1);
    }
}

/// The state in which a depth-first exploration comes to rest: after
/// however many steps empty its stack.
pub open spec fn dfs_settled(
    es: Seq<(usize, usize)>,
    ne: int,
    nv: Seq<Seq<char>>,
    st: DfsState,
) -> DfsState {
    let s = choose|s: int| s >= 0 && dfs_run(es, ne, nv, st, s).path.len() == 0;
    dfs_run(es, ne, nv, st, s)
}

/// The cycles found by exploring from every root in ascending node
/// order, skipping roots already visited.
pub open spec fn dfs_roots(
    es: Seq<(usize, usize)>,
    ne: int,
    nv: Seq<Seq<char>>,
    colors: Seq<u8>,
    found: Seq<Seq<usize>>,
    root: int,
    n: int,
) -> Seq<Seq<usize>>
    decreases n - root,
{
    if root >= n {
        found
    } else if colors[root] == 0 {
        let st = dfs_settled(
            es,
            ne,
            nv,
            DfsState {
                colors: colors.update(root, 1u8),
                path: seq![root as usize],
                iters: seq![0usize],
                found: found,
            },
        );
        dfs_roots(es, ne, nv, st.colors, st.found, root + 1, n)
    } else {
        dfs_roots(es, ne, nv, colors, found, root + 1, n)
    }
}

/// The exact cycle list the detector emits for a graph, by node index.
pub open spec fn spec_detected(g: DependencyGraph) -> Seq<Seq<usize>> {
    let n = g.spec_nodes().len() as int;
    dfs_roots(
        g.spec_edges(),
        g.spec_edges().len() as int,
        g.spec_nodes(),
        Seq::new(n as nat, |i: int| 0u8),
        Seq::empty(),
        0,
        n,
    )
}

impl DependencyGraph {
    /// Explores from one unvisited root until its stack empties,
    /// recording each discovered cycle once in canonical form; the
    /// color vector and cycle list evolve exactly as the model's
    /// settled run from this root.
    #[verifier::loop_isolation(false)]
    #[verifier::rlimit(100)]
    fn explore_root(
        &self,
        colors: &mut Vec<u8>,
        found: &mut Vec<Vec<usize>>,
        root: usize,
        posn_in: Ghost<Seq<int>>,
        nextpos_in: Ghost<int>,
    ) -> (gh: (Ghost<Seq<int>>, Ghost<int>))
        requires
            self.wf(),
            (root as int) < self.spec_nodes().len(),
            old(colors)@.len() == self.spec_nodes().len(),
            old(colors)@[root as int] == 0,
            forall|v: int| 0 <= v < old(colors)@.len() ==> #[trigger] old(colors)@[v] != 1,
            forall|v: int| 0 <= v < old(colors)@.len() ==> #[trigger] old(colors)@[v] <= 2,
            posn_in@.len() == self.spec_nodes().len(),
            forall|v: int|
                0 <= v < old(colors)@.len() ==> ((#[trigger] old(colors)@[v] == 2) <==> posn_in@[v]
                    >= 0),
            nextpos_in@ >= 0,
            forall|v: int| 0 <= v < old(colors)@.len() ==> #[trigger] posn_in@[v] < nextpos_in@,
            old(found)@.len() > 0 || forall|k: int|
                0 <= k < self.spec_edges().len() ==> #[trigger] edge_finished_ok(
                    self.spec_edges(),
                    old(colors)@,
                    posn_in@,
                    k,
                ),
            forall|v: usize|
                #![trigger pair_in(self.spec_edges(), v, v)]
                (v as int) < self.spec_nodes().len() && old(colors)@[v as int] == 2 && pair_in(
                    self.spec_edges(),
                    v,
                    v,
                ) ==> lists_cycle(old(found)@, seq![v]),
            forall|fc: int|
                0 <= fc < old(found)@.len() ==> cycle_edges_ok(
                    *self,
                    (#[trigger] old(found)@[fc])@,
                ) && canonical_idx(*self, old(found)@[fc]@),
            forall|fa: int, fb: int|
                0 <= fa < fb < old(found)@.len() ==> old(found)@[fa]@ != old(found)@[fb]@,
        ensures
            final(colors)@.len() == self.spec_nodes().len(),
            forall|v: int| 0 <= v < final(colors)@.len() ==> #[trigger] final(colors)@[v] != 1,
            forall|v: int| 0 <= v < final(colors)@.len() ==> #[trigger] final(colors)@[v] <= 2,
            forall|v: int|
                0 <= v < final(colors)@.len() && old(colors)@[v] == 2
                    ==> #[trigger] final(colors)@[v] == 2,
            final(colors)@[root as int] == 2,
            gh.0@.len() == self.spec_nodes().len(),
            forall|v: int|
                0 <= v < final(colors)@.len() ==> ((#[trigger] final(colors)@[v] == 2) <==> gh.0@[v]
                    >= 0),
            gh.1@ >= 0,
            forall|v: int| 0 <= v < final(colors)@.len() ==> #[trigger] gh.0@[v] < gh.1@,
            final(found)@.len() > 0 || forall|k: int|
                0 <= k < self.spec_edges().len() ==> #[trigger] edge_finished_ok(
                    self.spec_edges(),
                    final(colors)@,
                    gh.0@,
                    k,
                ),
            forall|v: usize|
                #![trigger pair_in(self.spec_edges(), v, v)]
                (v as int) < self.spec_nodes().len() && final(colors)@[v as int] == 2 && pair_in(
                    self.spec_edges(),
                    v,
                    v,
                ) ==> lists_cycle(final(found)@, seq![v]),
            forall|fc: int|
                0 <= fc < final(found)@.len() ==> cycle_edges_ok(
                    *self,
                    (#[trigger] final(found)@[fc])@,
                ) && canonical_idx(*self, final(found)@[fc]@),
            forall|fa: int, fb: int|
                0 <= fa < fb < final(found)@.len() ==> final(found)@[fa]@ != final(found)@[fb]@,
            ({
                let st = dfs_settled(
                    self.spec_edges(),
                    self.spec_edges().len() as int,
                    self.spec_nodes(),
                    DfsState {
                        colors: old(colors)@.update(root as int, 1u8),
                        path: seq![root],
                        iters: seq![0usize],
                        found: found_views(old(found)@),
                    },
                );
                final(colors)@ == st.colors && found_views(final(found)@) == st.found
            }),
    {
        let n: usize = self.nodes.len();
        let ne: usize = self.edges.len();
        let ghost es: Seq<(usize, usize)> = self.spec_edges();
        let ghost gnv: Seq<Seq<char>> = self.spec_nodes();
        let ghost mut posn: Seq<int> = posn_in@;
        let ghost mut nextpos: int = nextpos_in@;
                let mut path: Vec<usize> = Vec::new();
                let mut iters: Vec<usize> = Vec::new();
                path.push(root);
                iters.push(0);
                let ghost cr = colors@;
                let ghost fentry = found_views(found@);
                colors.set(root, 1);
                proof {
                    assert forall|v: int|
                        0 <= v < n && #[trigger] colors@[v] == 1 implies exists|i: int|
                        0 <= i < path@.len() && path@[i] == v by {
                        assert(v == root as int);
                        assert(path@[0] == root);
                    }
                    if found@.len() == 0 {
                        assert forall|k: int|
                            0 <= k < ne implies #[trigger] edge_finished_ok(
                            es,
                            colors@,
                            posn,
                            k,
                        ) by {
                            assert(edge_finished_ok(es, cr, posn, k));
                            if colors@[es[k].0 as int] == 2 {
                                assert(es[k].0 != root);
                                assert(cr[es[k].1 as int] == 2);
                                assert(es[k].1 != root);
                            }
                        }
                    }
                }
                let ghost st_in = DfsState {
                    colors: colors@,
                    path: path@,
                    iters: iters@,
                    found: found_views(found@),
                };
                let ghost mut steps: int = 0;
                proof {
                    assert(dfs_run(es, ne as int, gnv, st_in, 0) == st_in);
                }
                while path.len() > 0
                    invariant
                        steps >= 0,
                        (DfsState {
                            colors: colors@,
                            path: path@,
                            iters: iters@,
                            found: found_views(found@),
                        }) == dfs_run(es, ne as int, gnv, st_in, steps),
                        path@.len() == iters@.len(),
                        colors@.len() == n,
                        posn.len() == n,
                        forall|i: int|
                            0 <= i < path@.len() ==> (#[trigger] path@[i] as int) < n
                                && colors@[path@[i] as int] == 1,
                        forall|i: int|
                            0 <= i < path@.len() - 1 ==> pair_in(
                                self.spec_edges(),
                                #[trigger] path@[i],
                                path@[i + 1],
                            ),
                        forall|i: int, j: int| 0 <= i < j < path@.len() ==> path@[i] != path@[j],
                        forall|i: int| 0 <= i < iters@.len() ==> #[trigger] iters@[i] <= ne,
                        forall|v: int| 0 <= v < n ==> #[trigger] colors@[v] <= 2,
                        forall|v: int|
                            0 <= v < n && cr[v] == 2 ==> #[trigger] colors@[v] == 2,
                        colors@[root as int] != 0,
                        forall|v: int|
                            0 <= v < n && #[trigger] colors@[v] == 1 ==> exists|i: int|
                                0 <= i < path@.len() && path@[i] == v,
                        forall|v: int| 0 <= v < n ==> ((#[trigger] colors@[v] == 2) <==> posn[v]
                            >= 0),
                        nextpos >= 0,
                        forall|v: int| 0 <= v < n ==> #[trigger] posn[v] < nextpos,
                        found@.len() > 0 || forall|k: int|
                            0 <= k < ne ==> #[trigger] edge_finished_ok(es, colors@, posn, k),
                        found@.len() > 0 || forall|i: int, k: int|
                            0 <= i < path@.len() && 0 <= k < ne ==> #[trigger] scanned_edge_ok(
                                es,
                                colors@,
                                path@,
                                iters@,
                                i,
                                k,
                            ),
                        forall|i: int, k: int|
                            0 <= i < path@.len() && 0 <= k < ne ==> #[trigger] self_loop_listed(
                                es,
                                path@,
                                iters@,
                                found@,
                                i,
                                k,
                            ),
                        forall|v: usize|
                            #![trigger pair_in(es, v, v)]
                            (v as int) < n && colors@[v as int] == 2 && pair_in(es, v, v)
                                ==> lists_cycle(found@, seq![v]),
                        forall|fc: int|
                            0 <= fc < found@.len() ==> cycle_edges_ok(*self, #[trigger] found@[fc]@)
                                && canonical_idx(*self, found@[fc]@),
                        forall|fa: int, fb: int|
                            0 <= fa < fb < found@.len() ==> found@[fa]@ != found@[fb]@,
                    decreases count_white(colors@), scan_slack(iters@, ne as int),
                {
                    let ghost scol = colors@;
                    let ghost spth = path@;
                    let ghost sits = iters@;
                    let ghost sfnd = found_views(found@);
                    proof {
                        lemma_count_white_nonneg(colors@);
                        lemma_scan_slack_nonneg(iters@, ne as int);
                    }
                    let u: usize = path[path.len() - 1];
                    let k: usize = iters[iters.len() - 1];
                    let mut j: usize = k;
                    while j < ne && self.edges[j].0 != u
                        invariant
                            k <= j <= ne,
                            forall|jj: int| k <= jj < j ==> (#[trigger] es[jj]).0 != u,
                            next_src_edge(es, ne as int, u, k as int) == next_src_edge(
                                es,
                                ne as int,
                                u,
                                j as int,
                            ),
                        decreases ne - j,
                    {
                        proof {
                            assert(es[j as int].0 != u);
                            assert(next_src_edge(es, ne as int, u, j as int) == next_src_edge(
                                es,
                                ne as int,
                                u,
                                j + 1,
                            ));
                        }
                        j = j + 1;
                    }
                    if j < ne {
                        let v: usize = self.edges[j].1;
                        let ghost t0 = iters@;
                        iters.set(iters.len() - 1, j + 1);
                        proof {
                            assert(es[j as int] == (u, v));
                            assert((v as int) < n);
                            // the scan budget strictly shrinks
                            assert(iters@.drop_last() =~= t0.drop_last());
                            assert(scan_slack(iters@, ne as int) == scan_slack(
                                t0.drop_last(),
                                ne as int,
                            ) + (ne + 1 - (j + 1)));
                            assert(scan_slack(t0, ne as int) == scan_slack(
                                t0.drop_last(),
                                ne as int,
                            ) + (ne + 1 - k));
                        }
                        let cv: u8 = colors[v];
                        if cv == 0 {
                            let ghost c0 = colors@;
                            let ghost p0 = path@;
                            path.push(v);
                            iters.push(0);
                            colors.set(v, 1);
                            proof {
                                lemma_count_white_update(c0, v as int, 1);
                                if found@.len() == 0 {
                                    assert forall|k2: int|
                                        0 <= k2 < ne implies #[trigger] edge_finished_ok(
                                        es,
                                        colors@,
                                        posn,
                                        k2,
                                    ) by {
                                        assert(edge_finished_ok(es, c0, posn, k2));
                                        if colors@[es[k2].0 as int] == 2 {
                                            assert(es[k2].0 != v);
                                            assert(c0[es[k2].1 as int] == 2);
                                            assert(es[k2].1 != v);
                                        }
                                    }
                                }
                                assert forall|w: int|
                                    0 <= w < n && #[trigger] colors@[w] == 1 implies exists|i: int|
                                    0 <= i < path@.len() && path@[i] == w by {
                                    if w == v as int {
                                        assert(path@[path@.len() - 1] == v);
                                    } else {
                                        let i = choose|i: int| 0 <= i < p0.len() && p0[i] == w;
                                        assert(path@[i] == w);
                                    }
                                }
                                assert forall|i: int, k2: int|
                                    0 <= i < path@.len() && 0 <= k2
                                        < ne implies #[trigger] self_loop_listed(
                                    es,
                                    path@,
                                    iters@,
                                    found@,
                                    i,
                                    k2,
                                ) by {
                                    if i < p0.len() {
                                        assert(self_loop_listed(es, p0, t0, found@, i, k2));
                                        if 0 <= k2 < iters@[i] && es[k2].0 == path@[i]
                                            && es[k2].1 == path@[i] {
                                            if i == p0.len() - 1 && k2 >= k {
                                                if k2 == j as int {
                                                    assert(es[k2].1 == v && es[k2].0 == u);
                                                    assert(colors@[v as int] == 1
                                                        && colors@[u as int] == 1);
                                                    assert(c0[v as int] == 0 && c0[u as int] == 1);
                                                    assert(false);
                                                } else {
                                                    assert((#[trigger] es[k2]).0 != u);
                                                }
                                            }
                                        }
                                    }
                                }
                                assert forall|w: usize|
                                    (w as int) < n && colors@[w as int] == 2 && pair_in(
                                        es,
                                        w,
                                        w,
                                    ) implies lists_cycle(found@, seq![w]) by {
                                    assert(c0[w as int] == 2);
                                    assert(lists_cycle(found@, seq![w]));
                                }
                                if found@.len() == 0 {
                                    assert forall|i: int, k2: int|
                                        0 <= i < path@.len() && 0 <= k2
                                            < ne implies #[trigger] scanned_edge_ok(
                                        es,
                                        colors@,
                                        path@,
                                        iters@,
                                        i,
                                        k2,
                                    ) by {
                                        if i < p0.len() - 1 {
                                            assert(scanned_edge_ok(es, c0, p0, t0, i, k2));
                                        } else if i == p0.len() - 1 {
                                            // the frame that just gained child v
                                            if 0 <= k2 < iters@[i] && es[k2].0 == path@[i] {
                                                if k2 < k {
                                                    assert(scanned_edge_ok(es, c0, p0, t0, i, k2));
                                                } else if k2 == j as int {
                                                    assert(path@[i + 1] == v);
                                                    assert(es[k2].1 == path@[i + 1]);
                                                } else {
                                                    assert((#[trigger] es[k2]).0 != u);
                                                }
                                            }
                                        }
                                    }
                                }
                                assert(DfsState {
                                    colors: colors@,
                                    path: path@,
                                    iters: iters@,
                                    found: found_views(found@),
                                } == dfs_step(
                                    es,
                                    ne as int,
                                    gnv,
                                    DfsState { colors: scol, path: spth, iters: sits, found: sfnd },
                                )) by {
                                    assert(spth[spth.len() - 1] == u);
                                    assert(sits[sits.len() - 1] == k);
                                    assert(next_src_edge(es, ne as int, u, k as int) == j as int);
                                    assert(scol[v as int] == 0);
                                    assert(c0 == scol);
                                    assert(colors@ == scol.update(v as int, 1u8));
                                    assert(path@ =~= spth.push(v));
                                    assert(iters@ =~= sits.update(
                                        sits.len() - 1,
                                        (j + 1) as usize,
                                    ).push(0usize));
                                    assert(found_views(found@) == sfnd);
                                }
                            }
                        } else if cv == 1 {
                            // the stack slice from v onward is a cycle
                            let plen: usize = path.len();
                            let mut pos: usize = 0;
                            while pos < plen && path[pos] != v
                                invariant
                                    pos <= plen,
                                    forall|p: int| 0 <= p < pos ==> #[trigger] path@[p] != v,
                                    first_pos(path@, v, 0) == first_pos(path@, v, pos as int),
                                decreases plen - pos,
                            {
                                proof {
                                    assert(first_pos(path@, v, pos as int) == first_pos(
                                        path@,
                                        v,
                                        pos + 1,
                                    ));
                                }
                                pos = pos + 1;
                            }
                            if pos < plen {
                                let mut cyc: Vec<usize> = Vec::new();
                                let mut q: usize = pos;
                                while q < plen
                                    invariant
                                        pos <= q <= plen,
                                        cyc@ =~= path@.subrange(pos as int, q as int),
                                    decreases plen - q,
                                {
                                    cyc.push(path[q]);
                                    proof {
                                        assert(cyc@ =~= path@.subrange(pos as int, q + 1));
                                    }
                                    q = q + 1;
                                }
                                proof {
                                    assert(cyc@ =~= path@.subrange(pos as int, plen as int));
                                    assert(cyc@.len() >= 1);
                                    assert(cyc@[0] == v);
                                    assert(cyc@[cyc@.len() - 1] == path@[plen - 1]);
                                    assert(path@[plen - 1] == u);
                                    assert(pair_in(self.spec_edges(), u, v));
                                    assert(cycle_edges_ok(*self, cyc@));
                                }
                                let rotm = canonical_rotation(&self.nodes, &cyc);
                                let rot = rotm.0;
                                proof {
                                    lemma_rotation_cycle_ok(*self, cyc@, rotm.1 as int);
                                    assert(cycle_edges_ok(*self, rot@));
                                    assert(canonical_idx(*self, rot@));
                                }
                                let ghost rotv: Seq<usize> = rot@;
                                let ghost oldfound = found@;
                                if !cycle_listed(&found, &rot) {
                                    found.push(rot);
                                }
                                proof {
                                    assert(found@.len() >= 1);
                                    assert forall|c2: Seq<usize>|
                                        lists_cycle(oldfound, c2) implies lists_cycle(
                                        found@,
                                        c2,
                                    ) by {
                                        let fc = choose|fc: int|
                                            0 <= fc < oldfound.len() && (#[trigger] oldfound[fc])@
                                                == c2;
                                        assert((found@[fc])@ == c2);
                                    }
                                    assert(lists_cycle(found@, rotv)) by {
                                        if found@.len() > oldfound.len() {
                                            assert((found@[found@.len() - 1])@ == rotv);
                                        } else {
                                            let fc = choose|fc: int|
                                                0 <= fc < oldfound.len() && (
                                                #[trigger] oldfound[fc])@ == rotv;
                                            assert((found@[fc])@ == rotv);
                                        }
                                    }
                                    if v == u {
                                        assert(path@[plen - 1] == u);
                                        if pos < plen - 1 {
                                            assert(path@[pos as int] == path@[plen - 1]);
                                            assert(false);
                                        }
                                        assert(pos == plen - 1);
                                        assert(cyc@ =~= seq![u]);
                                        assert((rotm.1 as int) == 0);
                                        assert(cyc@.skip(0) + cyc@.take(0) =~= cyc@);
                                        assert(rotv =~= seq![u]);
                                        assert(lists_cycle(found@, seq![u]));
                                    }
                                    assert forall|i: int, k2: int|
                                        0 <= i < path@.len() && 0 <= k2
                                            < ne implies #[trigger] self_loop_listed(
                                        es,
                                        path@,
                                        iters@,
                                        found@,
                                        i,
                                        k2,
                                    ) by {
                                        assert(self_loop_listed(es, path@, t0, oldfound, i, k2));
                                        if 0 <= k2 < iters@[i] && es[k2].0 == path@[i] && es[k2].1
                                            == path@[i] {
                                            if i == path@.len() - 1 && k2 >= k {
                                                if k2 == j as int {
                                                    assert(es[k2].1 == v && es[k2].0 == u);
                                                    assert(v == u);
                                                    assert(lists_cycle(found@, seq![u]));
                                                } else {
                                                    assert((#[trigger] es[k2]).0 != u);
                                                }
                                            } else {
                                                assert(lists_cycle(oldfound, seq![path@[i]]));
                                            }
                                        }
                                    }
                                    assert forall|w: usize|
                                        (w as int) < n && colors@[w as int] == 2 && pair_in(
                                            es,
                                            w,
                                            w,
                                        ) implies lists_cycle(found@, seq![w]) by {
                                        assert(lists_cycle(oldfound, seq![w]));
                                    }
                                    assert(DfsState {
                                        colors: colors@,
                                        path: path@,
                                        iters: iters@,
                                        found: found_views(found@),
                                    } == dfs_step(
                                        es,
                                        ne as int,
                                        gnv,
                                        DfsState {
                                            colors: scol,
                                            path: spth,
                                            iters: sits,
                                            found: sfnd,
                                        },
                                    )) by {
                                        assert(spth[spth.len() - 1] == u);
                                        assert(sits[sits.len() - 1] == k);
                                        assert(next_src_edge(es, ne as int, u, k as int) == j as int);
                                        assert(scol[v as int] == 1);
                                        assert(path@ == spth);
                                        assert(colors@ == scol);
                                        assert(first_pos(spth, v, 0) == pos as int);
                                        assert(cyc@ == spth.subrange(pos as int, spth.len() as int));
                                        assert(gnv == id_views(self.nodes@));
                                        assert(rotm.1 as int == min_id_idx(gnv, cyc@, 1, 0));
                                        assert(rotv == cyc@.skip(rotm.1 as int) + cyc@.take(
                                            rotm.1 as int,
                                        ));
                                        assert(sfnd == found_views(oldfound));
                                        assert(dfs_listed(sfnd, rotv) <==> (exists|i: int|
                                            0 <= i < oldfound.len() && (#[trigger] oldfound[i])@
                                                == rotv)) by {
                                            if dfs_listed(sfnd, rotv) {
                                                let i = choose|i: int|
                                                    0 <= i < sfnd.len() && #[trigger] sfnd[i] == rotv;
                                                assert(oldfound[i]@ == rotv);
                                            }
                                            if exists|i: int|
                                                0 <= i < oldfound.len() && (#[trigger] oldfound[i])@
                                                    == rotv {
                                                let i = choose|i: int|
                                                    0 <= i < oldfound.len() && (#[trigger] oldfound[i])@
                                                        == rotv;
                                                assert(sfnd[i] == rotv);
                                            }
                                        }
                                        if found@.len() > oldfound.len() {
                                            assert(!dfs_listed(sfnd, rotv));
                                            assert(found_views(found@) =~= sfnd.push(rotv));
                                        } else {
                                            assert(dfs_listed(sfnd, rotv));
                                            assert(found_views(found@) == sfnd);
                                        }
                                        assert(iters@ =~= sits.update(
                                            sits.len() - 1,
                                            (j + 1) as usize,
                                        ));
                                    }
                                }
                            } else {
                                proof {
                                    // v is gray, so it is on the stack and
                                    // the scan above cannot have missed it
                                    let i = choose|i: int|
                                        0 <= i < path@.len() && path@[i] == v;
                                    assert(path@[i] != v);
                                    assert(false);
                                }
                            }
                        } else {
                            proof {
                                if found@.len() == 0 {
                                    assert forall|i: int, k2: int|
                                        0 <= i < path@.len() && 0 <= k2
                                            < ne implies #[trigger] scanned_edge_ok(
                                        es,
                                        colors@,
                                        path@,
                                        iters@,
                                        i,
                                        k2,
                                    ) by {
                                        if i < path@.len() - 1 {
                                            assert(scanned_edge_ok(es, colors@, path@, t0, i, k2));
                                        } else if 0 <= k2 < iters@[i] && es[k2].0 == path@[i] {
                                            if k2 < k {
                                                assert(scanned_edge_ok(
                                                    es,
                                                    colors@,
                                                    path@,
                                                    t0,
                                                    i,
                                                    k2,
                                                ));
                                            } else if k2 == j as int {
                                                assert(colors@[es[k2].1 as int] == 2);
                                            } else {
                                                assert((#[trigger] es[k2]).0 != u);
                                            }
                                        }
                                    }
                                }
                                assert forall|i: int, k2: int|
                                    0 <= i < path@.len() && 0 <= k2
                                        < ne implies #[trigger] self_loop_listed(
                                    es,
                                    path@,
                                    iters@,
                                    found@,
                                    i,
                                    k2,
                                ) by {
                                    assert(self_loop_listed(es, path@, t0, found@, i, k2));
                                    if 0 <= k2 < iters@[i] && es[k2].0 == path@[i] && es[k2].1
                                        == path@[i] {
                                        if i == path@.len() - 1 && k2 >= k {
                                            if k2 == j as int {
                                                assert(es[k2].1 == v && colors@[v as int] == 2);
                                                assert(colors@[u as int] == 1);
                                                assert(false);
                                            } else {
                                                assert((#[trigger] es[k2]).0 != u);
                                            }
                                        }
                                    }
                                }
                                assert(DfsState {
                                    colors: colors@,
                                    path: path@,
                                    iters: iters@,
                                    found: found_views(found@),
                                } == dfs_step(
                                    es,
                                    ne as int,
                                    gnv,
                                    DfsState { colors: scol, path: spth, iters: sits, found: sfnd },
                                )) by {
                                    assert(spth[spth.len() - 1] == u);
                                    assert(sits[sits.len() - 1] == k);
                                    assert(next_src_edge(es, ne as int, u, k as int) == j as int);
                                    assert(scol[v as int] != 0 && scol[v as int] != 1);
                                    assert(colors@ == scol);
                                    assert(path@ == spth);
                                    assert(found_views(found@) == sfnd);
                                    assert(iters@ =~= sits.update(
                                        sits.len() - 1,
                                        (j + 1) as usize,
                                    ));
                                }
                            }
                        }
                    } else {
                        // u's edges are exhausted: finish u
                        let ghost c0 = colors@;
                        let ghost p0 = path@;
                        let ghost t0 = iters@;
                        proof {
                            if found@.len() == 0 {
                                assert forall|k2: int|
                                    0 <= k2 < ne && (#[trigger] es[k2]).0 == u implies colors@[es[k2].1 as int]
                                    == 2 by {
                                    let i = p0.len() - 1;
                                    if k2 < t0[i] {
                                        assert(scanned_edge_ok(es, c0, p0, t0, i, k2));
                                    } else {
                                        assert((#[trigger] es[k2]).0 != u);
                                    }
                                }
                            }
                        }
                        colors.set(u, 2);
                        path.pop();
                        iters.pop();
                        proof {
                            lemma_count_white_update(c0, u as int, 2);
                            assert(path@ =~= p0.drop_last());
                            assert(iters@ =~= t0.drop_last());
                            assert(scan_slack(t0, ne as int) == scan_slack(iters@, ne as int) + (
                            ne + 1 - t0.last()));
                            let ghost q0 = posn;
                            posn = posn.update(u as int, nextpos);
                            nextpos = nextpos + 1;
                            assert forall|w: int|
                                0 <= w < n && #[trigger] colors@[w] == 1 implies exists|i: int|
                                0 <= i < path@.len() && path@[i] == w by {
                                let i = choose|i: int| 0 <= i < p0.len() && p0[i] == w;
                                assert(w != u as int);
                                assert(i < p0.len() - 1);
                                assert(path@[i] == w);
                            }
                            if found@.len() == 0 {
                                assert forall|k2: int|
                                    0 <= k2 < ne implies #[trigger] edge_finished_ok(
                                    es,
                                    colors@,
                                    posn,
                                    k2,
                                ) by {
                                    if colors@[es[k2].0 as int] == 2 {
                                        if es[k2].0 == u {
                                            assert(c0[es[k2].1 as int] == 2);
                                            assert(es[k2].1 != u);
                                            assert(posn[es[k2].1 as int] == q0[es[k2].1 as int]);
                                            assert(posn[es[k2].1 as int] < nextpos - 1);
                                            assert(posn[es[k2].0 as int] == nextpos - 1);
                                        } else {
                                            assert(c0[es[k2].0 as int] == 2);
                                            assert(edge_finished_ok(es, c0, q0, k2));
                                            assert(c0[es[k2].1 as int] == 2);
                                            assert(es[k2].1 != u);
                                            assert(posn[es[k2].1 as int] == q0[es[k2].1 as int]);
                                            assert(posn[es[k2].0 as int] == q0[es[k2].0 as int]);
                                        }
                                    }
                                }
                            }
                            if found@.len() == 0 {
                                assert forall|i: int, k2: int|
                                    0 <= i < path@.len() && 0 <= k2
                                        < ne implies #[trigger] scanned_edge_ok(
                                    es,
                                    colors@,
                                    path@,
                                    iters@,
                                    i,
                                    k2,
                                ) by {
                                    assert(scanned_edge_ok(es, c0, p0, t0, i, k2));
                                    if 0 <= k2 < iters@[i] && es[k2].0 == path@[i] {
                                        if i + 1 < p0.len() && es[k2].1 == p0[i + 1] {
                                            if i + 1 == p0.len() - 1 {
                                                assert(colors@[es[k2].1 as int] == 2);
                                            }
                                        }
                                    }
                                }
                            }
                            assert forall|i: int, k2: int|
                                0 <= i < path@.len() && 0 <= k2
                                    < ne implies #[trigger] self_loop_listed(
                                es,
                                path@,
                                iters@,
                                found@,
                                i,
                                k2,
                            ) by {
                                assert(self_loop_listed(es, p0, t0, found@, i, k2));
                            }
                            assert forall|w: usize|
                                (w as int) < n && colors@[w as int] == 2 && pair_in(
                                    es,
                                    w,
                                    w,
                                ) implies lists_cycle(found@, seq![w]) by {
                                if (w as int) == u as int {
                                    let k3 = choose|k3: int|
                                        0 <= k3 < es.len() && es[k3].0 == w && es[k3].1 == w;
                                    if k3 >= k {
                                        assert((#[trigger] es[k3]).0 != u);
                                        assert(false);
                                    }
                                    assert(self_loop_listed(
                                        es,
                                        p0,
                                        t0,
                                        found@,
                                        p0.len() - 1,
                                        k3,
                                    ));
                                    assert(p0[p0.len() - 1] == u);
                                    assert(t0[p0.len() - 1] == k);
                                    assert(lists_cycle(found@, seq![u as usize]));
                                } else {
                                    assert(c0[w as int] == 2);
                                }
                            }
                            assert(DfsState {
                                colors: colors@,
                                path: path@,
                                iters: iters@,
                                found: found_views(found@),
                            } == dfs_step(
                                es,
                                ne as int,
                                gnv,
                                DfsState { colors: scol, path: spth, iters: sits, found: sfnd },
                            )) by {
                                assert(spth[spth.len() - 1] == u);
                                assert(sits[sits.len() - 1] == k);
                                assert(next_src_edge(es, ne as int, u, k as int) == ne as int);
                                assert(c0 == scol);
                                assert(colors@ == scol.update(u as int, 2u8));
                                assert(path@ =~= spth.drop_last());
                                assert(iters@ =~= sits.drop_last());
                                assert(found_views(found@) == sfnd);
                            }
                        }
                    }
                    proof {
                        lemma_count_white_nonneg(colors@);
                        lemma_scan_slack_nonneg(iters@, ne as int);
                        assert(DfsState { colors: scol, path: spth, iters: sits, found: sfnd }
                            == dfs_run(es, ne as int, gnv, st_in, steps));
                        assert(spth.len() > 0);
                        lemma_dfs_run_peel(es, ne as int, gnv, st_in, steps);
                        steps = steps + 1;
                    }
                }
                proof {
                    assert(DfsState {
                        colors: colors@,
                        path: path@,
                        iters: iters@,
                        found: found_views(found@),
                    } == dfs_run(es, ne as int, gnv, st_in, steps));
                    assert(dfs_run(es, ne as int, gnv, st_in, steps).path.len() == 0);
                    let s0 = choose|s0: int|
                        s0 >= 0 && dfs_run(es, ne as int, gnv, st_in, s0).path.len() == 0;
                    assert(s0 >= 0 && dfs_run(es, ne as int, gnv, st_in, s0).path.len() == 0);
                    if s0 <= steps {
                        lemma_dfs_run_stable(es, ne as int, gnv, st_in, s0, steps);
                    } else {
                        lemma_dfs_run_stable(es, ne as int, gnv, st_in, steps, s0);
                    }
                    assert(dfs_settled(es, ne as int, gnv, st_in) == dfs_run(
                        es,
                        ne as int,
                        gnv,
                        st_in,
                        steps,
                    ));
                    assert(st_in.path =~= seq![root as usize]);
                    assert(st_in.iters =~= seq![0usize]);
                    assert(st_in == DfsState {
                        colors: cr.update(root as int, 1u8),
                        path: seq![root as usize],
                        iters: seq![0usize],
                        found: fentry,
                    });
                    assert(colors@[root as int] == 2);
                }
        (Ghost(posn), Ghost(nextpos))
    }

    /// Detects dependency cycles by a depth-first traversal from every
    /// node in ascending identifier order, maintaining an explicit
    /// recursion stack; when traversal reaches a node on the stack, the
    /// stack slice from that node onward is a cycle. Each reported cycle
    /// is rotated to start at its lexicographically smallest identifier
    /// and reported once: every entry of the result is a closed walk of
    /// pairwise distinct modules, no entry repeats another, and the
    /// result is empty only on a graph without cycles: whenever any
    /// cycle exists (a self-loop included), at least one is reported.
    #[verifier::loop_isolation(false)]
    #[verifier::rlimit(100)]
    pub fn detect_cycles(&self) -> (r: Vec<Vec<String>>)
        requires
            self.wf(),
        ensures
            forall|ci: int|
                0 <= ci < r@.len() ==> cycle_ok(*self, id_views(#[trigger] r@[ci]@))
                    && canonical_cycle(id_views(r@[ci]@)),
            forall|ci: int, cj: int|
                0 <= ci < cj < r@.len() ==> id_views(r@[ci]@) != id_views(r@[cj]@),
            forall|c: Seq<usize>| cycle_edges_ok(*self, c) ==> r@.len() >= 1,
            forall|v: usize|
                #![trigger pair_in(self.spec_edges(), v, v)]
                (v as int) < self.spec_nodes().len() && pair_in(self.spec_edges(), v, v)
                    ==> lists_id_cycle(r@, self.spec_nodes()[v as int]),
            r@.len() == spec_detected(*self).len(),
            forall|ci: int|
                0 <= ci < r@.len() ==> id_views(#[trigger] r@[ci]@) == ids_of_idx(
                    *self,
                    spec_detected(*self)[ci],
                ),
    {
        let n: usize = self.nodes.len();
        let ne: usize = self.edges.len();
        let ghost es: Seq<(usize, usize)> = self.spec_edges();
        let ghost gnv: Seq<Seq<char>> = self.spec_nodes();
        let ghost total: Seq<Seq<usize>> = spec_detected(*self);
        let mut colors: Vec<u8> = Vec::new();
        let mut z: usize = 0;
        while z < n
            invariant
                z <= n,
                colors@.len() == z,
                forall|v: int| 0 <= v < z ==> #[trigger] colors@[v] == 0,
            decreases n - z,
        {
            colors.push(0);
            z = z + 1;
        }
        // ghost finishing order: position of each finished node
        let ghost mut posn: Seq<int> = Seq::new(n as nat, |i: int| -1);
        let ghost mut nextpos: int = 0;
        let mut found: Vec<Vec<usize>> = Vec::new();
        proof {
            assert(colors@ =~= Seq::new(n as nat, |i: int| 0u8));
            assert(found_views(found@) =~= Seq::<Seq<usize>>::empty());
            assert(total == dfs_roots(
                es,
                ne as int,
                gnv,
                colors@,
                found_views(found@),
                0,
                n as int,
            ));
        }
        let mut root: usize = 0;
        while root < n
            invariant
                root <= n,
                dfs_roots(es, ne as int, gnv, colors@, found_views(found@), root as int, n as int)
                    == total,
                colors@.len() == n,
                posn.len() == n,
                forall|v: int| 0 <= v < n ==> #[trigger] colors@[v] != 1,
                forall|v: int| 0 <= v < n ==> #[trigger] colors@[v] <= 2,
                forall|v: int| 0 <= v < root ==> #[trigger] colors@[v] == 2,
                forall|v: int| 0 <= v < n ==> ((#[trigger] colors@[v] == 2) <==> posn[v] >= 0),
                nextpos >= 0,
                forall|v: int| 0 <= v < n ==> #[trigger] posn[v] < nextpos,
                found@.len() > 0 || forall|k: int|
                    0 <= k < ne ==> #[trigger] edge_finished_ok(es, colors@, posn, k),
                forall|v: usize|
                    #![trigger pair_in(es, v, v)]
                    (v as int) < n && colors@[v as int] == 2 && pair_in(es, v, v) ==> lists_cycle(
                        found@,
                        seq![v],
                    ),
                forall|fc: int|
                    0 <= fc < found@.len() ==> cycle_edges_ok(*self, #[trigger] found@[fc]@)
                        && canonical_idx(*self, found@[fc]@),
                forall|fa: int, fb: int|
                    0 <= fa < fb < found@.len() ==> found@[fa]@ != found@[fb]@,
            decreases n - root,
        {
            if colors[root] == 0 {
                let ghost pc = colors@;
                let ghost pf = found_views(found@);
                let gh = self.explore_root(
                    &mut colors,
                    &mut found,
                    root,
                    Ghost(posn),
                    Ghost(nextpos),
                );
                proof {
                    posn = gh.0@;
                    nextpos = gh.1@;
                    let st = dfs_settled(
                        es,
                        ne as int,
                        gnv,
                        DfsState {
                            colors: pc.update(root as int, 1u8),
                            path: seq![root],
                            iters: seq![0usize],
                            found: pf,
                        },
                    );
                    assert(colors@ == st.colors && found_views(found@) == st.found);
                    assert(pc[root as int] == 0);
                    assert(dfs_roots(es, ne as int, gnv, pc, pf, root as int, n as int)
                        == dfs_roots(
                        es,
                        ne as int,
                        gnv,
                        colors@,
                        found_views(found@),
                        root + 1,
                        n as int,
                    ));
                }
            } else {
                proof {
                    assert(colors@[root as int] != 0);
                    assert(dfs_roots(
                        es,
                        ne as int,
                        gnv,
                        colors@,
                        found_views(found@),
                        root as int,
                        n as int,
                    ) == dfs_roots(
                        es,
                        ne as int,
                        gnv,
                        colors@,
                        found_views(found@),
                        root + 1,
                        n as int,
                    ));
                }
            }
            root = root + 1;
        }
        proof {
            assert(root == n);
            assert(dfs_roots(
                es,
                ne as int,
                gnv,
                colors@,
                found_views(found@),
                n as int,
                n as int,
            ) == found_views(found@));
            assert(found_views(found@) == total);
        }
        proof {
            if found@.len() == 0 {
                assert forall|k: int|
                    0 <= k < ne implies posn[(#[trigger] es[k]).1 as int] < posn[es[k].0 as int] by {
                    assert(edge_finished_ok(es, colors@, posn, k));
                    assert(colors@[es[k].0 as int] == 2);
                }
            }
        }
        // present each cycle as its module identifiers
        let mut result: Vec<Vec<String>> = Vec::new();
        let nfound: usize = found.len();
        let mut fc: usize = 0;
        while fc < nfound
            invariant
                fc <= nfound,
                nfound == found@.len(),
                result@.len() == fc,
                forall|x: int|
                    0 <= x < fc ==> id_views(#[trigger] result@[x]@) == ids_of_idx(
                        *self,
                        found@[x]@,
                    ),
                forall|fcx: int|
                    0 <= fcx < found@.len() ==> cycle_edges_ok(*self, #[trigger] found@[fcx]@)
                        && canonical_idx(*self, found@[fcx]@),
                forall|fa: int, fb: int|
                    0 <= fa < fb < found@.len() ==> found@[fa]@ != found@[fb]@,
            decreases nfound - fc,
        {
            let c: &Vec<usize> = &found[fc];
            let clen: usize = c.len();
            let mut names: Vec<String> = Vec::new();
            let mut q: usize = 0;
            while q < clen
                invariant
                    q <= clen,
                    clen == c@.len(),
                    names@.len() == q,
                    c@ == found@[fc as int]@,
                    forall|i: int| 0 <= i < c@.len() ==> (c@[i] as int) < n,
                    forall|p: int|
                        0 <= p < q ==> (#[trigger] names@[p])@ == self.spec_nodes()[c@[p] as int],
                decreases clen - q,
            {
                names.push(self.nodes[c[q]].clone());
                q = q + 1;
            }
            proof {
                assert(id_views(names@) =~= ids_of_idx(*self, found@[fc as int]@));
            }
            result.push(names);
            fc = fc + 1;
        }
        proof {
            assert forall|ci: int|
                0 <= ci < result@.len() implies cycle_ok(*self, id_views(#[trigger] result@[ci]@))
                && canonical_cycle(id_views(result@[ci]@)) by {
                lemma_idx_cycle_to_ids(*self, found@[ci]@);
            }
            assert forall|ci: int, cj: int|
                0 <= ci < cj < result@.len() implies id_views(result@[ci]@) != id_views(
                result@[cj]@,
            ) by {
                lemma_ids_of_idx_injective(*self, found@[ci]@, found@[cj]@);
            }
            assert forall|c: Seq<usize>|
                cycle_edges_ok(*self, c) implies result@.len() >= 1 by {
                if found@.len() == 0 {
                    lemma_descent_blocks_cycle(*self, posn, c);
                }
            }
            assert(result@.len() == spec_detected(*self).len());
            assert forall|ci: int|
                0 <= ci < result@.len() implies id_views(#[trigger] result@[ci]@) == ids_of_idx(
                *self,
                spec_detected(*self)[ci],
            ) by {
                assert(id_views(result@[ci]@) == ids_of_idx(*self, found@[ci]@));
                assert(found_views(found@)[ci] == found@[ci]@);
                assert(spec_detected(*self)[ci] == found@[ci]@);
            }
            assert forall|v: usize|
                (v as int) < self.spec_nodes().len() && #[trigger] pair_in(
                    self.spec_edges(),
                    v,
                    v,
                ) implies lists_id_cycle(result@, self.spec_nodes()[v as int]) by {
                assert(pair_in(es, v, v));
                assert(colors@[v as int] == 2);
                assert(lists_cycle(found@, seq![v]));
                let fc = choose|fc: int|
                    0 <= fc < found@.len() && (#[trigger] found@[fc])@ == seq![v];
                assert(id_views(result@[fc]@) == ids_of_idx(*self, found@[fc]@));
                assert(ids_of_idx(*self, seq![v]) =~= seq![self.spec_nodes()[v as int]]);
            }
        }
        result
    }
}

/// Strictly sorted identifier sequences with the same members are equal.
pub proof fn lemma_sorted_unique_ids(a: Seq<Seq<char>>, b: Seq<Seq<char>>)
    requires
        sorted_ids(a),
        sorted_ids(b),
        forall|x: Seq<char>| id_in(a, x) <==> id_in(b, x),
    ensures
        a == b,
    decreases a.len(),
{
    if a.len() == 0 {
        if b.len() > 0 {
            assert(id_in(b, b[0]));
            assert(id_in(a, b[0]));
        }
        assert(a =~= b);
    } else {
        assert(id_in(a, a[0]));
        assert(id_in(b, a[0]));
        let j = choose|j: int| 0 <= j < b.len() && b[j] == a[0];
        assert(id_in(b, b[0]));
        assert(id_in(a, b[0]));
        let i = choose|i: int| 0 <= i < a.len() && a[i] == b[0];
        if j > 0 {
            assert(lex_lt(b[0], b[j]));
            if i > 0 {
                assert(lex_lt(a[0], a[i]));
                lemma_lex_asym(a[0], a[i]);
            } else {
                lemma_lex_irrefl(a[0]);
            }
        }
        assert(a[0] == b[0]);
        let at = a.skip(1);
        let bt = b.skip(1);
        assert forall|i2: int, j2: int| 0 <= i2 < j2 < at.len() implies lex_lt(
            at[i2],
            at[j2],
        ) by {
            assert(at[i2] == a[i2 + 1] && at[j2] == a[j2 + 1]);
        }
        assert forall|i2: int, j2: int| 0 <= i2 < j2 < bt.len() implies lex_lt(
            bt[i2],
            bt[j2],
        ) by {
            assert(bt[i2] == b[i2 + 1] && bt[j2] == b[j2 + 1]);
        }
        assert forall|x: Seq<char>| id_in(at, x) implies id_in(bt, x) by {
            let k = choose|k: int| 0 <= k < at.len() && at[k] == x;
            assert(a[k + 1] == x);
            assert(id_in(a, x));
            let l = choose|l: int| 0 <= l < b.len() && b[l] == x;
            assert(lex_lt(a[0], a[k + 1]));
            if l == 0 {
                lemma_lex_irrefl(a[0]);
            }
            assert(bt[l - 1] == x);
        }
        assert forall|x: Seq<char>| id_in(bt, x) implies id_in(at, x) by {
            let k = choose|k: int| 0 <= k < bt.len() && bt[k] == x;
            assert(b[k + 1] == x);
            assert(id_in(b, x));
            let l = choose|l: int| 0 <= l < a.len() && a[l] == x;
            assert(lex_lt(b[0], b[k + 1]));
            if l == 0 {
                lemma_lex_irrefl(b[0]);
            }
            assert(at[l - 1] == x);
        }
        lemma_sorted_unique_ids(at, bt);
        assert(a =~= b) by {
            assert(forall|k: int| 1 <= k < a.len() ==> a[k] == at[k - 1] && b[k] == bt[k - 1]);
        }
    }
}

/// Determinism of graph construction: two well-formed graphs whose
/// identifier sets agree have identical node lists. With the builder's
/// contract, the node list depends only on which module identifiers the
/// file set yields, never on the order the file system enumerated them.
pub proof fn lemma_node_list_deterministic(g1: DependencyGraph, g2: DependencyGraph)
    requires
        g1.wf(),
        g2.wf(),
        forall|x: Seq<char>| id_in(g1.spec_nodes(), x) <==> id_in(g2.spec_nodes(), x),
    ensures
        g1.spec_nodes() == g2.spec_nodes(),
{
    lemma_sorted_unique_ids(g1.spec_nodes(), g2.spec_nodes());
}

/// With fewer than two nodes a graph's density is exactly zero: the
/// quotient is never formed, so no division by zero can occur.
pub proof fn lemma_density_small_graph(n: int, e: int)
    requires
        n < 2,
    ensures
        density_spec(n, e) == 0,
{
}

/// Density is never more than one (in millionths, [`crate::SCALE`]).
pub proof fn lemma_density_bounded(n: int, e: int)
    requires
        0 <= n,
        0 <= e,
    ensures
        0 <= density_spec(n, e) <= crate::SCALE as int,
{
    if n >= 2 {
        assert(n * (n - 1) >= 2) by (nonlinear_arith)
            requires
                n >= 2,
        ;
        assert(e * (crate::SCALE as int) >= 0) by (nonlinear_arith)
            requires
                e >= 0,
        ;
        vstd::arithmetic::div_mod::lemma_div_pos_is_pos(e * (crate::SCALE as int), n * (n - 1));
    }
}

} // verus!
