//! Static code-analysis core: dependency-graph construction, cycle
//! detection, centrality ranking, and risk scoring over a project's
//! source files.
//!
//! Fractional quantities (graph density, centrality scores, risk scores)
//! are held as fixed-point integers in millionths: the constant [`SCALE`]
//! stands for 1.0. Rendering such a value as a decimal is a caller's
//! concern.

pub mod analysis;
pub mod centrality;
pub mod graph;
pub mod parser;
pub mod text;

use vstd::prelude::*;

verus! {

/// Fixed-point unit: this many millionths stand for 1.0.
pub const SCALE: u64 = 1_000_000;

/// Everything one analysis run produces: the graph, its metrics, the
/// detected cycles, the centrality ranking, the non-fatal diagnostics,
/// and the final risk report.
pub struct AnalysisRun {
    pub graph: graph::DependencyGraph,
    pub metrics: graph::GraphMetrics,
    pub cycles: Vec<Vec<String>>,
    pub centrality: centrality::CentralityResult,
    pub diagnostics: Vec<graph::Diagnostic>,
    pub report: analysis::RiskReport,
}

/// The analysis engine: sequences graph construction, cycle detection,
/// centrality ranking and risk scoring over an already-enumerated file
/// set. Reading directories and rendering reports are a caller's
/// concern.
pub struct DevForgeCore {
    parser: parser::CodeParser,
    analyzer: analysis::RiskAnalyzer,
}

impl DevForgeCore {
    /// The risk thresholds the engine's analyzer runs with.
    pub closed spec fn spec_thresholds(self) -> analysis::RiskThresholds {
        self.analyzer.spec_thresholds()
    }

    /// Creates an engine with the default thresholds.
    pub fn new() -> (r: DevForgeCore)
        ensures
            r.spec_thresholds().max_complexity == 50,
            r.spec_thresholds().max_coupling == 700_000,
            r.spec_thresholds().critical_threshold == 50_000_000,
    {
        DevForgeCore { parser: parser::CodeParser::new(), analyzer: analysis::RiskAnalyzer::new() }
    }

    /// The parser of the engine's front end.
    pub fn code_parser(&self) -> (r: &parser::CodeParser) {
        &self.parser
    }

    /// Runs the full pipeline over a file set: builds the dependency
    /// graph (failing on duplicate module identities), detects cycles,
    /// ranks centrality, and derives the risk report.
    pub fn analyze_project(&self, files: &Vec<parser::FileMetadata>) -> (r: Result<
        AnalysisRun,
        graph::AnalysisError,
    >)
        ensures
            r is Err <==> graph::has_dup_ids(files@),
            match r {
                Err(e) => match e {
                    graph::AnalysisError::DuplicateModule { module, first_path, second_path } => {
                        exists|i: int, j: int|
                            0 <= i < j < files@.len() && graph::ids_of(files@)[i] == graph::ids_of(
                                files@,
                            )[j] && module@ == graph::ids_of(files@)[j] && first_path@
                                == files@[i].path@ && second_path@ == files@[j].path@
                    },
                },
                Ok(run) => {
                    &&& run.graph.wf()
                    &&& run.graph.spec_nodes().len() == files@.len()
                    &&& forall|x: Seq<char>|
                        graph::id_in(run.graph.spec_nodes(), x) <==> graph::id_in(
                            graph::ids_of(files@),
                            x,
                        )
                    &&& forall|s: usize, t: usize|
                        #![trigger graph::pair_in(run.graph.spec_edges(), s, t)]
                        graph::pair_in(run.graph.spec_edges(), s, t) <==> ((s as int)
                            < run.graph.spec_nodes().len() && (t as int)
                            < run.graph.spec_nodes().len() && graph::ref_edge(
                            files@,
                            run.graph.spec_nodes(),
                            s,
                            t,
                        ))
                    &&& forall|k: int, rj: int|
                        #![trigger files@[k].spec_refs()[rj]]
                        0 <= k < files@.len() && 0 <= rj < files@[k].spec_refs().len() && !graph::id_in(
                            run.graph.spec_nodes(),
                            files@[k].spec_refs()[rj],
                        ) ==> graph::has_unres_diag(
                            run.diagnostics@,
                            graph::ids_of(files@)[k],
                            files@[k].spec_refs()[rj],
                        )
                    &&& run.metrics.node_count == run.graph.spec_nodes().len()
                    &&& run.metrics.edge_count == run.graph.spec_edges().len()
                    &&& run.metrics.cyclomatic_complexity as int == graph::total_complexity(files@)
                    &&& run.metrics.density as int == graph::density_spec(
                        run.metrics.node_count as int,
                        run.metrics.edge_count as int,
                    )
                    &&& forall|ci: int|
                        0 <= ci < run.cycles@.len() ==> graph::cycle_ok(
                            run.graph,
                            graph::id_views(#[trigger] run.cycles@[ci]@),
                        ) && graph::canonical_cycle(graph::id_views(run.cycles@[ci]@))
                    &&& forall|ci: int, cj: int|
                        0 <= ci < cj < run.cycles@.len() ==> graph::id_views(run.cycles@[ci]@)
                            != graph::id_views(run.cycles@[cj]@)
                    &&& forall|c: Seq<usize>|
                        graph::cycle_edges_ok(run.graph, c) ==> run.cycles@.len() >= 1
                    &&& forall|v: usize|
                        #![trigger graph::pair_in(run.graph.spec_edges(), v, v)]
                        (v as int) < run.graph.spec_nodes().len() && graph::pair_in(
                            run.graph.spec_edges(),
                            v,
                            v,
                        ) ==> graph::lists_id_cycle(
                            run.cycles@,
                            run.graph.spec_nodes()[v as int],
                        )
                    &&& run.cycles@.len() == graph::spec_detected(run.graph).len()
                    &&& forall|ci: int|
                        0 <= ci < run.cycles@.len() ==> graph::id_views(
                            #[trigger] run.cycles@[ci]@,
                        ) == graph::ids_of_idx(run.graph, graph::spec_detected(run.graph)[ci])
                    &&& run.centrality.scores@.len() == run.graph.spec_nodes().len()
                    &&& run.graph.spec_nodes().len() >= 1 ==> centrality::sum_scores(
                        run.centrality.scores@,
                    ) == SCALE as int
                    &&& forall|si: int|
                        0 <= si < run.centrality.scores@.len() ==> (#[trigger] run.centrality.scores@[si]).score
                            <= SCALE
                    &&& run.centrality.converged == centrality::spec_centrality(run.graph).1
                    &&& forall|q: int|
                        #![trigger run.graph.spec_nodes()[q]]
                        0 <= q < run.graph.spec_nodes().len() ==> centrality::scores_have_val(
                            run.centrality.scores@,
                            run.graph.spec_nodes()[q],
                            centrality::spec_centrality(run.graph).0[q],
                        )
                    &&& forall|di: int|
                        0 <= di < run.diagnostics@.len() ==> graph::diag_sound(
                            files@,
                            run.graph.spec_nodes(),
                            run.diagnostics@[di],
                        )
                    &&& run.report.overall_score as int == analysis::overall_score_spec(
                        run.metrics.cyclomatic_complexity as int,
                        run.metrics.density as int,
                        run.cycles@.len() as int,
                    )
                    &&& run.report.overall_score <= analysis::BASE_SCORE
                    &&& (run.report.is_critical <==> run.report.overall_score
                        < self.spec_thresholds().critical_threshold)
                    &&& graph::id_views(run.report.recommendations@) == analysis::recs_spec(
                        run.metrics.density > self.spec_thresholds().max_coupling,
                        run.metrics.cyclomatic_complexity > self.spec_thresholds().max_complexity,
                        analysis::cycles_views(run.cycles@),
                    )
                    &&& run.report.metrics.complexity == run.metrics.cyclomatic_complexity
                },
            },
    {
        let built = match graph::DependencyGraph::build_from_files(files) {
            Ok(b) => b,
            Err(e) => {
                return Err(e);
            },
        };
        let cycles = built.graph.detect_cycles();
        let centrality = built.graph.calculate_centrality();
        let report = self.analyzer.calculate_risks(&built.metrics, &cycles, &centrality);
        Ok(
            AnalysisRun {
                graph: built.graph,
                metrics: built.metrics,
                cycles,
                centrality,
                diagnostics: built.diagnostics,
                report,
            },
        )
    }
}

} // verus!
