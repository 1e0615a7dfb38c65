use devforge_core::analysis::RiskAnalyzer;
use devforge_core::centrality::CentralityResult;
use devforge_core::graph::{AnalysisError, DependencyGraph, Diagnostic, GraphMetrics};
use devforge_core::parser::FileMetadata;
use devforge_core::DevForgeCore;

fn file(path: &str, refs: &[&str]) -> FileMetadata {
    FileMetadata {
        path: path.to_string(),
        language: "python".to_string(),
        size_bytes: 100,
        loc: 10,
        complexity_hint: None,
        referenced_modules: refs.iter().map(|r| r.to_string()).collect(),
    }
}

#[test]
fn empty_project_scores_perfect() {
    let core = DevForgeCore::new();
    let run = core.analyze_project(&Vec::new()).unwrap();
    assert_eq!(run.metrics.node_count, 0);
    assert_eq!(run.metrics.edge_count, 0);
    assert_eq!(run.metrics.cyclomatic_complexity, 0);
    assert_eq!(run.metrics.density, 0);
    assert_eq!(run.report.overall_score, 100_000_000);
    assert!(!run.report.is_critical);
    assert!(run.report.recommendations.is_empty());
    assert!(run.cycles.is_empty());
    assert!(run.centrality.scores.is_empty());
    assert!(run.diagnostics.is_empty());
}

#[test]
fn single_node_density_is_zero() {
    let core = DevForgeCore::new();
    let run = core.analyze_project(&vec![file("a.py", &[])]).unwrap();
    assert_eq!(run.metrics.node_count, 1);
    assert_eq!(run.metrics.density, 0);
}

#[test]
fn density_is_edges_over_possible_edges() {
    let core = DevForgeCore::new();
    let files = vec![file("a.py", &["b", "c"]), file("b.py", &[]), file("c.py", &[])];
    let run = core.analyze_project(&files).unwrap();
    assert_eq!(run.metrics.node_count, 3);
    assert_eq!(run.metrics.edge_count, 2);
    // 2 / (3 * 2) in millionths, truncated
    assert_eq!(run.metrics.density, 333_333);
}

#[test]
fn three_file_cycle_is_reported_once() {
    let core = DevForgeCore::new();
    let files = vec![file("a.py", &["b"]), file("b.py", &["c"]), file("c.py", &["a"])];
    let run = core.analyze_project(&files).unwrap();
    assert_eq!(run.cycles.len(), 1);
    assert_eq!(run.cycles[0], vec!["a".to_string(), "b".to_string(), "c".to_string()]);
    let expected = "Resolve circular dependency involving a -> b -> c".to_string();
    assert!(run.report.recommendations.contains(&expected));
}

#[test]
fn self_loop_is_a_length_one_cycle() {
    let core = DevForgeCore::new();
    let run = core.analyze_project(&vec![file("a.py", &["a"])]).unwrap();
    assert_eq!(run.cycles.len(), 1);
    assert_eq!(run.cycles[0], vec!["a".to_string()]);
}

#[test]
fn unresolved_reference_yields_diagnostic_not_edge() {
    let core = DevForgeCore::new();
    let run = core.analyze_project(&vec![file("a.py", &["ghost"])]).unwrap();
    assert_eq!(run.metrics.node_count, 1);
    assert_eq!(run.metrics.edge_count, 0);
    assert_eq!(run.diagnostics.len(), 1);
    let Diagnostic::UnresolvedReference { module, reference } = &run.diagnostics[0];
    assert_eq!(module, "a");
    assert_eq!(reference, "ghost");
}

#[test]
fn duplicate_module_identity_fails_naming_both_paths() {
    let core = DevForgeCore::new();
    let files = vec![file("src/a.py", &[]), file("src\\a.js", &[])];
    let err = match core.analyze_project(&files) {
        Err(e) => e,
        Ok(_) => panic!("expected a duplicate-module error"),
    };
    let AnalysisError::DuplicateModule { module, first_path, second_path } = err;
    assert_eq!(module, "src/a");
    assert_eq!(first_path, "src/a.py");
    assert_eq!(second_path, "src\\a.js");
}

#[test]
fn pipeline_is_deterministic_across_runs() {
    let core = DevForgeCore::new();
    let files = vec![
        file("m/z.py", &["m/y", "m/x"]),
        file("m/y.py", &["m/x", "nowhere"]),
        file("m/x.py", &["m/z"]),
    ];
    let run1 = core.analyze_project(&files).unwrap();
    let run2 = core.analyze_project(&files).unwrap();
    assert_eq!(run1.report.overall_score, run2.report.overall_score);
    assert_eq!(run1.report.is_critical, run2.report.is_critical);
    assert_eq!(run1.report.recommendations, run2.report.recommendations);
    assert_eq!(run1.report.metrics.complexity, run2.report.metrics.complexity);
    assert_eq!(run1.report.metrics.maintainability, run2.report.metrics.maintainability);
    assert_eq!(run1.cycles, run2.cycles);
    assert_eq!(run1.centrality.scores.len(), run2.centrality.scores.len());
    for (a, b) in run1.centrality.scores.iter().zip(run2.centrality.scores.iter()) {
        assert_eq!(a.node, b.node);
        assert_eq!(a.score, b.score);
    }
}

#[test]
fn nodes_are_sorted_regardless_of_input_order() {
    let core = DevForgeCore::new();
    let files = vec![file("b.py", &[]), file("a.py", &[]), file("c.py", &[])];
    let run = core.analyze_project(&files).unwrap();
    let ids = run.graph.node_ids();
    assert_eq!(ids, &vec!["a".to_string(), "b".to_string(), "c".to_string()]);
}

fn centrality_mass(result: &CentralityResult) -> u64 {
    result.scores.iter().map(|s| s.score).sum()
}

#[test]
fn centrality_mass_totals_one_on_a_cycle() {
    let core = DevForgeCore::new();
    let files = vec![file("a.py", &["b"]), file("b.py", &["c"]), file("c.py", &["a"])];
    let run = core.analyze_project(&files).unwrap();
    assert_eq!(run.centrality.scores.len(), 3);
    assert_eq!(centrality_mass(&run.centrality), 1_000_000);
}

#[test]
fn centrality_mass_totals_one_with_dangling_node() {
    let core = DevForgeCore::new();
    let files = vec![file("a.py", &["b"]), file("b.py", &[])];
    let run = core.analyze_project(&files).unwrap();
    assert_eq!(centrality_mass(&run.centrality), 1_000_000);
}

#[test]
fn centrality_ranks_hub_first() {
    let core = DevForgeCore::new();
    let files = vec![file("b.py", &["c"]), file("a.py", &["c"]), file("c.py", &[])];
    let run = core.analyze_project(&files).unwrap();
    let scores = &run.centrality.scores;
    assert_eq!(scores[0].node, "c");
    assert_eq!(scores[1].node, "a");
    assert_eq!(scores[2].node, "b");
    // a and b differ at most by the indivisible teleport remainder
    assert!(scores[1].score - scores[2].score <= 1);
    assert!(scores[0].score > scores[1].score);
}

#[test]
fn centrality_breaks_exact_ties_by_ascending_identifier() {
    let core = DevForgeCore::new();
    let files = vec![file("b.py", &[]), file("a.py", &[])];
    let run = core.analyze_project(&files).unwrap();
    let scores = &run.centrality.scores;
    assert_eq!(scores[0].node, "a");
    assert_eq!(scores[1].node, "b");
    assert_eq!(scores[0].score, scores[1].score);
    assert_eq!(scores[0].score, 500_000);
}

fn metrics(complexity: usize, density: u64) -> GraphMetrics {
    GraphMetrics { node_count: 0, edge_count: 0, cyclomatic_complexity: complexity, density }
}

fn no_centrality() -> CentralityResult {
    CentralityResult { scores: Vec::new(), converged: true }
}

#[test]
fn risk_score_subtracts_complexity_penalty() {
    let analyzer = RiskAnalyzer::new();
    let report = analyzer.calculate_risks(&metrics(10, 0), &Vec::new(), &no_centrality());
    // 100.0 minus 10 * 0.5, in millionths
    assert_eq!(report.overall_score, 95_000_000);
    assert_eq!(report.metrics.maintainability, 95_000_000);
    assert!(!report.is_critical);
    assert!(report.recommendations.is_empty());
}

#[test]
fn risk_score_is_clamped_for_extreme_inputs() {
    let analyzer = RiskAnalyzer::new();
    let cycles: Vec<Vec<String>> = (0..20).map(|i| vec![format!("n{}", i)]).collect();
    let report = analyzer.calculate_risks(
        &metrics(usize::MAX, 1_000_000),
        &cycles,
        &no_centrality(),
    );
    // every penalty is at its cap: 100 - 40 - 30 - 30
    assert_eq!(report.overall_score, 0);
    assert!(report.is_critical);
}

#[test]
fn criticality_is_strictly_below_threshold() {
    let analyzer = RiskAnalyzer::new();
    // complexity penalty capped at 40.0, two cycles cost 10.0: exactly 50.0
    let cycles = vec![vec!["x".to_string()], vec!["y".to_string()]];
    let report = analyzer.calculate_risks(&metrics(100, 0), &cycles, &no_centrality());
    assert_eq!(report.overall_score, 50_000_000);
    assert!(!report.is_critical);
}

#[test]
fn coupling_and_complexity_recommendations_fire_on_thresholds() {
    let analyzer = RiskAnalyzer::new();
    let report = analyzer.calculate_risks(&metrics(51, 700_001), &Vec::new(), &no_centrality());
    assert_eq!(
        report.recommendations,
        vec![
            "Reduce coupling between modules".to_string(),
            "Reduce overall cyclomatic complexity".to_string(),
        ]
    );
}

#[test]
fn recommendations_are_capped() {
    let analyzer = RiskAnalyzer::new();
    let cycles: Vec<Vec<String>> = (0..20).map(|i| vec![format!("n{}", i)]).collect();
    let report = analyzer.calculate_risks(&metrics(0, 0), &cycles, &no_centrality());
    assert_eq!(report.recommendations.len(), 8);
}

#[test]
fn complexity_falls_back_to_line_count() {
    let core = DevForgeCore::new();
    let mut with_hint = file("a.py", &[]);
    with_hint.complexity_hint = Some(7);
    with_hint.loc = 1000;
    let without_hint = file("b.py", &[]); // loc 10 -> 1
    let run = core.analyze_project(&vec![with_hint, without_hint]).unwrap();
    assert_eq!(run.metrics.cyclomatic_complexity, 8);
}

#[test]
fn empty_graph_detects_no_cycles() {
    let g = DependencyGraph::new();
    assert!(g.detect_cycles().is_empty());
    assert_eq!(g.node_count(), 0);
    assert_eq!(g.edge_count(), 0);
}

#[test]
fn two_separate_cycles_are_both_reported() {
    let core = DevForgeCore::new();
    let files = vec![file("a.py", &["b"]), file("b.py", &["a"]), file("c.py", &["c"])];
    let run = core.analyze_project(&files).unwrap();
    assert_eq!(run.cycles.len(), 2);
    assert!(run.cycles.contains(&vec!["a".to_string(), "b".to_string()]));
    assert!(run.cycles.contains(&vec!["c".to_string()]));
}

#[test]
fn centrality_converges_on_small_graphs() {
    let core = DevForgeCore::new();
    let files = vec![file("a.py", &["b"]), file("b.py", &[])];
    let run = core.analyze_project(&files).unwrap();
    assert!(run.centrality.converged);
}

#[test]
fn acyclic_graph_reports_no_cycles() {
    let core = DevForgeCore::new();
    let files = vec![file("a.py", &["b"]), file("b.py", &["c"]), file("c.py", &[])];
    let run = core.analyze_project(&files).unwrap();
    assert!(run.cycles.is_empty());
    assert!(run.centrality.converged);
}
