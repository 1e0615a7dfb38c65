//! Risk scoring: a bounded, monotone model over the aggregate graph
//! metrics and the detected cycles, with threshold-driven
//! recommendations. Scores are fixed-point millionths ([`crate::SCALE`]).

use vstd::prelude::*;
use crate::graph::{GraphMetrics, id_views};
use crate::centrality::CentralityResult;

verus! {

/// Perfect score: 100.0 in millionths.
pub const BASE_SCORE: u64 = 100_000_000;

/// Penalty per unit of cyclomatic complexity: 0.5 in millionths.
pub const COMPLEXITY_WEIGHT: u64 = 500_000;

/// Cap of the complexity penalty: 40.0 in millionths.
pub const COMPLEXITY_PENALTY_CAP: u64 = 40_000_000;

/// Penalty per millionth of density: density 1.0 costs 30.0 points.
pub const COUPLING_WEIGHT: u64 = 30;

/// Cap of the coupling penalty: 30.0 in millionths.
pub const COUPLING_PENALTY_CAP: u64 = 30_000_000;

/// Penalty per detected cycle: 5.0 in millionths.
pub const CYCLE_PENALTY: u64 = 5_000_000;

/// Cap of the cycle penalty: 30.0 in millionths.
pub const CYCLE_PENALTY_CAP: u64 = 30_000_000;

/// At most this many recommendations are surfaced.
pub const MAX_RECOMMENDATIONS: usize = 8;

/// Thresholds of the risk model, passed explicitly so that runs are
/// deterministic and testable with varied configurations.
pub struct RiskThresholds {
    /// Total cyclomatic complexity above which a recommendation is made.
    pub max_complexity: usize,
    /// Density (in millionths) above which coupling is flagged.
    pub max_coupling: u64,
    /// Overall score (in millionths) under which the run is critical.
    pub critical_threshold: u64,
}

/// Derived metrics echoed in the report. `maintainability` is in
/// millionths of a 0..100 scale.
pub struct AnalysisMetrics {
    pub complexity: usize,
    pub maintainability: u64,
}

/// The terminal artifact of an analysis run. `overall_score` is in
/// millionths of a 0..100 scale.
pub struct RiskReport {
    pub overall_score: u64,
    pub is_critical: bool,
    pub recommendations: Vec<String>,
    pub metrics: AnalysisMetrics,
}

/// Complexity penalty: linear in the total complexity, capped.
pub open spec fn complexity_penalty_spec(c: int) -> int {
    if c * (COMPLEXITY_WEIGHT as int) > COMPLEXITY_PENALTY_CAP as int {
        COMPLEXITY_PENALTY_CAP as int
    } else {
        c * (COMPLEXITY_WEIGHT as int)
    }
}

/// Coupling penalty: linear in the density, capped.
pub open spec fn coupling_penalty_spec(d: int) -> int {
    if d * (COUPLING_WEIGHT as int) > COUPLING_PENALTY_CAP as int {
        COUPLING_PENALTY_CAP as int
    } else {
        d * (COUPLING_WEIGHT as int)
    }
}

/// Cycle penalty: linear in the number of cycles, capped.
pub open spec fn cycle_penalty_spec(nc: int) -> int {
    if nc * (CYCLE_PENALTY as int) > CYCLE_PENALTY_CAP as int {
        CYCLE_PENALTY_CAP as int
    } else {
        nc * (CYCLE_PENALTY as int)
    }
}

/// Overall score: the base minus the three bounded penalties.
pub open spec fn overall_score_spec(c: int, d: int, nc: int) -> int {
    (BASE_SCORE as int) - complexity_penalty_spec(c) - coupling_penalty_spec(d)
        - cycle_penalty_spec(nc)
}

/// Maintainability index: the base minus the complexity penalty alone.
pub open spec fn maintainability_spec(c: int) -> int {
    (BASE_SCORE as int) - complexity_penalty_spec(c)
}

/// The overall score is always within 0 and 100 (in millionths), for
/// every input, including zero and arbitrarily large complexities.
pub proof fn lemma_overall_score_bounds(c: int, d: int, nc: int)
    requires
        0 <= c,
        0 <= d,
        0 <= nc,
    ensures
        0 <= overall_score_spec(c, d, nc) <= BASE_SCORE as int,
        0 <= maintainability_spec(c) <= BASE_SCORE as int,
{
    assert(c * (COMPLEXITY_WEIGHT as int) >= 0) by (nonlinear_arith)
        requires
            c >= 0,
    ;
    assert(d * (COUPLING_WEIGHT as int) >= 0) by (nonlinear_arith)
        requires
            d >= 0,
    ;
    assert(nc * (CYCLE_PENALTY as int) >= 0) by (nonlinear_arith)
        requires
            nc >= 0,
    ;
}

/// The module identifiers of each cycle of a cycle list.
pub open spec fn cycles_views(cs: Seq<Vec<String>>) -> Seq<Seq<Seq<char>>> {
    cs.map_values(|v: Vec<String>| id_views(v@))
}

/// The identifiers of a cycle joined with arrows, in cycle order.
pub open spec fn arrow_join(c: Seq<Seq<char>>) -> Seq<char>
    decreases c.len(),
{
    if c.len() == 0 {
        Seq::empty()
    } else if c.len() == 1 {
        c[0]
    } else {
        arrow_join(c.drop_last()) + " -> "@ + c.last()
    }
}

/// The recommendation text for one detected cycle.
pub open spec fn cycle_rec_spec(c: Seq<Seq<char>>) -> Seq<char> {
    "Resolve circular dependency involving "@ + arrow_join(c)
}

/// The full recommendation list before the cap: the coupling rule, the
/// complexity rule, then one entry per cycle, in cycle order.
pub open spec fn base_recs_spec(coupled: bool, complex: bool, cys: Seq<Seq<Seq<char>>>) -> Seq<
    Seq<char>,
> {
    let a: Seq<Seq<char>> = if coupled {
        seq!["Reduce coupling between modules"@]
    } else {
        Seq::empty()
    };
    let b: Seq<Seq<char>> = if complex {
        seq!["Reduce overall cyclomatic complexity"@]
    } else {
        Seq::empty()
    };
    a + b + cys.map_values(|c: Seq<Seq<char>>| cycle_rec_spec(c))
}

/// The surfaced recommendations: the full list, capped.
pub open spec fn recs_spec(coupled: bool, complex: bool, cys: Seq<Seq<Seq<char>>>) -> Seq<
    Seq<char>,
> {
    let all = base_recs_spec(coupled, complex, cys);
    if all.len() > MAX_RECOMMENDATIONS as int {
        all.take(MAX_RECOMMENDATIONS as int)
    } else {
        all
    }
}

/// The risk model is pure: equal inputs yield equal scores and equal
/// recommendation lists, so an unchanged run reproduces its report.
pub proof fn lemma_risk_model_deterministic(
    c1: int,
    d1: int,
    cy1: Seq<Seq<Seq<char>>>,
    c2: int,
    d2: int,
    cy2: Seq<Seq<Seq<char>>>,
    coupled1: bool,
    complex1: bool,
    coupled2: bool,
    complex2: bool,
)
    requires
        c1 == c2,
        d1 == d2,
        cy1 == cy2,
        coupled1 == coupled2,
        complex1 == complex2,
    ensures
        overall_score_spec(c1, d1, cy1.len() as int) == overall_score_spec(
            c2,
            d2,
            cy2.len() as int,
        ),
        maintainability_spec(c1) == maintainability_spec(c2),
        recs_spec(coupled1, complex1, cy1) == recs_spec(coupled2, complex2, cy2),
{
}

/// Builds the recommendation text for one cycle.
#[verifier::loop_isolation(false)]
fn cycle_recommendation(c: &Vec<String>) -> (r: String)
    ensures
        r@ == cycle_rec_spec(id_views(c@)),
{
    let ghost cv: Seq<Seq<char>> = id_views(c@);
    let mut s: String = String::from_str("Resolve circular dependency involving ");
    let n: usize = c.len();
    if n == 0 {
        proof {
            assert(s@ =~= cycle_rec_spec(cv));
        }
        return s;
    }
    s.append(c[0].as_str());
    let mut i: usize = 1;
    while i < n
        invariant
            1 <= i <= n,
            s@ == "Resolve circular dependency involving "@ + arrow_join(cv.take(i as int)),
        decreases n - i,
    {
        s.append(" -> ");
        s.append(c[i].as_str());
        proof {
            assert(cv.take(i + 1).drop_last() =~= cv.take(i as int));
            assert(cv.take(i + 1).last() == cv[i as int]);
            assert(arrow_join(cv.take(i + 1)) == arrow_join(cv.take(i as int)) + " -> "@
                + cv[i as int]);
            assert(s@ =~= "Resolve circular dependency involving "@ + arrow_join(cv.take(i + 1)));
        }
        i = i + 1;
    }
    proof {
        assert(cv.take(n as int) =~= cv);
    }
    s
}

/// Computes the risk report from aggregate metrics and detected cycles.
pub struct RiskAnalyzer {
    thresholds: RiskThresholds,
}

impl RiskAnalyzer {
    /// The thresholds this analyzer was configured with.
    pub closed spec fn spec_thresholds(self) -> RiskThresholds {
        self.thresholds
    }

    /// Creates an analyzer with the default thresholds: complexity 50,
    /// coupling 0.7, critical score 50.0.
    pub fn new() -> (r: RiskAnalyzer)
        ensures
            r.spec_thresholds().max_complexity == 50,
            r.spec_thresholds().max_coupling == 700_000,
            r.spec_thresholds().critical_threshold == 50_000_000,
    {
        RiskAnalyzer {
            thresholds: RiskThresholds {
                max_complexity: 50,
                max_coupling: 700_000,
                critical_threshold: 50_000_000,
            },
        }
    }

    /// Creates an analyzer with explicit thresholds.
    pub fn with_thresholds(t: RiskThresholds) -> (r: RiskAnalyzer)
        ensures
            r.spec_thresholds() == t,
    {
        RiskAnalyzer { thresholds: t }
    }

    /// The bounded overall score of the given metrics and cycle count.
    fn compute_score(&self, metrics: &GraphMetrics, ncycles: usize) -> (r: u64)
        ensures
            r as int == overall_score_spec(
                metrics.cyclomatic_complexity as int,
                metrics.density as int,
                ncycles as int,
            ),
            r <= BASE_SCORE,
    {
        proof {
            lemma_overall_score_bounds(
                metrics.cyclomatic_complexity as int,
                metrics.density as int,
                ncycles as int,
            );
        }
        let cw: u128 = (metrics.cyclomatic_complexity as u128) * (COMPLEXITY_WEIGHT as u128);
        let cp: u64 = if cw > COMPLEXITY_PENALTY_CAP as u128 {
            COMPLEXITY_PENALTY_CAP
        } else {
            cw as u64
        };
        let dw: u128 = (metrics.density as u128) * (COUPLING_WEIGHT as u128);
        let dp: u64 = if dw > COUPLING_PENALTY_CAP as u128 {
            COUPLING_PENALTY_CAP
        } else {
            dw as u64
        };
        let yw: u128 = (ncycles as u128) * (CYCLE_PENALTY as u128);
        let yp: u64 = if yw > CYCLE_PENALTY_CAP as u128 {
            CYCLE_PENALTY_CAP
        } else {
            yw as u64
        };
        BASE_SCORE - cp - dp - yp
    }

    /// Derives the full risk report: the bounded overall score, the
    /// criticality flag (score strictly under the critical threshold),
    /// the capped recommendation list, and the echoed metrics. The
    /// centrality context is accepted alongside the other analyses; the
    /// scoring model itself is over the metrics and the cycles.
    #[verifier::loop_isolation(false)]
    #[verifier::rlimit(60)]
    pub fn calculate_risks(
        &self,
        metrics: &GraphMetrics,
        cycles: &Vec<Vec<String>>,
        centrality: &CentralityResult,
    ) -> (r: RiskReport)
        ensures
            r.overall_score as int == overall_score_spec(
                metrics.cyclomatic_complexity as int,
                metrics.density as int,
                cycles@.len() as int,
            ),
            r.overall_score <= BASE_SCORE,
            r.is_critical <==> r.overall_score < self.spec_thresholds().critical_threshold,
            id_views(r.recommendations@) == recs_spec(
                metrics.density > self.spec_thresholds().max_coupling,
                metrics.cyclomatic_complexity > self.spec_thresholds().max_complexity,
                cycles_views(cycles@),
            ),
            r.metrics.complexity == metrics.cyclomatic_complexity,
            r.metrics.maintainability as int == maintainability_spec(
                metrics.cyclomatic_complexity as int,
            ),
    {
        let score: u64 = self.compute_score(metrics, cycles.len());
        let cw: u128 = (metrics.cyclomatic_complexity as u128) * (COMPLEXITY_WEIGHT as u128);
        let maintain: u64 = if cw > COMPLEXITY_PENALTY_CAP as u128 {
            BASE_SCORE - COMPLEXITY_PENALTY_CAP
        } else {
            BASE_SCORE - (cw as u64)
        };
        let coupled: bool = metrics.density > self.thresholds.max_coupling;
        let complex: bool = metrics.cyclomatic_complexity > self.thresholds.max_complexity;
        let ghost cys: Seq<Seq<Seq<char>>> = cycles_views(cycles@);
        let ghost allr: Seq<Seq<char>> = base_recs_spec(coupled, complex, cys);
        let mut recs: Vec<String> = Vec::new();
        let head: usize = if coupled {
            1
        } else {
            0
        } + if complex {
            1
        } else {
            0
        };
        if coupled {
            recs.push(String::from_str("Reduce coupling between modules"));
        }
        if complex {
            recs.push(String::from_str("Reduce overall cyclomatic complexity"));
        }
        proof {
            assert(id_views(recs@) =~= allr.take(head as int));
            assert(recs@.len() == head <= 2);
        }
        let nc: usize = cycles.len();
        let mut ci: usize = 0;
        while ci < nc && recs.len() < MAX_RECOMMENDATIONS
            invariant
                ci <= nc,
                nc == cycles@.len(),
                recs@.len() == if head + ci <= MAX_RECOMMENDATIONS {
                    head + ci
                } else {
                    MAX_RECOMMENDATIONS as int
                },
                id_views(recs@) =~= if head + ci <= MAX_RECOMMENDATIONS {
                    allr.take(head + ci)
                } else {
                    allr.take(MAX_RECOMMENDATIONS as int)
                },
                allr.len() == head + nc,
            decreases nc - ci,
        {
            let txt: String = cycle_recommendation(&cycles[ci]);
            proof {
                assert(allr[head + ci] == cycle_rec_spec(cys[ci as int]));
                assert(txt@ == allr[head + ci]);
            }
            recs.push(txt);
            proof {
                assert(id_views(recs@) =~= allr.take(head + ci + 1));
            }
            ci = ci + 1;
        }
        proof {
            if ci == nc {
                if head + nc <= MAX_RECOMMENDATIONS {
                    assert(allr.take(head + nc) =~= allr);
                }
            } else {
                assert(recs@.len() == MAX_RECOMMENDATIONS);
            }
            assert(id_views(recs@) =~= recs_spec(coupled, complex, cys));
        }
        RiskReport {
            overall_score: score,
            is_critical: score < self.thresholds.critical_threshold,
            recommendations: recs,
            metrics: AnalysisMetrics {
                complexity: metrics.cyclomatic_complexity,
                maintainability: maintain,
            },
        }
    }
}

} // verus!
