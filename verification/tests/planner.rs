use mix_compression::algorithms::AlgorithmMetrics;
use mix_compression::mixing_policy::MixingPolicy;
use mix_compression::mixing_policy::MixingPolicyMultipleWorkloads;
use mix_compression::mixing_policy::CombinationLabel;
use mix_compression::mixing_policy::OptimalMix;
use mix_compression::workload::Workload;

fn paper_metrics() -> Vec<AlgorithmMetrics> {
    vec![
        AlgorithmMetrics::new(1_000_000, 2, 0),
        AlgorithmMetrics::new(800_000, 4, 1),
        AlgorithmMetrics::new(600_000, 6, 2),
        AlgorithmMetrics::new(580_000, 7, 3),
        AlgorithmMetrics::new(400_000, 8, 4),
        AlgorithmMetrics::new(300_000, 10, 5),
    ]
}

#[test]
fn paper_polygonal_chain() {
    let workload = Workload::new(String::from("test"), 4, 5);
    assert_eq!(workload.time_budget, 5);
    let mixing_policy = MixingPolicy::new(paper_metrics());
    // Hull expected from the paper's plot: the (7s, 580_000) point is
    // dominated and drops out.
    let expected_algorithm_metrics = vec![
        AlgorithmMetrics::new(1_000_000, 2, 0),
        AlgorithmMetrics::new(800_000, 4, 1),
        AlgorithmMetrics::new(600_000, 6, 2),
        AlgorithmMetrics::new(400_000, 8, 4),
        AlgorithmMetrics::new(300_000, 10, 5),
    ];
    let obtained_algorithm_metrics: Vec<AlgorithmMetrics> =
        mixing_policy.lower_convex_hull.iter().map(|el| el.metrics).collect();
    assert_eq!(obtained_algorithm_metrics, expected_algorithm_metrics);
}

#[test]
fn optimal_mix() {
    let workload = Workload::new(String::from("test"), 4, 7);
    let mixing_policy = MixingPolicy::new(paper_metrics());
    println!("LCH: {:?}", mixing_policy.lower_convex_hull);
    println!("{:?}", mixing_policy.optimal_mix(&workload));
}

#[test]
fn single_document_split_at_seven_seconds() {
    let mixing_policy = MixingPolicy::new(paper_metrics());
    let workload = Workload::new(String::from("doc"), 1000, 7);
    let mix = mixing_policy.optimal_mix(&workload).expect("budget 7 is feasible");
    match mix {
        OptimalMix::Normal((expensive, cheap), fraction) => {
            assert_eq!(expensive.time_required, 8);
            assert_eq!(expensive.compressed_size, 400_000);
            assert_eq!(cheap.time_required, 6);
            assert_eq!(cheap.compressed_size, 600_000);
            assert_eq!(fraction, 50);
            // Byte offset: half of the input.
            assert_eq!(mix_compression::mixing_policy::split_offset(1000, fraction), 500);
        }
        OptimalMix::Single(_) => panic!("expected a split plan"),
    }
}

#[test]
fn single_document_full_budget_takes_best() {
    let mixing_policy = MixingPolicy::new(paper_metrics());
    let workload = Workload::new(String::from("doc"), 1000, 10);
    let mix = mixing_policy.optimal_mix(&workload).expect("budget 10 is feasible");
    match mix {
        OptimalMix::Single(m) => {
            assert_eq!(m.time_required, 10);
            assert_eq!(m.compressed_size, 300_000);
        }
        OptimalMix::Normal(_, _) => panic!("expected a single plan"),
    }
}

#[test]
fn single_document_infeasible_budget() {
    let mixing_policy = MixingPolicy::new(paper_metrics());
    let workload = Workload::new(String::from("doc"), 1000, 1);
    assert!(mixing_policy.optimal_mix(&workload).is_none());
    // The reported minimum feasible duration.
    assert_eq!(mixing_policy.min_required_time(), 2);
}

#[test]
fn single_measurement_document() {
    let mixing_policy = MixingPolicy::new(vec![AlgorithmMetrics::new(1_000_000, 2, 0)]);
    let generous = Workload::new(String::from("doc"), 10, 5);
    match mixing_policy.optimal_mix(&generous).expect("budget 5 is feasible") {
        OptimalMix::Single(m) => {
            assert_eq!(m.time_required, 2);
            assert_eq!(m.compressed_size, 1_000_000);
        }
        OptimalMix::Normal(_, _) => panic!("expected a single plan"),
    }
    let tight = Workload::new(String::from("doc"), 10, 1);
    assert!(mixing_policy.optimal_mix(&tight).is_none());
}

#[test]
fn hull_monotone_and_benefits_non_increasing() {
    let mixing_policy = MixingPolicy::new(paper_metrics());
    let hull = &mixing_policy.lower_convex_hull;
    assert!(hull.len() >= 2);
    assert_eq!(hull[0].benefit.saved, 0);
    assert_eq!(hull[0].benefit.elapsed, 1);
    for i in 1..hull.len() {
        // Durations strictly increase, sizes strictly decrease.
        assert!(hull[i - 1].metrics.time_required < hull[i].metrics.time_required);
        assert!(hull[i - 1].metrics.compressed_size > hull[i].metrics.compressed_size);
        // The benefit is exactly the step's bytes saved per time unit.
        assert_eq!(
            hull[i].benefit.saved,
            hull[i - 1].metrics.compressed_size - hull[i].metrics.compressed_size
        );
        assert_eq!(
            hull[i].benefit.elapsed,
            hull[i].metrics.time_required - hull[i - 1].metrics.time_required
        );
    }
    for i in 2..hull.len() {
        // Marginal benefits never increase along the hull.
        let lhs = (hull[i].benefit.saved as u128) * (hull[i - 1].benefit.elapsed as u128);
        let rhs = (hull[i - 1].benefit.saved as u128) * (hull[i].benefit.elapsed as u128);
        assert!(lhs <= rhs);
    }
}

#[test]
fn budget_monotone_query_sizes() {
    // Larger feasible budgets never select plans of larger
    // fraction-weighted size.
    let mixing_policy = MixingPolicy::new(paper_metrics());
    let size100 = |mix: OptimalMix| -> u128 {
        match mix {
            OptimalMix::Single(m) => 100u128 * m.compressed_size as u128,
            OptimalMix::Normal((e, c), f) => {
                (f as u128) * e.compressed_size as u128
                    + (100 - f as u128) * c.compressed_size as u128
            }
        }
    };
    let mut previous: Option<u128> = None;
    for budget in 2..=11u64 {
        let workload = Workload::new(String::from("doc"), 1000, budget);
        let s = size100(mixing_policy.optimal_mix(&workload).expect("feasible"));
        if let Some(p) = previous {
            assert!(s <= p, "size grew from {} to {} at budget {}", p, s, budget);
        }
        previous = Some(s);
    }
}

#[test]
fn planner_is_deterministic() {
    let first = MixingPolicy::new(paper_metrics());
    let second = MixingPolicy::new(paper_metrics());
    let a: Vec<AlgorithmMetrics> = first.lower_convex_hull.iter().map(|el| el.metrics).collect();
    let b: Vec<AlgorithmMetrics> = second.lower_convex_hull.iter().map(|el| el.metrics).collect();
    assert_eq!(a, b);
    for (x, y) in first.lower_convex_hull.iter().zip(second.lower_convex_hull.iter()) {
        assert_eq!(x.metrics.algorithm, y.metrics.algorithm);
        assert_eq!(x.benefit.saved, y.benefit.saved);
        assert_eq!(x.benefit.elapsed, y.benefit.elapsed);
    }
}

#[test]
fn equal_measurements_keep_the_later_handle() {
    // Two records equal in duration and size: the worse-sorted copy is
    // dominated; the stable order decides which handle survives.
    let mixing_policy = MixingPolicy::new(vec![
        AlgorithmMetrics::new(100, 2, 7),
        AlgorithmMetrics::new(100, 2, 9),
    ]);
    assert_eq!(mixing_policy.lower_convex_hull.len(), 1);
    assert_eq!(mixing_policy.lower_convex_hull[0].metrics.algorithm, 9);
}

#[test]
fn joint_plan_two_documents_full_budget() {
    let planner = MixingPolicyMultipleWorkloads::new(vec![paper_metrics(), paper_metrics()]);
    let mixes = planner.mix_with_total_time_budget(20).expect("budget 20 covers the best joint");
    assert_eq!(mixes.len(), 2);
    for mix in mixes {
        match mix {
            OptimalMix::Single(m) => {
                assert_eq!(m.time_required, 10);
                assert_eq!(m.compressed_size, 300_000);
            }
            OptimalMix::Normal(_, _) => panic!("expected single plans"),
        }
    }
}

#[test]
fn joint_plan_two_documents_split_budget() {
    // Budget 15 falls between the joint configurations at aggregate
    // durations 14 and 16; only the document advanced on that step is
    // split, and the split makes the aggregate duration exactly 15.
    let planner = MixingPolicyMultipleWorkloads::new(vec![paper_metrics(), paper_metrics()]);
    let mixes = planner.mix_with_total_time_budget(15).expect("budget 15 is feasible");
    assert_eq!(mixes.len(), 2);
    let mut splits = 0;
    let mut blended_time_x100: u128 = 0;
    for mix in &mixes {
        match mix {
            OptimalMix::Single(m) => {
                blended_time_x100 += 100 * m.time_required as u128;
            }
            OptimalMix::Normal((expensive, cheap), fraction) => {
                splits += 1;
                assert_eq!(expensive.time_required, 8);
                assert_eq!(expensive.compressed_size, 400_000);
                assert_eq!(cheap.time_required, 6);
                assert_eq!(cheap.compressed_size, 600_000);
                assert_eq!(*fraction, 50);
                blended_time_x100 += (*fraction as u128) * expensive.time_required as u128
                    + (100 - *fraction as u128) * cheap.time_required as u128;
            }
        }
    }
    // Exactly one document is split, and the blended aggregate
    // duration meets the budget exactly.
    assert_eq!(splits, 1);
    assert_eq!(blended_time_x100, 1500);
}

#[test]
fn joint_plan_infeasible_budget() {
    let planner = MixingPolicyMultipleWorkloads::new(vec![paper_metrics(), paper_metrics()]);
    // The fastest joint configuration needs 2 + 2 = 4 time units.
    assert!(planner.mix_with_total_time_budget(3).is_none());
    assert!(planner.mix_with_total_time_budget(4).is_some());
}

#[test]
fn joint_plan_monotone_and_single_steps() {
    let planner = MixingPolicyMultipleWorkloads::new(vec![paper_metrics(), paper_metrics()]);
    let combos = &planner.lower_convex_hull;
    // Both hulls have five points: the joint plan takes eight steps.
    assert_eq!(combos.len(), 9);
    assert!(matches!(combos[0].label, CombinationLabel::Initial));
    assert!(combos[0].setup.iter().all(|&s| s == 0));
    for k in 1..combos.len() {
        // Aggregate duration strictly grows, aggregate size strictly
        // shrinks.
        assert!(combos[k - 1].total_time < combos[k].total_time);
        assert!(combos[k - 1].total_size > combos[k].total_size);
        // Exactly one document advances, by exactly one hull index,
        // and the label names it.
        let diffs: Vec<usize> = (0..combos[k].setup.len())
            .filter(|&d| combos[k].setup[d] != combos[k - 1].setup[d])
            .collect();
        assert_eq!(diffs.len(), 1);
        let d = diffs[0];
        assert_eq!(combos[k].setup[d], combos[k - 1].setup[d] + 1);
        match combos[k].label {
            CombinationLabel::Advance { workload, algorithm } => {
                assert_eq!(workload, d);
                assert_eq!(
                    algorithm,
                    planner.lower_convex_hull_per_workload[d][combos[k].setup[d]]
                        .metrics
                        .algorithm
                );
            }
            CombinationLabel::Initial => panic!("only the first entry is initial"),
        }
    }
    let last = combos.last().unwrap();
    for (d, hull) in planner.lower_convex_hull_per_workload.iter().enumerate() {
        assert_eq!(last.setup[d], hull.len() - 1);
    }
}
