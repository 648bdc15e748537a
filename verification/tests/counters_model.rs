use alco::counters::{parse_cachegrind_output, CachegrindStats};
use alco::error::Error;
use alco::model::{
    all_factors, base_terms, estimate_stepsize, extend_candidates, select_best, term_library,
    BeamEntry, Factor, Term, MIN_CHANGE,
};

const OUTPUT: &str = "desc: I1 cache: 32768 B, 64 B, 8-way associative\n\
cmd: ./bench\n\
events: Ir I1mr ILmr Dr D1mr DLmr Dw D1mw DLmw\n\
fn=(1) main\n\
0 907 1 1 262 0 0 236 1 1\n\
summary: 1007 17 12 265 14 10 253 18 9\n";

#[test]
fn parser_reads_the_summary_counters() {
    let stats = parse_cachegrind_output(OUTPUT).unwrap();
    assert_eq!(stats.instruction_reads, 1007);
    assert_eq!(stats.instruction_l1_misses, 17);
    assert_eq!(stats.instruction_cache_misses, 12);
    assert_eq!(stats.data_reads, 265);
    assert_eq!(stats.data_l1_read_misses, 14);
    assert_eq!(stats.data_cache_read_misses, 10);
    assert_eq!(stats.data_writes, 253);
    assert_eq!(stats.data_l1_write_misses, 18);
    assert_eq!(stats.data_cache_write_misses, 9);
}

#[test]
fn parser_takes_the_last_tagged_lines() {
    let doubled = format!(
        "events: Ir I1mr ILmr Dr D1mr DLmr Dw D1mw DLmw\nsummary: 1 1 1 1 1 1 1 1 1\n{}",
        OUTPUT
    );
    let stats = parse_cachegrind_output(&doubled).unwrap();
    assert_eq!(stats.instruction_reads, 1007);
}

#[test]
fn parser_rejects_missing_lines_and_names() {
    assert!(matches!(
        parse_cachegrind_output("summary: 1 2 3\n"),
        Err(Error::ParseOutput)
    ));
    assert!(matches!(
        parse_cachegrind_output("events: Ir\nsummary: 5\n"),
        Err(Error::ParseOutput)
    ));
    assert!(matches!(
        parse_cachegrind_output(
            "events: Ir I1mr ILmr Dr D1mr DLmr Dw D1mw DLmw\nsummary: 1 2 3 4 5 6 7 8 x\n"
        ),
        Err(Error::ParseOutput)
    ));
}

#[test]
fn parser_rejects_negative_hit_counts() {
    // More last-level misses than L1 misses would make the L3 hit count
    // negative.
    assert!(matches!(
        parse_cachegrind_output(
            "events: Ir I1mr ILmr Dr D1mr DLmr Dw D1mw DLmw\nsummary: 100 1 50 10 1 0 10 1 0\n"
        ),
        Err(Error::ParseOutput)
    ));
}

#[test]
fn hit_counts_partition_the_memory_accesses() {
    let stats = parse_cachegrind_output(OUTPUT).unwrap();
    let summary = stats.summarize();
    assert_eq!(summary.ram_hits, 12 + 10 + 9);
    assert_eq!(summary.l3_hits, (17 + 14 + 18) - (12 + 10 + 9));
    assert_eq!(
        summary.l1_hits + summary.l3_hits + summary.ram_hits,
        stats.instruction_reads + stats.data_reads + stats.data_writes
    );
}

#[test]
fn ram_accesses_sums_the_last_level_misses() {
    let stats = CachegrindStats {
        instruction_reads: 100,
        instruction_l1_misses: 9,
        instruction_cache_misses: 4,
        data_reads: 50,
        data_l1_read_misses: 8,
        data_cache_read_misses: 3,
        data_writes: 25,
        data_l1_write_misses: 7,
        data_cache_write_misses: 2,
    };
    assert_eq!(stats.ram_accesses(), 9);
}

#[test]
fn estimator_returns_one_on_reached_growth() {
    // Two consecutive steps already differ by at least the required change.
    assert_eq!(estimate_stepsize(&[(0, 0), (1, 100)], 50), 1);
    assert_eq!(estimate_stepsize(&[(0, 10), (1, 60), (2, 160)], 50), 1);
}

#[test]
fn estimator_returns_zero_on_saturation() {
    assert_eq!(estimate_stepsize(&[(0, 500), (1, 500)], 50), 0);
    assert_eq!(estimate_stepsize(&[(0, 500), (3, 500), (9, 500)], MIN_CHANGE), 0);
}

#[test]
fn estimator_with_few_observations_asks_for_one_step() {
    assert_eq!(estimate_stepsize(&[], 50), 1);
    assert_eq!(estimate_stepsize(&[(0, 123)], 50), 1);
}

#[test]
fn estimator_projects_the_slope() {
    // Ten instructions per step: fifty more instructions need five steps.
    assert_eq!(estimate_stepsize(&[(0, 0), (1, 10)], 50), 5);
    // Steep growth over a wide gap still projects proportionally.
    assert_eq!(estimate_stepsize(&[(0, 0), (10, 100)], 50), 5);
}

#[test]
fn base_terms_cover_every_axis_and_shape() {
    let terms = base_terms(2);
    assert_eq!(terms.len(), 11);
    assert!(terms[0].factors.is_empty());
    assert_eq!(terms[1].factors, vec![(0, Factor::X)]);
    assert_eq!(terms[6].factors, vec![(1, Factor::X)]);
    assert_eq!(all_factors().len(), 5);
}

#[test]
fn term_library_holds_singles_and_products() {
    let lib = term_library(2, 3);
    assert!(lib[0].factors.is_empty(), "the constant term comes first");
    for a in 0..2usize {
        for f in all_factors() {
            assert!(
                lib.iter().any(|t| t.factors == vec![(a, f)]),
                "missing single-factor term"
            );
        }
    }
    // The product of two axes is a candidate term as well.
    assert!(lib
        .iter()
        .any(|t| t.factors == vec![(0, Factor::X), (1, Factor::X)]));
    // Every term respects the interaction cap and the axis order.
    for t in &lib {
        assert!(t.factors.len() <= 3);
        for w in t.factors.windows(2) {
            assert!(w[0].0 < w[1].0);
        }
    }
}

#[test]
fn extend_candidates_skips_present_terms() {
    let library = vec![Term::constant(), Term::single(0, Factor::X)];
    let beam = vec![BeamEntry { terms: vec![Term::constant()], score_bits: 7 }];
    let candidates = extend_candidates(&beam, &library);
    // Only the single-factor term extends the entry; the constant is
    // already present.
    assert_eq!(candidates.len(), 1);
    assert_eq!(candidates[0].len(), 2);
    assert_eq!(candidates[0][1].factors, vec![(0, Factor::X)]);
}

#[test]
fn select_best_keeps_the_lowest_scores_in_order() {
    let entries = vec![
        BeamEntry { terms: vec![], score_bits: 40 },
        BeamEntry { terms: vec![], score_bits: 10 },
        BeamEntry { terms: vec![], score_bits: 30 },
        BeamEntry { terms: vec![], score_bits: 20 },
    ];
    let kept = select_best(entries, 2);
    assert_eq!(kept.len(), 2);
    assert_eq!(kept[0].score_bits, 10);
    assert_eq!(kept[1].score_bits, 20);

    let short = select_best(vec![BeamEntry { terms: vec![], score_bits: 3 }], 4);
    assert_eq!(short.len(), 1);
}

#[test]
fn fibonacci_matches_known_values() {
    assert_eq!(alco::fibonacci(0), Some(1));
    assert_eq!(alco::fibonacci(1), Some(1));
    assert_eq!(alco::fibonacci(5), Some(8));
    assert_eq!(alco::fibonacci(10), Some(89));
    assert_eq!(alco::fibonacci(92), Some(12200160415121876738));
    assert_eq!(alco::fibonacci(93), None);
}
