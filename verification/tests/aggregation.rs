use tsalign_stats_plot::fixed::SCALE;
use tsalign_stats_plot::grouping::GroupNameProjection;
use tsalign_stats_plot::grouping::group_files;
use tsalign_stats_plot::grouping::group_name;
use tsalign_stats_plot::histogram::grouped_histograms;
use tsalign_stats_plot::histogram::histogram_bounds;
use tsalign_stats_plot::histogram::histogram_counts;
use tsalign_stats_plot::merge::KeyProjection;
use tsalign_stats_plot::merge::MergeKeyProjection;
use tsalign_stats_plot::merge::MergedGroup;
use tsalign_stats_plot::merge::bucket_index;
use tsalign_stats_plot::merge::bucket_key;
use tsalign_stats_plot::merge::key_range;
use tsalign_stats_plot::merge::merge_and_sort_files_in_groups;
use tsalign_stats_plot::merge::widen_degenerate_key_range;
use tsalign_stats_plot::quartiles::Quartiles;
use tsalign_stats_plot::quartiles::ValueProjection;
use tsalign_stats_plot::quartiles::quartiles;
use tsalign_stats_plot::quartiles::suppress_epsilon;
use tsalign_stats_plot::quartiles::value_epsilon;
use tsalign_stats_plot::quartiles::value_range;
use tsalign_stats_plot::reports::filter_ari_email;
use tsalign_stats_plot::reports::filter_tsalign;
use tsalign_stats_plot::statistics_file::AlignmentParameters;
use tsalign_stats_plot::statistics_file::AlignmentStatistics;
use tsalign_stats_plot::statistics_file::MergedStatisticsFile;
use tsalign_stats_plot::statistics_file::StatisticsFile;
use tsalign_stats_plot::statistics_file::alignment_strategies::AlignmentStrategies;
use tsalign_stats_plot::statistics_file::alignment_strategies::AlignmentStrategyName;
use tsalign_stats_plot::statistics_file::alignment_strategies::AlignmentStrategyStringifyer;

fn params(aligner: &str, seed: u64, cost: u64) -> AlignmentParameters {
    AlignmentParameters {
        test_sequence_name: "seq".to_string(),
        aligner: aligner.to_string(),
        length: 100,
        cost,
        seed,
        alignment_config: String::new(),
        runtime_raw: Vec::new(),
        memory_raw: 0,
        strategies: AlignmentStrategies {
            node_ord: String::new(),
            ts_min_length: String::new(),
        },
    }
}

fn file(aligner: &str, seed: u64, cost: u64, opened_nodes: i128) -> StatisticsFile {
    StatisticsFile {
        statistics: AlignmentStatistics {
            cost: cost as i128 * SCALE,
            opened_nodes,
            runtime: 0,
            memory: 0,
            template_switch_amount: 0,
        },
        parameters: params(aligner, seed, cost),
    }
}

#[test]
fn grouping_rejects_unequal_group_sizes() {
    // Records {g:A,v:1},{g:A,v:2},{g:B,v:3} grouped by g: sizes 2 vs 1.
    let files = vec![file("A", 1, 0, SCALE), file("A", 2, 0, 2 * SCALE), file("B", 3, 0, 3 * SCALE)];
    let result = group_files(files, &GroupNameProjection::Aligner);
    let mismatch = result.err().expect("unequal sizes must be rejected");
    assert_eq!(mismatch.groups.len(), 2);
    assert_eq!(mismatch.groups[0].name, "A");
    assert_eq!(mismatch.groups[0].files.len(), 2);
    assert_eq!(mismatch.groups[1].name, "B");
    assert_eq!(mismatch.groups[1].files.len(), 1);
}

#[test]
fn grouping_preserves_order_and_sorts_groups() {
    let files = vec![
        file("B", 1, 0, SCALE),
        file("A", 2, 0, 2 * SCALE),
        file("B", 3, 0, 3 * SCALE),
        file("A", 4, 0, 4 * SCALE),
    ];
    let groups = group_files(files, &GroupNameProjection::Aligner).expect("equal sizes");
    assert_eq!(groups.len(), 2);
    assert_eq!(groups[0].name, "A");
    assert_eq!(groups[1].name, "B");
    // Order within a group follows the input order.
    assert_eq!(groups[0].files[0].parameters.seed, 2);
    assert_eq!(groups[0].files[1].parameters.seed, 4);
    assert_eq!(groups[1].files[0].parameters.seed, 1);
    assert_eq!(groups[1].files[1].parameters.seed, 3);
}

#[test]
fn bucket_assignment_clamps() {
    // min_key=0, max_key=10, 5 buckets: key 10 lands in bucket 4, key 0 in 0.
    assert_eq!(bucket_index(10 * SCALE, 0, 10 * SCALE, 5), 4);
    assert_eq!(bucket_index(0, 0, 10 * SCALE, 5), 0);
    assert_eq!(bucket_index(3 * SCALE, 0, 10 * SCALE, 5), 1);
    // A degenerate range is a single bucket.
    assert_eq!(bucket_index(7 * SCALE, 7 * SCALE, 7 * SCALE, 5), 0);
}

#[test]
fn bucket_key_is_the_midpoint() {
    // Bucket 0 of 4 over [0, 9]: midpoint 9/8 = 1.125.
    assert_eq!(bucket_key(0, 0, 9 * SCALE, 4), 9 * SCALE / 8);
    assert_eq!(bucket_key(3, 0, 8 * SCALE, 4), 7 * SCALE);
}

#[test]
fn summary_combinators() {
    // mean of [{x:2},{x:4},{x:6}] = {x:4}; min = {x:2}; max = {x:6}.
    let files = vec![
        file("A", 1, 0, 2 * SCALE),
        file("A", 2, 0, 4 * SCALE),
        file("A", 3, 0, 6 * SCALE),
    ];
    let merged = MergedStatisticsFile::from_statistics_files(0, files);
    assert_eq!(merged.mean_statistics.opened_nodes, 4 * SCALE);
    assert_eq!(merged.min_statistics.opened_nodes, 2 * SCALE);
    assert_eq!(merged.max_statistics.opened_nodes, 6 * SCALE);
}

#[test]
fn median_interpolates() {
    // median of [{x:1},{x:2},{x:3},{x:4}] = {x:2.5}.
    let files = vec![
        file("A", 1, 0, SCALE),
        file("A", 2, 0, 2 * SCALE),
        file("A", 3, 0, 3 * SCALE),
        file("A", 4, 0, 4 * SCALE),
    ];
    let merged = MergedStatisticsFile::from_statistics_files(0, files);
    assert_eq!(merged.median_statistics.opened_nodes, 2 * SCALE + SCALE / 2);
}

#[test]
fn quartiles_of_four_values() {
    let values = vec![4 * SCALE, SCALE, 3 * SCALE, 2 * SCALE];
    let q = quartiles(&values);
    assert_eq!(q.min, SCALE);
    assert_eq!(q.lower, SCALE + 3 * SCALE / 4);
    assert_eq!(q.median, 2 * SCALE + SCALE / 2);
    assert_eq!(q.upper, 3 * SCALE + SCALE / 4);
    assert_eq!(q.max, 4 * SCALE);
}

#[test]
fn epsilon_suppression_collapses_tiny_quartiles() {
    // Global field range [0, 1e6]: the threshold is 1e6 * 1e-12 = 1e-6.
    let epsilon = value_epsilon(0, 1_000_000 * SCALE);
    assert_eq!(epsilon, 1_000);
    let q = Quartiles { min: 500, lower: 999, median: 1_000, upper: 2_000, max: 3 * SCALE };
    let s = suppress_epsilon(&q, epsilon);
    assert_eq!(s.min, 0);
    assert_eq!(s.lower, 0);
    assert_eq!(s.median, 1_000);
    assert_eq!(s.upper, 2_000);
    assert_eq!(s.max, 3 * SCALE);
}

#[test]
fn merge_round_trip_keeps_every_record() {
    // 20 records across 2 groups of 10, bucketed into 4 buckets: the
    // summaries of a group together retain exactly that group's records.
    let mut files = Vec::new();
    for s in 0..10u64 {
        files.push(file("A", s, s, (s as i128) * SCALE));
        files.push(file("B", s + 100, s, (s as i128) * SCALE));
    }
    let groups = group_files(files, &GroupNameProjection::Aligner).expect("equal sizes");
    let (merged, min_key, max_key) = merge_and_sort_files_in_groups(
        groups,
        Some(4),
        &KeyProjection::Cost,
        &MergeKeyProjection::ClearSeedAndCost,
    );
    assert_eq!(min_key, 0);
    assert_eq!(max_key, 9 * SCALE);
    assert_eq!(merged.len(), 2);
    for group in &merged {
        let total: usize = group.files.iter().map(|m| m.contained_statistics.len()).sum();
        assert_eq!(total, 10);
        assert_eq!(group.files.len(), 4);
        // Keys 0..=9 into 4 buckets over [0, 9]: buckets hold 3, 2, 2, 3
        // records, each summary at its bucket's midpoint.
        let sizes: Vec<usize> = group.files.iter().map(|m| m.contained_statistics.len()).collect();
        assert_eq!(sizes, vec![3, 2, 2, 3]);
        let keys: Vec<i128> = group.files.iter().map(|m| m.key).collect();
        assert_eq!(
            keys,
            vec![9 * SCALE / 8, 3 * 9 * SCALE / 8, 5 * 9 * SCALE / 8, 7 * 9 * SCALE / 8],
        );
    }
}

#[test]
fn unbucketed_merge_uses_raw_keys() {
    let files = vec![file("A", 1, 3, SCALE), file("A", 2, 7, 2 * SCALE)];
    let groups = group_files(files, &GroupNameProjection::Aligner).expect("equal sizes");
    let (merged, min_key, max_key) = merge_and_sort_files_in_groups(
        groups,
        None,
        &KeyProjection::Cost,
        &MergeKeyProjection::ClearSeedAndCost,
    );
    assert_eq!((min_key, max_key), (3 * SCALE, 7 * SCALE));
    assert_eq!(merged[0].files.len(), 2);
    assert_eq!(merged[0].files[0].key, 3 * SCALE);
    assert_eq!(merged[0].files[1].key, 7 * SCALE);
}

#[test]
fn key_range_spans_all_groups() {
    let files = vec![file("A", 1, 2, 0), file("B", 2, 8, 0)];
    let groups = group_files(files, &GroupNameProjection::Aligner).expect("equal sizes");
    let (lo, hi) = key_range(&groups, &KeyProjection::Cost);
    assert_eq!((lo, hi), (2 * SCALE, 8 * SCALE));
}

#[test]
fn widening_applies_only_to_degenerate_ranges() {
    assert_eq!(widen_degenerate_key_range(5 * SCALE, 5 * SCALE), (4 * SCALE + SCALE / 2, 5 * SCALE + SCALE / 2));
    assert_eq!(widen_degenerate_key_range(SCALE, 2 * SCALE), (SCALE, 2 * SCALE));
}

#[test]
fn value_range_folds_summary_maxima() {
    let a = file("A", 1, 0, 5 * SCALE);
    let b = file("A", 2, 0, 9 * SCALE);
    let merged = MergedStatisticsFile::from_statistics_files(0, vec![a, b]);
    let groups = vec![MergedGroup { name: "A".to_string(), files: vec![merged] }];
    let (lo, hi) = value_range(&groups, &ValueProjection::OpenedNodes);
    assert_eq!((lo, hi), (9 * SCALE, 9 * SCALE));
}

#[test]
fn histogram_counts_occurrences_in_key_order() {
    let keys = vec![2, 1, 2, 3, 2];
    let series = histogram_counts(&keys);
    assert_eq!(series, vec![(1, 1), (2, 3), (3, 1)]);
}

#[test]
fn grouped_histograms_round_values_to_whole_units() {
    let mut a1 = file("A", 1, 0, 0);
    a1.statistics.template_switch_amount = SCALE + SCALE / 2;  // 1.5 rounds to 2
    let mut a2 = file("A", 2, 0, 0);
    a2.statistics.template_switch_amount = 2 * SCALE;
    let groups = group_files(vec![a1, a2], &GroupNameProjection::Aligner).expect("equal sizes");
    let hs = grouped_histograms(groups, &ValueProjection::TemplateSwitchAmount);
    assert_eq!(hs.len(), 1);
    assert_eq!(hs[0].name, "A");
    assert_eq!(hs[0].series, vec![(2, 2)]);
    let (min_key, max_key, max_count) = histogram_bounds(&hs);
    assert_eq!((min_key, max_key, max_count), (2, 2, 2));
}

#[test]
fn group_names_compose_sequence_length_and_strategies() {
    let mut f = file("A", 1, 0, 0);
    f.parameters.strategies.node_ord = "fifo".to_string();
    let proj = GroupNameProjection::SequenceLengthStrategies(AlignmentStrategyStringifyer {
        relevant_strategies: vec![AlignmentStrategyName::NodeOrd],
    });
    assert_eq!(group_name(&f, &proj), "seq len 100; node_ord fifo");
    assert_eq!(group_name(&f, &GroupNameProjection::Aligner), "A");
}

#[test]
fn report_filters_select_by_aligner_and_strategies() {
    let mut ari = file("x", 1, 0, 0);
    ari.parameters.test_sequence_name = "ari_email".to_string();
    ari.parameters.strategies = AlignmentStrategies {
        node_ord: "anti-diagonal".to_string(),
        ts_min_length: "lookahead".to_string(),
    };
    let fpa = {
        let mut f = file("fpa", 2, 0, 0);
        f.parameters.test_sequence_name = "ari_email".to_string();
        f
    };
    let ts = file("tsalign", 3, 0, 0);
    let files = vec![ari, fpa, ts];
    let tsalign_only = filter_tsalign(&files);
    assert_eq!(tsalign_only.len(), 1);
    assert_eq!(tsalign_only[0].parameters.aligner, "tsalign");
    let ari_only = filter_ari_email(&files);
    assert_eq!(ari_only.len(), 2);
    assert_eq!(ari_only[0].parameters.seed, 1);
    assert_eq!(ari_only[1].parameters.seed, 2);
}
