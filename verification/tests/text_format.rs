use tsalign_stats_plot::axis_transform::AxisTransform;
use tsalign_stats_plot::decimal::parse_decimal;
use tsalign_stats_plot::decimal::parse_runtime_entry;
use tsalign_stats_plot::decimal::render_fixed;
use tsalign_stats_plot::fixed::SCALE;
use tsalign_stats_plot::fixed::VALUE_LIMIT;
use tsalign_stats_plot::fixed::round_to_integer;
use tsalign_stats_plot::format_value::FormatValueError;
use tsalign_stats_plot::format_value::format_value;
use tsalign_stats_plot::runtime_memory_csv::output_runtime_memory_csv;
use tsalign_stats_plot::statistics_file::AlignmentParameters;
use tsalign_stats_plot::statistics_file::AlignmentStatistics;
use tsalign_stats_plot::statistics_file::PostProcessingError;
use tsalign_stats_plot::statistics_file::StatisticsFile;
use tsalign_stats_plot::statistics_file::alignment_strategies::AlignmentStrategies;
use tsalign_stats_plot::statistics_file::alignment_strategies::AlignmentStrategyName;
use tsalign_stats_plot::statistics_file::alignment_strategies::AlignmentStrategyStringifyer;
use tsalign_stats_plot::text::digits_string;
use tsalign_stats_plot::text::str_eq;
use tsalign_stats_plot::text::str_lt;

fn plain_file(aligner: &str, runtime_raw: Vec<String>, memory_raw: u64, cost: i128) -> StatisticsFile {
    StatisticsFile {
        statistics: AlignmentStatistics {
            cost,
            opened_nodes: 0,
            runtime: 0,
            memory: 0,
            template_switch_amount: 0,
        },
        parameters: AlignmentParameters {
            test_sequence_name: "seq".to_string(),
            aligner: aligner.to_string(),
            length: 10,
            cost: 0,
            seed: 0,
            alignment_config: String::new(),
            runtime_raw,
            memory_raw,
            strategies: AlignmentStrategies {
                node_ord: String::new(),
                ts_min_length: String::new(),
            },
        },
    }
}

#[test]
fn format_value_magnitudes() {
    assert_eq!(format_value(0).unwrap(), "0");
    assert_eq!(format_value(999 * SCALE).unwrap(), "999");
    assert_eq!(format_value(1_500 * SCALE).unwrap(), "1.50k");
    assert_eq!(format_value(150_000 * SCALE).unwrap(), "150k");
    assert_eq!(format_value(2_500_000_000 * SCALE).unwrap(), "2.50G");
    assert_eq!(format_value(25_000 * SCALE).unwrap(), "25.0k");
    assert_eq!(format_value(3_330_000 * SCALE).unwrap(), "3.33M");
    assert_eq!(format_value(45_000_000 * SCALE).unwrap(), "45.0M");
    assert_eq!(format_value(450_000_000 * SCALE).unwrap(), "450M");
    assert_eq!(format_value(45_000_000_000 * SCALE).unwrap(), "45.0G");
    assert_eq!(format_value(450_000_000_000 * SCALE).unwrap(), "450G");
}

#[test]
fn format_value_rounds_half_up() {
    // 999.6 rounds to 1000 with no suffix, as the tier is chosen first.
    assert_eq!(format_value(999 * SCALE + 6 * SCALE / 10).unwrap(), "1000");
    assert_eq!(format_value(1_005 * SCALE).unwrap(), "1.01k");
}

#[test]
fn format_value_rejects_unsupported_input() {
    assert_eq!(format_value(-1).unwrap_err(), FormatValueError::Unsupported);
    assert_eq!(format_value(VALUE_LIMIT).unwrap_err(), FormatValueError::TooLarge);
}

#[test]
fn decimal_parsing() {
    assert_eq!(parse_decimal("1.5"), Some(SCALE + SCALE / 2));
    assert_eq!(parse_decimal("0.000000001"), Some(1));
    assert_eq!(parse_decimal("12"), Some(12 * SCALE));
    assert_eq!(parse_decimal("5."), Some(5 * SCALE));
    assert_eq!(parse_decimal(".5"), None);
    assert_eq!(parse_decimal(""), None);
    assert_eq!(parse_decimal("1e3"), None);
    assert_eq!(parse_decimal("999999999999"), Some(999_999_999_999 * SCALE));
    assert_eq!(parse_decimal("1000000000000"), None);
}

#[test]
fn runtime_entry_parsing() {
    assert_eq!(parse_runtime_entry("1:30"), Some(90 * SCALE));
    assert_eq!(parse_runtime_entry("1:02:03"), Some(3_723 * SCALE));
    assert_eq!(parse_runtime_entry("0:00.5"), Some(SCALE / 2));
    assert_eq!(parse_runtime_entry("90"), None);
    assert_eq!(parse_runtime_entry("1:2:3:4"), None);
    assert_eq!(parse_runtime_entry("a:b"), None);
}

#[test]
fn fixed_point_rendering() {
    assert_eq!(render_fixed(12 * SCALE + SCALE / 2), "12.5");
    assert_eq!(render_fixed(12 * SCALE), "12");
    assert_eq!(render_fixed(0), "0");
    assert_eq!(render_fixed(5), "0.000000005");
    assert_eq!(render_fixed(SCALE / 4), "0.25");
}

#[test]
fn rounding_to_whole_units() {
    assert_eq!(round_to_integer(SCALE + SCALE / 2), 2);
    assert_eq!(round_to_integer(SCALE + SCALE / 2 - 1), 1);
    assert_eq!(round_to_integer(0), 0);
}

#[test]
fn digit_strings() {
    assert_eq!(digits_string(0), "0");
    assert_eq!(digits_string(907), "907");
}

#[test]
fn string_comparisons() {
    assert!(str_eq("abc", "abc"));
    assert!(!str_eq("abc", "abd"));
    assert!(str_lt("abc", "abd"));
    assert!(str_lt("ab", "b"));
    assert!(!str_lt("b", "ab"));
    assert!(!str_lt("a", "a"));
}

#[test]
fn axis_transform_labels() {
    assert_eq!(AxisTransform::Linear.label(), "linear");
    assert_eq!(AxisTransform::Log.label(), "log10");
    assert_eq!(AxisTransform::PolynomialRoot { degree: 3 }.label(), "3-th root");
}

#[test]
fn axis_transform_domains() {
    assert!(AxisTransform::Linear.admits(-SCALE));
    assert!(!AxisTransform::Log.admits(0));
    assert!(AxisTransform::Log.admits(1));
    assert!(AxisTransform::PolynomialRoot { degree: 2 }.admits(0));
    assert!(!AxisTransform::PolynomialRoot { degree: 2 }.admits(-1));
}

#[test]
fn stringifyer_reports_only_varying_strategies() {
    let selections = vec![
        AlignmentStrategies { node_ord: "a".to_string(), ts_min_length: "x".to_string() },
        AlignmentStrategies { node_ord: "b".to_string(), ts_min_length: "x".to_string() },
    ];
    let stringifyer = AlignmentStrategyStringifyer::new(&selections);
    assert_eq!(stringifyer.relevant_strategies, vec![AlignmentStrategyName::NodeOrd]);
    let mut file = plain_file("t", Vec::new(), 0, 0);
    file.parameters.strategies.node_ord = "a".to_string();
    assert_eq!(stringifyer.stringify(&file), "; node_ord a");
}

#[test]
fn ari_email_strategy_detection() {
    let yes = AlignmentStrategies {
        node_ord: "anti-diagonal".to_string(),
        ts_min_length: "lookahead".to_string(),
    };
    let no = AlignmentStrategies {
        node_ord: "anti-diagonal".to_string(),
        ts_min_length: "greedy".to_string(),
    };
    assert!(yes.is_ari_email());
    assert!(!no.is_ari_email());
}

#[test]
fn post_processing_unpacks_runtime_memory_and_cost() {
    let file = plain_file(
        "t",
        vec!["1:30".to_string(), "0:30.5".to_string()],
        2,
        7 * SCALE + SCALE / 2,
    );
    let out = file.deserialisation_post_processing().unwrap();
    assert_eq!(out.statistics.runtime, 120 * SCALE + SCALE / 2);
    assert_eq!(out.statistics.memory, 2 * 1024 * SCALE);
    assert_eq!(out.parameters.cost, 7);
    assert_eq!(out.statistics.cost, 7 * SCALE + SCALE / 2);
}

#[test]
fn post_processing_rejects_malformed_raw_data() {
    let bad_runtime = plain_file("t", vec!["ninety".to_string()], 0, 0);
    assert_eq!(
        bad_runtime.deserialisation_post_processing().unwrap_err(),
        PostProcessingError::MalformedRuntime,
    );
    let bad_memory = plain_file("t", Vec::new(), u64::MAX, 0);
    assert_eq!(
        bad_memory.deserialisation_post_processing().unwrap_err(),
        PostProcessingError::MemoryOutOfRange,
    );
}

#[test]
fn post_processing_rejects_out_of_range_runtime() {
    let file = plain_file("t", vec!["999999999999:0".to_string()], 0, 0);
    assert_eq!(
        file.deserialisation_post_processing().unwrap_err(),
        PostProcessingError::RuntimeOutOfRange,
    );
}

#[test]
fn fraction_digits_beyond_resolution_are_ignored() {
    assert_eq!(parse_decimal("0.0000000001"), Some(0));
    assert_eq!(parse_decimal("1.0000000019"), Some(SCALE + 1));
}

#[test]
fn stringifyer_reports_both_strategies_in_kind_order() {
    let selections = vec![
        AlignmentStrategies { node_ord: "a".to_string(), ts_min_length: "x".to_string() },
        AlignmentStrategies { node_ord: "b".to_string(), ts_min_length: "y".to_string() },
    ];
    let stringifyer = AlignmentStrategyStringifyer::new(&selections);
    assert_eq!(
        stringifyer.relevant_strategies,
        vec![AlignmentStrategyName::NodeOrd, AlignmentStrategyName::TsMinLength],
    );
    let mut file = plain_file("t", Vec::new(), 0, 0);
    file.parameters.strategies = AlignmentStrategies {
        node_ord: "a".to_string(),
        ts_min_length: "x".to_string(),
    };
    assert_eq!(stringifyer.stringify(&file), "; node_ord a; ts_min_len x");
}

#[test]
fn csv_lists_runtime_and_memory_per_run() {
    let mut a = plain_file("alpha", Vec::new(), 0, 0);
    a.statistics.runtime = SCALE + SCALE / 2;
    a.statistics.memory = 2_048 * SCALE;
    let mut b = plain_file("beta", Vec::new(), 0, 0);
    b.statistics.runtime = 2 * SCALE;
    b.statistics.memory = 0;
    let csv = output_runtime_memory_csv(&vec![a, b]);
    assert_eq!(
        csv,
        "aligner,runtime_seconds,memory_bytes\nalpha,1.5,2048\nbeta,2,0\n",
    );
}
