use cost_trend::artifacts::{
    chart_path, chart_upper_bound, global_csv_path, service_csv_path, trend_csv_path,
    unified_csv_path,
};
use cost_trend::text::{
    decimal_text, digit_text, format_cost, format_percent, join, magnitude_of, trim_end,
};
use cost_trend::trend::TrendPoint;

#[test]
fn costs_are_written_with_two_decimals() {
    assert_eq!(format_cost(0), "0.00");
    assert_eq!(format_cost(1_234_567), "1.23");
    assert_eq!(format_cost(100_000_000), "100.00");
    assert_eq!(format_cost(150_500_000), "150.50");
    assert_eq!(format_cost(9_999), "0.01");
    assert_eq!(format_cost(4_999), "0.00");
    assert_eq!(format_cost(70_000), "0.07");
}

#[test]
fn half_a_cent_rounds_away_from_zero() {
    assert_eq!(format_cost(1_235_000), "1.24");
    assert_eq!(format_cost(5_000), "0.01");
    assert_eq!(format_cost(999_995_000), "1000.00");
    assert_eq!(format_cost(-1_235_000), "-1.24");
}

#[test]
fn negative_costs_carry_a_sign() {
    assert_eq!(format_cost(-500_000), "-0.50");
    assert_eq!(format_cost(-12_340_000), "-12.34");
    assert_eq!(format_cost(-1), "-0.00");
}

#[test]
fn extreme_costs_are_written_in_full() {
    assert_eq!(format_cost(i128::MAX), "170141183460469231731687303715884.11");
    assert_eq!(format_cost(i128::MIN), "-170141183460469231731687303715884.11");
}

#[test]
fn percentages_are_written_with_one_decimal() {
    assert_eq!(format_percent(50), "50.0");
    assert_eq!(format_percent(0), "0.0");
    assert_eq!(format_percent(-13), "-13.0");
    assert_eq!(format_percent(100), "100.0");
}

#[test]
fn numbers_are_written_in_decimal_digits() {
    assert_eq!(decimal_text(0), "0");
    assert_eq!(decimal_text(7), "7");
    assert_eq!(decimal_text(10), "10");
    assert_eq!(decimal_text(1_203_004), "1203004");
    assert_eq!(decimal_text(u128::MAX), "340282366920938463463374607431768211455");
    assert_eq!(digit_text(0), "0");
    assert_eq!(digit_text(9), "9");
    assert_eq!(magnitude_of(-5), 5);
    assert_eq!(magnitude_of(5), 5);
    assert_eq!(magnitude_of(i128::MIN), 1u128 << 127);
}

#[test]
fn parts_are_joined_with_the_separator_between() {
    assert_eq!(join(&vec!["a".to_string(), "b".to_string(), "c".to_string()], ", "), "a, b, c");
    assert_eq!(join(&vec!["only".to_string()], ", "), "only");
    assert_eq!(join(&Vec::new(), ", "), "");
    assert_eq!(join(&vec!["".to_string(), "".to_string()], "-"), "-");
}

#[test]
fn every_copy_of_the_suffix_is_trimmed() {
    assert_eq!(trim_end("report.csv", ".csv"), "report");
    assert_eq!(trim_end("report.csv.csv", ".csv"), "report");
    assert_eq!(trim_end("report", ".csv"), "report");
    assert_eq!(trim_end(".csv", ".csv"), "");
    assert_eq!(trim_end("a.csvx", ".csv"), "a.csvx");
    assert_eq!(trim_end("csv", ".csv"), "csv");
    assert_eq!(trim_end("anything", ""), "anything");
    assert_eq!(trim_end("größe.csv", ".csv"), "größe");
}

#[test]
fn csv_files_are_named_by_profile_and_account() {
    assert_eq!(
        trend_csv_path("out/report.csv", "prod", "123456789012"),
        "out/report_trend_profile_prod_account_123456789012.csv"
    );
    assert_eq!(
        service_csv_path("report", "dev", "42"),
        "report_service_summary_profile_dev_account_42.csv"
    );
    assert_eq!(global_csv_path("report.csv"), "report_global_summary.csv");
    assert_eq!(unified_csv_path("report.csv.csv"), "report_unified_view.csv");
}

#[test]
fn chart_file_is_named_by_profile_and_account() {
    assert_eq!(chart_path("prod", "123"), "cost_trend_profile_prod_account_123.png");
}

fn chart_points(costs: &[i128]) -> Vec<TrendPoint> {
    costs
        .iter()
        .map(|c| TrendPoint { period: "p".to_string(), total_cost: *c, mom_change_percent: 0 })
        .collect()
}

#[test]
fn chart_axis_ends_a_hundred_above_the_highest_cost() {
    assert_eq!(chart_upper_bound(&chart_points(&[100_000_000, 250_500_000])), Some(351_000_000));
    assert_eq!(chart_upper_bound(&chart_points(&[250_000_000])), Some(350_000_000));
    assert_eq!(chart_upper_bound(&chart_points(&[250_000_001])), Some(351_000_000));
}

#[test]
fn chart_axis_starts_from_at_least_one() {
    assert_eq!(chart_upper_bound(&chart_points(&[0, 0])), Some(101_000_000));
    assert_eq!(chart_upper_bound(&chart_points(&[300_000])), Some(101_000_000));
    assert_eq!(chart_upper_bound(&chart_points(&[-5_000_000])), Some(101_000_000));
}

#[test]
fn empty_trend_gets_no_chart() {
    assert_eq!(chart_upper_bound(&Vec::new()), None);
}

#[test]
fn chart_plan_holds_a_bar_for_each_period() {
    let report = cost_trend::report::AccountCostReport {
        profile: "prod".to_string(),
        account_id: "123".to_string(),
        account_name: "main".to_string(),
        cost_trend: vec![
            TrendPoint { period: "2025-01-01".to_string(), total_cost: 100_000_000, mom_change_percent: 0 },
            TrendPoint { period: "2025-02-01".to_string(), total_cost: 250_500_000, mom_change_percent: 151 },
        ],
        service_consumption: Vec::new(),
        total_cost: 350_500_000,
        average_monthly_cost: 175_250_000,
    };
    match cost_trend::artifacts::chart_plan(&report) {
        Some(plan) => {
            assert_eq!(plan.path, "cost_trend_profile_prod_account_123.png");
            assert_eq!(plan.labels, vec!["2025-01-01", "2025-02-01"]);
            assert_eq!(plan.heights, vec![100_000_000, 250_500_000]);
            assert_eq!(plan.ceiling, 351_000_000);
        }
        None => panic!("a trend of two periods gets a chart"),
    }
}

#[test]
fn account_without_trend_gets_no_chart_plan() {
    let report = cost_trend::report::AccountCostReport {
        profile: "prod".to_string(),
        account_id: "123".to_string(),
        account_name: "main".to_string(),
        cost_trend: Vec::new(),
        service_consumption: Vec::new(),
        total_cost: 0,
        average_monthly_cost: 0,
    };
    assert!(cost_trend::artifacts::chart_plan(&report).is_none());
}
