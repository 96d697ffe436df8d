use cost_trend::costs::MonthlyCosts;
use cost_trend::trend::{cost_trend, month_over_month};

fn trend_table_of(rows: &[(&str, i128)]) -> MonthlyCosts {
    let mut table = MonthlyCosts::new();
    for (period, cost) in rows {
        table.add(&period.to_string(), *cost);
    }
    table
}

fn trend_periods(keys: &[&str]) -> Vec<String> {
    keys.iter().map(|k| k.to_string()).collect()
}

#[test]
fn two_periods_give_fifty_percent() {
    let monthly = trend_table_of(&[("2025-01-01", 100_000_000), ("2025-02-01", 150_000_000)]);
    let universe = trend_periods(&["2025-01-01", "2025-02-01"]);
    let trend = cost_trend(&universe, &monthly);
    assert_eq!(trend.len(), 2);
    assert_eq!(trend[0].period, "2025-01-01");
    assert_eq!(trend[0].total_cost, 100_000_000);
    assert_eq!(trend[0].mom_change_percent, 0);
    assert_eq!(trend[1].period, "2025-02-01");
    assert_eq!(trend[1].total_cost, 150_000_000);
    assert_eq!(trend[1].mom_change_percent, 50);
}

#[test]
fn change_after_a_period_of_no_cost_is_zero() {
    let monthly = trend_table_of(&[("2025-01-01", 0), ("2025-02-01", 100_000_000)]);
    let universe = trend_periods(&["2025-01-01", "2025-02-01"]);
    let trend = cost_trend(&universe, &monthly);
    assert_eq!(trend[1].total_cost, 100_000_000);
    assert_eq!(trend[1].mom_change_percent, 0);
}

#[test]
fn a_drop_to_no_cost_is_minus_a_hundred_percent() {
    let monthly = trend_table_of(&[("2025-01-01", 100_000_000), ("2025-02-01", 0)]);
    let universe = trend_periods(&["2025-01-01", "2025-02-01"]);
    let trend = cost_trend(&universe, &monthly);
    assert_eq!(trend[0].mom_change_percent, 0);
    assert_eq!(trend[1].total_cost, 0);
    assert_eq!(trend[1].mom_change_percent, -100);
}

#[test]
fn trend_has_one_point_for_each_period_of_the_universe() {
    let monthly = trend_table_of(&[("2025-03-01", 30_000_000), ("2025-01-01", 10_000_000)]);
    let universe = trend_periods(&["2025-01-01", "2025-02-01", "2025-03-01", "2025-04-01"]);
    let trend = cost_trend(&universe, &monthly);
    assert_eq!(trend.len(), universe.len());
    for (point, period) in trend.iter().zip(universe.iter()) {
        assert_eq!(&point.period, period);
    }
    assert_eq!(trend[0].total_cost, 10_000_000);
    assert_eq!(trend[1].total_cost, 0);
    assert_eq!(trend[2].total_cost, 30_000_000);
    assert_eq!(trend[3].total_cost, 0);
    assert_eq!(trend[0].mom_change_percent, 0);
    assert_eq!(trend[1].mom_change_percent, -100);
    assert_eq!(trend[2].mom_change_percent, 0);
    assert_eq!(trend[3].mom_change_percent, -100);
}

#[test]
fn trend_over_an_empty_universe_is_empty() {
    let monthly = trend_table_of(&[("2025-01-01", 10_000_000)]);
    let trend = cost_trend(&Vec::new(), &monthly);
    assert!(trend.is_empty());
}

#[test]
fn first_point_shows_no_change() {
    let monthly = trend_table_of(&[("a", 5), ("b", 9)]);
    for universe in [trend_periods(&["a"]), trend_periods(&["b", "a"]), trend_periods(&["z"])] {
        let trend = cost_trend(&universe, &monthly);
        assert_eq!(trend[0].mom_change_percent, 0);
    }
}

#[test]
fn month_over_month_rounds_half_away_from_zero() {
    assert_eq!(month_over_month(Some(3), 4), 33);
    assert_eq!(month_over_month(Some(3), 5), 67);
    assert_eq!(month_over_month(Some(200), 100), -50);
    assert_eq!(month_over_month(Some(8), 9), 13);
    assert_eq!(month_over_month(Some(8), 7), -13);
    assert_eq!(month_over_month(Some(-4), 2), -150);
}

#[test]
fn month_over_month_is_zero_without_a_base() {
    assert_eq!(month_over_month(None, 123), 0);
    assert_eq!(month_over_month(Some(0), 123), 0);
    assert_eq!(month_over_month(Some(0), -9), 0);
    assert_eq!(month_over_month(Some(0), 0), 0);
}
