use cost_trend::money::{rounded_quotient, COST_LIMIT, UNITS_PER_CURRENCY};
use cost_trend::report::average;

#[test]
fn ratios_round_to_the_nearest_integer() {
    assert_eq!(rounded_quotient(1, 3), 0);
    assert_eq!(rounded_quotient(2, 3), 1);
    assert_eq!(rounded_quotient(10, 4), 3);
    assert_eq!(rounded_quotient(9, 4), 2);
    assert_eq!(rounded_quotient(0, 5), 0);
    assert_eq!(rounded_quotient(600, 100), 6);
}

#[test]
fn ties_go_away_from_zero() {
    assert_eq!(rounded_quotient(5, 2), 3);
    assert_eq!(rounded_quotient(-5, 2), -3);
    assert_eq!(rounded_quotient(5, -2), -3);
    assert_eq!(rounded_quotient(-5, -2), 3);
    assert_eq!(rounded_quotient(7, 2), 4);
    assert_eq!(rounded_quotient(-7, 2), -4);
}

#[test]
fn the_cost_limit_leaves_room_for_percentages() {
    assert_eq!(UNITS_PER_CURRENCY, 1_000_000);
    assert_eq!(rounded_quotient(100 * COST_LIMIT, COST_LIMIT), 100);
    assert_eq!(rounded_quotient(200 * COST_LIMIT, 1), 200 * COST_LIMIT);
}

#[test]
fn average_is_total_over_periods() {
    assert_eq!(average(250_000_000, 2), 125_000_000);
    assert_eq!(average(10, 4), 3);
    assert_eq!(average(-10, 4), -3);
    assert_eq!(average(7, 1), 7);
}

#[test]
fn average_over_no_period_is_zero() {
    assert_eq!(average(250_000_000, 0), 0);
}
