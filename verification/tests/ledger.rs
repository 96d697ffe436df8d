use cost_trend::costs::MonthlyCosts;
use cost_trend::ledger::{
    aggregate, ingest, record_group, results_fit, service_position, GroupCost, PeriodResult,
    ServiceCosts, SkipReason,
};
use cost_trend::money::COST_LIMIT;

fn ledger_result(period: &str, groups: &[(&str, i128)]) -> PeriodResult {
    PeriodResult {
        period: period.to_string(),
        groups: groups
            .iter()
            .map(|(key, amount)| GroupCost { key: key.to_string(), amount: *amount })
            .collect(),
    }
}

fn ledger_periods(table: &MonthlyCosts) -> Vec<(String, i128)> {
    table.entries.iter().map(|e| (e.period.clone(), e.cost)).collect()
}

#[test]
fn aggregate_sums_groups_by_period() {
    let results = vec![
        ledger_result("2025-01-01", &[("ec2", 10), ("s3", 5)]),
        ledger_result("2025-02-01", &[("ec2", 7)]),
    ];
    let ledger = aggregate(&results);
    assert_eq!(
        ledger_periods(&ledger.monthly),
        vec![("2025-01-01".to_string(), 15), ("2025-02-01".to_string(), 7)]
    );
    assert_eq!(ledger.services.len(), 2);
    assert_eq!(ledger.services[0].service, "ec2");
    assert_eq!(
        ledger_periods(&ledger.services[0].monthly),
        vec![("2025-01-01".to_string(), 10), ("2025-02-01".to_string(), 7)]
    );
    assert_eq!(ledger.services[1].service, "s3");
    assert_eq!(ledger_periods(&ledger.services[1].monthly), vec![("2025-01-01".to_string(), 5)]);
}

#[test]
fn repeated_group_and_period_are_summed() {
    let results = vec![
        ledger_result("2025-01-01", &[("ec2", 10), ("ec2", 4)]),
        ledger_result("2025-01-01", &[("ec2", 1)]),
    ];
    let ledger = aggregate(&results);
    assert_eq!(ledger_periods(&ledger.monthly), vec![("2025-01-01".to_string(), 15)]);
    assert_eq!(ledger.services.len(), 1);
    assert_eq!(ledger_periods(&ledger.services[0].monthly), vec![("2025-01-01".to_string(), 15)]);
}

#[test]
fn period_without_groups_is_recorded_with_no_cost() {
    let results = vec![ledger_result("2025-01-01", &[]), ledger_result("2025-02-01", &[("s3", 3)])];
    let ledger = aggregate(&results);
    assert_eq!(
        ledger_periods(&ledger.monthly),
        vec![("2025-01-01".to_string(), 0), ("2025-02-01".to_string(), 3)]
    );
    assert_eq!(ledger.monthly.cost(&"2025-01-01".to_string()), 0);
}

#[test]
fn periods_and_groups_keep_the_order_of_first_report() {
    let results = vec![
        ledger_result("2025-03-01", &[("zeta", 1), ("alpha", 2)]),
        ledger_result("2025-01-01", &[("alpha", 3), ("mid", 4)]),
        ledger_result("2025-03-01", &[("mid", 5)]),
    ];
    let ledger = aggregate(&results);
    let periods: Vec<String> = ledger.monthly.period_keys();
    assert_eq!(periods, vec!["2025-03-01".to_string(), "2025-01-01".to_string()]);
    let names: Vec<&str> = ledger.services.iter().map(|s| s.service.as_str()).collect();
    assert_eq!(names, vec!["zeta", "alpha", "mid"]);
    assert_eq!(
        ledger_periods(&ledger.services[2].monthly),
        vec![("2025-01-01".to_string(), 4), ("2025-03-01".to_string(), 5)]
    );
}

#[test]
fn aggregate_of_nothing_is_empty() {
    let ledger = aggregate(&Vec::new());
    assert!(ledger.monthly.entries.is_empty());
    assert!(ledger.services.is_empty());
    assert_eq!(ledger.monthly.total_cost(), 0);
}

#[test]
fn groups_add_up_to_the_periods() {
    let results = vec![
        ledger_result("2025-01-01", &[("a", 10), ("b", -3)]),
        ledger_result("2025-02-01", &[("a", 2), ("c", 8)]),
    ];
    let ledger = aggregate(&results);
    let by_group: i128 = ledger.services.iter().map(|s| s.monthly.total_cost()).sum();
    assert_eq!(ledger.monthly.total_cost(), 17);
    assert_eq!(by_group, 17);
}

#[test]
fn absent_period_reads_as_zero() {
    let mut table = MonthlyCosts::new();
    table.add(&"2025-01-01".to_string(), 12);
    assert_eq!(table.cost(&"2025-01-01".to_string()), 12);
    assert_eq!(table.cost(&"2025-02-01".to_string()), 0);
    assert_eq!(table.position(&"2025-02-01".to_string()), None);
    assert_eq!(table.position(&"2025-01-01".to_string()), Some(0));
}

#[test]
fn adding_to_a_held_period_keeps_its_place() {
    let mut table = MonthlyCosts::new();
    table.add(&"b".to_string(), 1);
    table.add(&"a".to_string(), 2);
    table.add(&"b".to_string(), 10);
    assert_eq!(ledger_periods(&table), vec![("b".to_string(), 11), ("a".to_string(), 2)]);
    assert_eq!(table.total_cost(), 13);
    assert_eq!(table.weight(), 13);
}

#[test]
fn weight_counts_magnitudes() {
    let mut table = MonthlyCosts::new();
    table.add(&"a".to_string(), -4);
    table.add(&"b".to_string(), 6);
    assert_eq!(table.total_cost(), 2);
    assert_eq!(table.weight(), 10);
}

#[test]
fn merge_adds_period_by_period() {
    let mut left = MonthlyCosts::new();
    left.add(&"a".to_string(), 1);
    left.add(&"b".to_string(), 2);
    let mut right = MonthlyCosts::new();
    right.add(&"c".to_string(), 5);
    right.add(&"a".to_string(), 10);
    left.merge(&right);
    assert_eq!(
        ledger_periods(&left),
        vec![("a".to_string(), 11), ("b".to_string(), 2), ("c".to_string(), 5)]
    );
}

#[test]
fn total_within_counts_only_the_given_periods() {
    let mut table = MonthlyCosts::new();
    table.add(&"a".to_string(), 1);
    table.add(&"b".to_string(), 2);
    table.add(&"c".to_string(), 4);
    assert_eq!(table.total_within(&vec!["c".to_string(), "a".to_string(), "x".to_string()]), 5);
    assert_eq!(table.total_within(&Vec::new()), 0);
}

#[test]
fn record_group_opens_a_table_for_a_new_group() {
    let mut services: Vec<ServiceCosts> = Vec::new();
    record_group(&mut services, &"ec2".to_string(), &"2025-01-01".to_string(), 5);
    record_group(&mut services, &"s3".to_string(), &"2025-01-01".to_string(), 1);
    record_group(&mut services, &"ec2".to_string(), &"2025-02-01".to_string(), 7);
    assert_eq!(services.len(), 2);
    assert_eq!(service_position(&services, &"s3".to_string()), Some(1));
    assert_eq!(service_position(&services, &"rds".to_string()), None);
    assert_eq!(
        ledger_periods(&services[0].monthly),
        vec![("2025-01-01".to_string(), 5), ("2025-02-01".to_string(), 7)]
    );
}

#[test]
fn results_fit_up_to_the_cost_limit() {
    assert!(results_fit(&vec![ledger_result("a", &[("x", COST_LIMIT)])]));
    assert!(results_fit(&vec![ledger_result("a", &[("x", COST_LIMIT - 1), ("y", -1)])]));
    assert!(!results_fit(&vec![ledger_result("a", &[("x", COST_LIMIT), ("y", -1)])]));
    assert!(!results_fit(&vec![ledger_result("a", &[("x", i128::MIN)])]));
    assert!(!results_fit(&vec![ledger_result("a", &[("x", i128::MAX)])]));
    assert!(results_fit(&Vec::new()));
}

#[test]
fn ingest_skips_an_account_without_answer() {
    assert!(matches!(ingest(None), Err(SkipReason::FetchFailed)));
}

#[test]
fn ingest_skips_an_account_beyond_the_cost_limit() {
    let results = vec![ledger_result("a", &[("x", COST_LIMIT), ("y", 1)])];
    assert!(matches!(ingest(Some(results)), Err(SkipReason::CostOutOfRange)));
}

#[test]
fn ingest_aggregates_an_answer() {
    let results = vec![ledger_result("a", &[("x", 4), ("y", 1)])];
    match ingest(Some(results)) {
        Ok(ledger) => assert_eq!(ledger.monthly.total_cost(), 5),
        Err(_) => panic!("an answer within the limit is aggregated"),
    }
}

#[test]
fn tables_know_whether_they_are_well_formed() {
    let mut table = MonthlyCosts::new();
    assert!(table.is_wf());
    table.add(&"a".to_string(), COST_LIMIT - 1);
    table.add(&"b".to_string(), -1);
    assert!(table.is_wf());
    table.entries[1].cost = -2;
    assert!(!table.is_wf());
    table.entries[1].cost = 1;
    table.entries[1].period = "a".to_string();
    assert!(!table.is_wf());
    table.entries[1].period = "c".to_string();
    table.entries[0].cost = i128::MIN;
    assert!(!table.is_wf());
}

#[test]
fn ledgers_know_whether_they_are_well_formed() {
    let results = vec![
        ledger_result("2025-01-01", &[("a", 10), ("b", -3)]),
        ledger_result("2025-02-01", &[("a", 2)]),
    ];
    let mut ledger = aggregate(&results);
    assert!(ledger.is_wf());
    assert!(cost_trend::ledger::group_tables_wf(&ledger.services));
    ledger.services[1].service = "a".to_string();
    assert!(!cost_trend::ledger::group_tables_wf(&ledger.services));
    assert!(!ledger.is_wf());
    let mut ledger = aggregate(&results);
    ledger.services[0].monthly.entries[0].cost = 11;
    assert!(cost_trend::ledger::group_tables_wf(&ledger.services));
    assert!(!ledger.is_wf());
    let mut ledger = aggregate(&results);
    ledger.services[0].monthly.entries[1].period = "2025-01-01".to_string();
    assert!(!ledger.is_wf());
}
