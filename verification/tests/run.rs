use cost_trend::ledger::{aggregate, GroupCost, PeriodResult};
use cost_trend::money::COST_LIMIT;
use cost_trend::report::{build_account_report, UnifiedAccountRow};
use cost_trend::run::{assemble, entries_fit, AccountEntry, ReportSet, RunEnd};
use cost_trend::unified::{global_summary, global_totals};
use cost_trend::window::day_of;

fn run_result(period: &str, groups: &[(&str, i128)]) -> PeriodResult {
    PeriodResult {
        period: period.to_string(),
        groups: groups
            .iter()
            .map(|(key, amount)| GroupCost { key: key.to_string(), amount: *amount })
            .collect(),
    }
}

fn run_entry(profile: &str, id: &str, name: &str, results: Vec<PeriodResult>) -> AccountEntry {
    AccountEntry {
        profile: profile.to_string(),
        account_id: id.to_string(),
        account_name: name.to_string(),
        ledger: aggregate(&results),
    }
}

fn end_day() -> i32 {
    day_of(&"2025-07-04".to_string()).unwrap()
}

fn two_accounts() -> Vec<AccountEntry> {
    vec![
        run_entry(
            "dev",
            "222",
            "B",
            vec![
                run_result("2025-02-01", &[("rds", 30_000_000)]),
                run_result("2025-03-01", &[("rds", 60_000_000)]),
            ],
        ),
        run_entry(
            "prod",
            "111",
            "A",
            vec![
                run_result("2025-01-01", &[("ec2", 100_000_000), ("s3", 50_000_000)]),
                run_result("2025-02-01", &[("ec2", 200_000_000)]),
            ],
        ),
    ]
}

fn report_set() -> ReportSet {
    match assemble(two_accounts(), end_day()) {
        Ok(set) => set,
        Err(_) => panic!("two accounts give a report set"),
    }
}

#[test]
fn periods_of_all_accounts_are_put_in_order() {
    let set = report_set();
    assert_eq!(set.periods, vec!["2025-01-01", "2025-02-01", "2025-03-01"]);
    assert_eq!(set.recent_periods, vec!["2025-02-01", "2025-03-01"]);
}

#[test]
fn every_trend_spans_all_periods_of_the_run() {
    let set = report_set();
    assert_eq!(set.accounts.len(), 2);
    for report in &set.accounts {
        assert_eq!(report.cost_trend.len(), set.periods.len());
        for (point, period) in report.cost_trend.iter().zip(set.periods.iter()) {
            assert_eq!(&point.period, period);
        }
        assert_eq!(report.cost_trend[0].mom_change_percent, 0);
    }
    let b: Vec<(i128, i128)> =
        set.accounts[0].cost_trend.iter().map(|p| (p.total_cost, p.mom_change_percent)).collect();
    assert_eq!(b, vec![(0, 0), (30_000_000, 0), (60_000_000, 100)]);
    let a: Vec<(i128, i128)> =
        set.accounts[1].cost_trend.iter().map(|p| (p.total_cost, p.mom_change_percent)).collect();
    assert_eq!(a, vec![(150_000_000, 0), (200_000_000, 33), (0, -100)]);
}

#[test]
fn reports_carry_totals_and_averages() {
    let set = report_set();
    let b = &set.accounts[0];
    assert_eq!((b.profile.as_str(), b.account_id.as_str(), b.account_name.as_str()), ("dev", "222", "B"));
    assert_eq!(b.total_cost, 90_000_000);
    assert_eq!(b.average_monthly_cost, 30_000_000);
    let a = &set.accounts[1];
    assert_eq!((a.profile.as_str(), a.account_id.as_str(), a.account_name.as_str()), ("prod", "111", "A"));
    assert_eq!(a.total_cost, 350_000_000);
    assert_eq!(a.average_monthly_cost, 116_666_667);
    let shares: Vec<(&str, i128, i128)> = a
        .service_consumption
        .iter()
        .map(|s| (s.service.as_str(), s.total_cost, s.percent_of_total))
        .collect();
    assert_eq!(shares, vec![("ec2", 300_000_000, 86), ("s3", 50_000_000, 14)]);
}

#[test]
fn unified_rows_carry_the_costs_as_aggregated() {
    let set = report_set();
    assert_eq!(set.unified_view.len(), 2);
    let b = &set.unified_view[0];
    assert_eq!((b.profile.as_str(), b.account_id.as_str(), b.account_name.as_str()), ("dev", "222", "B"));
    assert_eq!(b.monthly_costs.cost(&"2025-02-01".to_string()), 30_000_000);
    assert_eq!(b.monthly_costs.cost(&"2025-01-01".to_string()), 0);
    let a = &set.unified_view[1];
    assert_eq!(a.monthly_costs.cost(&"2025-01-01".to_string()), 150_000_000);
    assert_eq!(a.monthly_costs.cost(&"2025-02-01".to_string()), 200_000_000);
}

#[test]
fn global_summary_covers_the_recent_window() {
    let set = report_set();
    let global: Vec<(&str, i128)> =
        set.global_monthly.entries.iter().map(|e| (e.period.as_str(), e.cost)).collect();
    assert_eq!(
        global,
        vec![("2025-02-01", 230_000_000), ("2025-03-01", 60_000_000), ("2025-01-01", 150_000_000)]
    );
    assert_eq!(set.global_summary.total_cost, 290_000_000);
    assert_eq!(set.global_summary.average_monthly_cost, 145_000_000);
}

#[test]
fn global_summary_without_recent_periods_is_zero() {
    let entries = vec![run_entry("p", "1", "old", vec![run_result("2020-01-01", &[("ec2", 5_000_000)])])];
    match assemble(entries, end_day()) {
        Ok(set) => {
            assert_eq!(set.periods, vec!["2020-01-01"]);
            assert!(set.recent_periods.is_empty());
            assert_eq!(set.global_summary.total_cost, 0);
            assert_eq!(set.global_summary.average_monthly_cost, 0);
            assert_eq!(set.accounts[0].total_cost, 5_000_000);
        }
        Err(_) => panic!("one account gives a report set"),
    }
}

#[test]
fn run_without_accounts_has_no_data() {
    assert!(matches!(assemble(Vec::new(), end_day()), Err(RunEnd::NoData)));
}

#[test]
fn run_beyond_the_cost_limit_is_out_of_range() {
    let entries = vec![
        run_entry("p", "1", "a", vec![run_result("2025-01-01", &[("x", COST_LIMIT)])]),
        run_entry("p", "2", "b", vec![run_result("2025-01-01", &[("x", 1)])]),
    ];
    assert!(!entries_fit(&entries));
    assert!(matches!(assemble(entries, end_day()), Err(RunEnd::CostOutOfRange)));
    let entries = vec![
        run_entry("p", "1", "a", vec![run_result("2025-01-01", &[("x", COST_LIMIT - 1)])]),
        run_entry("p", "2", "b", vec![run_result("2025-01-01", &[("x", -1)])]),
    ];
    assert!(entries_fit(&entries));
    assert!(assemble(entries, end_day()).is_ok());
}

#[test]
fn account_without_results_reports_zero_everywhere() {
    let entries = vec![
        run_entry("p", "1", "busy", vec![run_result("2025-06-01", &[("x", 4_000_000)])]),
        run_entry("p", "2", "idle", Vec::new()),
    ];
    match assemble(entries, end_day()) {
        Ok(set) => {
            let idle = &set.accounts[1];
            assert_eq!(idle.cost_trend.len(), 1);
            assert_eq!(idle.cost_trend[0].total_cost, 0);
            assert_eq!(idle.total_cost, 0);
            assert_eq!(idle.average_monthly_cost, 0);
            assert!(idle.service_consumption.is_empty());
        }
        Err(_) => panic!("two accounts give a report set"),
    }
}

#[test]
fn report_over_an_empty_universe_has_average_zero() {
    let ledger = aggregate(&vec![run_result("2025-01-01", &[("x", 9)])]);
    let row = UnifiedAccountRow {
        profile: "p".to_string(),
        account_id: "1".to_string(),
        account_name: "n".to_string(),
        monthly_costs: ledger.monthly,
    };
    let report = build_account_report(&row, ledger.services, &Vec::new());
    assert!(report.cost_trend.is_empty());
    assert_eq!(report.total_cost, 9);
    assert_eq!(report.average_monthly_cost, 0);
    assert_eq!(report.service_consumption.len(), 1);
}

#[test]
fn global_totals_add_the_rows_up() {
    let set = report_set();
    let global = global_totals(&set.unified_view);
    assert_eq!(global.cost(&"2025-02-01".to_string()), 230_000_000);
    assert_eq!(global.total_cost(), 440_000_000);
    let all = global_summary(&global, &set.periods);
    assert_eq!(all.total_cost, 440_000_000);
    assert_eq!(all.average_monthly_cost, 146_666_667);
    let none = global_summary(&global, &Vec::new());
    assert_eq!(none.total_cost, 0);
    assert_eq!(none.average_monthly_cost, 0);
}

#[test]
fn assembled_report_set_is_renderable() {
    let mut set = report_set();
    assert!(set.is_renderable());
    assert!(set.accounts[0].is_renderable());
    set.accounts[1].cost_trend[0].total_cost = COST_LIMIT + 1;
    assert!(!set.accounts[1].is_renderable());
    assert!(!set.is_renderable());
    let mut set = report_set();
    let repeated = cost_trend::costs::PeriodCost { period: "2025-02-01".to_string(), cost: 1 };
    set.unified_view[0].monthly_costs.entries.push(repeated);
    assert!(!set.is_renderable());
    let mut set = report_set();
    set.accounts[1].service_consumption[0].monthly.entries[0].cost = -COST_LIMIT - 1;
    assert!(!set.is_renderable());
}

#[test]
fn aggregated_entries_are_well_formed() {
    let mut entries = two_accounts();
    assert!(cost_trend::run::entries_ok(&entries));
    assert!(cost_trend::run::entries_ok(&Vec::new()));
    entries[1].ledger.monthly.entries[0].cost += 1;
    assert!(!cost_trend::run::entries_ok(&entries));
}
