use cost_trend::ledger::{aggregate, GroupCost, PeriodResult};
use cost_trend::run::{assemble, AccountEntry, ReportSet};
use cost_trend::tables::{
    push_cost_cells, push_texts, service_pages, service_table, summary_table, trend_table,
    unified_pages, unified_table, Table,
};
use cost_trend::window::day_of;

fn table_entry(profile: &str, id: &str, name: &str, cells: &[(&str, &str, i128)]) -> AccountEntry {
    let results: Vec<PeriodResult> = cells
        .iter()
        .map(|(period, key, amount)| PeriodResult {
            period: period.to_string(),
            groups: vec![GroupCost { key: key.to_string(), amount: *amount }],
        })
        .collect();
    AccountEntry {
        profile: profile.to_string(),
        account_id: id.to_string(),
        account_name: name.to_string(),
        ledger: aggregate(&results),
    }
}

fn table_set() -> ReportSet {
    let entries = vec![
        table_entry(
            "prod",
            "111",
            "A",
            &[
                ("2025-05-01", "ec2", 100_000_000),
                ("2025-05-01", "s3", 50_500_000),
                ("2025-06-01", "ec2", 200_000_000),
            ],
        ),
        table_entry("dev", "222", "B", &[("2025-06-01", "rds", 30_000_000)]),
    ];
    match assemble(entries, day_of(&"2025-07-04".to_string()).unwrap()) {
        Ok(set) => set,
        Err(_) => panic!("two accounts give a report set"),
    }
}

fn cells(table: &Table) -> Vec<Vec<String>> {
    let mut all = vec![table.header.clone()];
    all.extend(table.rows.iter().cloned());
    all
}

fn many_months(count: usize) -> Vec<String> {
    (0..count).map(|i| format!("2025-{:02}-01", i + 1)).collect()
}

#[test]
fn unified_view_shows_one_row_for_each_account() {
    let set = table_set();
    let table = unified_table(&set.unified_view, &set.recent_periods);
    assert_eq!(
        cells(&table),
        vec![
            vec!["Profile", "Account ID", "Account Name", "2025-05-01", "2025-06-01"],
            vec!["prod", "111", "A", "150.50", "200.00"],
            vec!["dev", "222", "B", "0.00", "30.00"],
        ]
    );
}

#[test]
fn trend_table_shows_cost_and_change() {
    let set = table_set();
    let table = trend_table(&set.accounts[0].cost_trend);
    assert_eq!(
        cells(&table),
        vec![
            vec!["Month", "Total Cost (USD)", "MoM Change (%)"],
            vec!["2025-05-01", "150.50", "0.0"],
            vec!["2025-06-01", "200.00", "33.0"],
        ]
    );
    let empty = trend_table(&Vec::new());
    assert_eq!(cells(&empty), vec![vec!["Month", "Total Cost (USD)", "MoM Change (%)"]]);
}

#[test]
fn service_table_shows_the_ranked_shares() {
    let set = table_set();
    let table = service_table(&set.accounts[0].service_consumption, &set.recent_periods);
    assert_eq!(
        cells(&table),
        vec![
            vec!["Service", "2025-05-01", "2025-06-01", "Total Cost (USD)", "Percent of Total (%)"],
            vec!["ec2", "100.00", "200.00", "300.00", "86.0"],
            vec!["s3", "50.50", "0.00", "50.50", "14.0"],
        ]
    );
}

#[test]
fn summary_table_shows_total_and_average() {
    let set = table_set();
    let table = summary_table(&set.global_summary);
    assert_eq!(
        cells(&table),
        vec![
            vec!["Metric", "Value"],
            vec!["Total Cost (USD)", "380.50"],
            vec!["Average Monthly Cost (USD)", "190.25"],
        ]
    );
}

#[test]
fn wide_unified_view_is_cut_into_pages_of_seven() {
    let set = table_set();
    let periods = many_months(9);
    let pages = unified_pages(&set.unified_view, &periods);
    assert_eq!(pages.len(), 2);
    assert_eq!(pages[0].number, 1);
    assert_eq!(pages[1].number, 2);
    assert_eq!(pages[0].periods, periods[..7].to_vec());
    assert_eq!(pages[1].periods, periods[7..].to_vec());
    assert_eq!(pages[0].table.header.len(), 3 + 7);
    assert_eq!(pages[1].table.header.len(), 3 + 2);
    assert_eq!(pages[0].table.header[..3].to_vec(), vec!["Profile", "Account ID", "Account Name"]);
    assert_eq!(pages[1].table.header[..3].to_vec(), vec!["Profile", "Account ID", "Account Name"]);
    assert_eq!(pages[0].table.rows[0][3 + 4], "150.50");
    assert_eq!(pages[0].table.rows[0][3 + 5], "200.00");
    assert_eq!(pages[1].table.rows[0], vec!["prod", "111", "A", "0.00", "0.00"]);
    let shown: Vec<String> = pages.iter().flat_map(|p| p.periods.clone()).collect();
    assert_eq!(shown, periods);
}

#[test]
fn wide_service_table_is_cut_into_pages_of_eight() {
    let set = table_set();
    let periods = many_months(9);
    let pages = service_pages(&set.accounts[0].service_consumption, &periods);
    assert_eq!(pages.len(), 2);
    assert_eq!(pages[0].periods.len(), 8);
    assert_eq!(pages[1].periods.len(), 1);
    assert_eq!(pages[0].table.header.len(), 1 + 8 + 2);
    assert_eq!(pages[1].table.header, vec!["Service", "2025-09-01", "Total Cost (USD)", "Percent of Total (%)"]);
    assert_eq!(pages[1].table.rows[0], vec!["ec2", "0.00", "300.00", "86.0"]);
    assert_eq!(pages[1].number, 2);
}

#[test]
fn no_periods_give_no_page() {
    let set = table_set();
    assert!(unified_pages(&set.unified_view, &Vec::new()).is_empty());
    assert!(service_pages(&set.accounts[0].service_consumption, &Vec::new()).is_empty());
}

#[test]
fn rendering_twice_gives_the_same_tables() {
    let set = table_set();
    let first = unified_pages(&set.unified_view, &set.periods);
    let second = unified_pages(&set.unified_view, &set.periods);
    assert_eq!(first.len(), second.len());
    for (a, b) in first.iter().zip(second.iter()) {
        assert_eq!(a.number, b.number);
        assert_eq!(cells(&a.table), cells(&b.table));
    }
    for report in &set.accounts {
        assert_eq!(cells(&trend_table(&report.cost_trend)), cells(&trend_table(&report.cost_trend)));
        assert_eq!(
            cells(&service_table(&report.service_consumption, &set.periods)),
            cells(&service_table(&report.service_consumption, &set.periods))
        );
    }
    assert_eq!(cells(&summary_table(&set.global_summary)), cells(&summary_table(&set.global_summary)));
}

#[test]
fn cells_are_appended_behind_what_is_there() {
    let set = table_set();
    let mut row = vec!["fixed".to_string()];
    push_texts(&mut row, &vec!["a".to_string(), "b".to_string()]);
    assert_eq!(row, vec!["fixed", "a", "b"]);
    push_cost_cells(
        &mut row,
        &set.unified_view[1].monthly_costs,
        &vec!["2025-06-01".to_string(), "2025-05-01".to_string()],
    );
    assert_eq!(row, vec!["fixed", "a", "b", "30.00", "0.00"]);
}

#[test]
fn console_shows_unified_view_then_accounts_then_summary() {
    let set = table_set();
    let shown = cost_trend::tables::console_report(&set);
    assert_eq!(shown.unified_pages.len(), 1);
    assert_eq!(shown.unified_pages[0].number, 1);
    assert_eq!(
        cells(&shown.unified_pages[0].table),
        cells(&unified_table(&set.unified_view, &set.recent_periods))
    );
    assert_eq!(shown.accounts.len(), 2);
    assert_eq!(cells(&shown.accounts[0].trend), cells(&trend_table(&set.accounts[0].cost_trend)));
    assert_eq!(shown.accounts[0].service_pages.len(), 1);
    assert_eq!(shown.accounts[1].service_pages[0].table.rows, vec![vec!["rds", "0.00", "30.00", "30.00", "100.0"]]);
    assert_eq!(cells(&shown.summary), cells(&summary_table(&set.global_summary)));
}

#[test]
fn csv_export_names_two_files_for_each_account_and_two_for_the_run() {
    let set = table_set();
    let files = cost_trend::tables::csv_export(&set, "out/costs.csv");
    let paths: Vec<&str> = files.iter().map(|f| f.path.as_str()).collect();
    assert_eq!(
        paths,
        vec![
            "out/costs_trend_profile_prod_account_111.csv",
            "out/costs_service_summary_profile_prod_account_111.csv",
            "out/costs_trend_profile_dev_account_222.csv",
            "out/costs_service_summary_profile_dev_account_222.csv",
            "out/costs_global_summary.csv",
            "out/costs_unified_view.csv",
        ]
    );
    assert_eq!(cells(&files[0].table), cells(&trend_table(&set.accounts[0].cost_trend)));
    assert_eq!(
        cells(&files[1].table),
        cells(&service_table(&set.accounts[0].service_consumption, &set.recent_periods))
    );
    assert_eq!(cells(&files[4].table), cells(&summary_table(&set.global_summary)));
    assert_eq!(cells(&files[5].table), cells(&unified_table(&set.unified_view, &set.recent_periods)));
}
