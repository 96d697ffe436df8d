use cost_trend::ledger::{aggregate, record_group, GroupCost, PeriodResult, ServiceCosts};
use cost_trend::shares::{service_shares, surviving_cost, ServiceShare};

fn share_services(cells: &[(&str, &str, i128)]) -> Vec<ServiceCosts> {
    let mut services: Vec<ServiceCosts> = Vec::new();
    for (service, period, amount) in cells {
        record_group(&mut services, &service.to_string(), &period.to_string(), *amount);
    }
    services
}

fn share_rows(shares: &[ServiceShare]) -> Vec<(String, i128, i128)> {
    shares.iter().map(|s| (s.service.clone(), s.total_cost, s.percent_of_total)).collect()
}

#[test]
fn two_services_share_three_to_one() {
    let services = share_services(&[
        ("svc_a", "2025-01-01", 100_000_000),
        ("svc_b", "2025-01-01", 100_000_000),
        ("svc_a", "2025-02-01", 200_000_000),
    ]);
    let shares = service_shares(services);
    assert_eq!(
        share_rows(&shares),
        vec![("svc_a".to_string(), 300_000_000, 75), ("svc_b".to_string(), 100_000_000, 25)]
    );
}

#[test]
fn net_credit_is_left_out() {
    let services = share_services(&[
        ("credit", "2025-01-01", 5_000_000),
        ("credit", "2025-02-01", -10_000_000),
        ("ec2", "2025-01-01", 40_000_000),
    ]);
    let shares = service_shares(services);
    assert_eq!(share_rows(&shares), vec![("ec2".to_string(), 40_000_000, 100)]);
    assert!(shares.iter().all(|s| s.service != "credit"));
}

#[test]
fn service_with_total_zero_is_left_out() {
    let services =
        share_services(&[("free", "a", 3), ("free", "b", -3), ("paid", "a", 1), ("none", "a", 0)]);
    let shares = service_shares(services);
    assert_eq!(share_rows(&shares), vec![("paid".to_string(), 1, 100)]);
}

#[test]
fn no_surviving_service_gives_no_shares() {
    let services = share_services(&[("a", "p", -1), ("b", "p", 0)]);
    assert_eq!(surviving_cost(&services), 0);
    assert!(service_shares(services).is_empty());
    assert!(service_shares(Vec::new()).is_empty());
}

#[test]
fn shares_are_ranked_from_the_costliest_down() {
    let services = share_services(&[("low", "p", 1), ("high", "p", 7), ("mid", "p", 2)]);
    let shares = service_shares(services);
    assert_eq!(
        share_rows(&shares),
        vec![("high".to_string(), 7, 70), ("mid".to_string(), 2, 20), ("low".to_string(), 1, 10)]
    );
}

#[test]
fn equal_totals_keep_the_order_of_first_report() {
    let services = share_services(&[
        ("first", "p", 5),
        ("big", "p", 9),
        ("second", "p", 5),
        ("third", "q", 5),
        ("small", "p", 1),
    ]);
    let shares = service_shares(services);
    let names: Vec<&str> = shares.iter().map(|s| s.service.as_str()).collect();
    assert_eq!(names, vec!["big", "first", "second", "third", "small"]);
}

#[test]
fn percent_is_taken_against_the_surviving_services() {
    let services = share_services(&[("a", "p", 30), ("b", "p", 10), ("refund", "p", -20)]);
    assert_eq!(surviving_cost(&services), 40);
    let shares = service_shares(services);
    assert_eq!(share_rows(&shares), vec![("a".to_string(), 30, 75), ("b".to_string(), 10, 25)]);
}

#[test]
fn percentages_add_up_to_a_hundred_within_rounding() {
    let services = share_services(&[("a", "p", 1), ("b", "p", 1), ("c", "p", 1)]);
    let shares = service_shares(services);
    assert_eq!(share_rows(&shares).iter().map(|r| r.2).collect::<Vec<_>>(), vec![33, 33, 33]);
    let sum: i128 = shares.iter().map(|s| s.percent_of_total).sum();
    assert!(2 * (sum - 100).abs() <= shares.len() as i128);

    let services = share_services(&[("a", "p", 1), ("b", "p", 1), ("c", "p", 2), ("d", "p", 4)]);
    let shares = service_shares(services);
    let percents: Vec<i128> = shares.iter().map(|s| s.percent_of_total).collect();
    assert_eq!(percents, vec![50, 25, 13, 13]);
    let sum: i128 = percents.iter().sum();
    assert!(2 * (sum - 100).abs() <= shares.len() as i128);
}

#[test]
fn shares_cost_no_more_than_the_account_without_credits() {
    let results = vec![
        PeriodResult {
            period: "2025-01-01".to_string(),
            groups: vec![
                GroupCost { key: "a".to_string(), amount: 12 },
                GroupCost { key: "b".to_string(), amount: 0 },
                GroupCost { key: "c".to_string(), amount: 30 },
            ],
        },
        PeriodResult {
            period: "2025-02-01".to_string(),
            groups: vec![GroupCost { key: "a".to_string(), amount: 8 }],
        },
    ];
    let ledger = aggregate(&results);
    let total = ledger.monthly.total_cost();
    let shares = service_shares(ledger.services);
    let listed: i128 = shares.iter().map(|s| s.total_cost).sum();
    assert_eq!(total, 50);
    assert!(listed <= total);
    assert_eq!(listed, total);
}

#[test]
fn shares_exceed_the_account_where_a_credit_is_left_out() {
    let results = vec![PeriodResult {
        period: "2025-01-01".to_string(),
        groups: vec![
            GroupCost { key: "a".to_string(), amount: 10 },
            GroupCost { key: "credit".to_string(), amount: -5 },
        ],
    }];
    let ledger = aggregate(&results);
    let total = ledger.monthly.total_cost();
    let shares = service_shares(ledger.services);
    let listed: i128 = shares.iter().map(|s| s.total_cost).sum();
    assert_eq!(total, 5);
    assert_eq!(listed, 10);
}

#[test]
fn share_keeps_the_costs_of_its_periods() {
    let services = share_services(&[("a", "2025-01-01", 4), ("a", "2025-03-01", 6)]);
    let shares = service_shares(services);
    assert_eq!(shares[0].monthly.cost(&"2025-01-01".to_string()), 4);
    assert_eq!(shares[0].monthly.cost(&"2025-02-01".to_string()), 0);
    assert_eq!(shares[0].monthly.cost(&"2025-03-01".to_string()), 6);
}
