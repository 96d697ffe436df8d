//! Names of the files of a run, and the scale of the trend chart.

use vstd::prelude::*;
use vstd::string::*;
use crate::money::{COST_LIMIT, UNITS_PER_CURRENCY};
use crate::report::AccountCostReport;
use crate::text::{trim_end, trimmed_end};
use crate::trend::TrendPoint;

verus! {

/// Room in currency units that the chart leaves above its highest bar.
pub const CHART_HEADROOM: i128 = 100;

/// The base name of the CSV files: the path given, without any `.csv` at its end.
pub open spec fn csv_stem(base: Seq<char>) -> Seq<char> {
    trimmed_end(base, ".csv"@)
}

/// The name of an account's file: stem, kind, profile and account.
pub open spec fn account_file(
    stem: Seq<char>,
    kind: Seq<char>,
    profile: Seq<char>,
    account: Seq<char>,
    ending: Seq<char>,
) -> Seq<char> {
    stem + kind + profile + "_account_"@ + account + ending
}

/// Writes `account_file`.
pub fn account_path(stem: String, kind: &str, profile: &str, account: &str, ending: &str) -> (path:
    String)
    ensures
        path@ == account_file(stem@, kind@, profile@, account@, ending@),
{
    let mut path = stem;
    path.append(kind);
    path.append(profile);
    path.append("_account_");
    path.append(account);
    path.append(ending);
    path
}

/// The file of an account's trend.
pub fn trend_csv_path(base: &str, profile: &str, account: &str) -> (path: String)
    ensures
        path@ == account_file(csv_stem(base@), "_trend_profile_"@, profile@, account@, ".csv"@),
{
    account_path(trim_end(base, ".csv"), "_trend_profile_", profile, account, ".csv")
}

/// The file of an account's service summary.
pub fn service_csv_path(base: &str, profile: &str, account: &str) -> (path: String)
    ensures
        path@ == account_file(
            csv_stem(base@),
            "_service_summary_profile_"@,
            profile@,
            account@,
            ".csv"@,
        ),
{
    account_path(trim_end(base, ".csv"), "_service_summary_profile_", profile, account, ".csv")
}

/// The file of the global summary.
pub fn global_csv_path(base: &str) -> (path: String)
    ensures
        path@ == csv_stem(base@) + "_global_summary.csv"@,
{
    let mut path = trim_end(base, ".csv");
    path.append("_global_summary.csv");
    path
}

/// The file of the unified view.
pub fn unified_csv_path(base: &str) -> (path: String)
    ensures
        path@ == csv_stem(base@) + "_unified_view.csv"@,
{
    let mut path = trim_end(base, ".csv");
    path.append("_unified_view.csv");
    path
}

/// The file of an account's trend chart.
pub fn chart_path(profile: &str, account: &str) -> (path: String)
    ensures
        path@ == account_file(
            Seq::<char>::empty(),
            "cost_trend_profile_"@,
            profile@,
            account@,
            ".png"@,
        ),
{
    account_path(String::new(), "cost_trend_profile_", profile, account, ".png")
}

/// The highest cost of a trend; zero where no cost is above zero.
pub open spec fn highest_cost(trend: Seq<TrendPoint>) -> int
    decreases trend.len(),
{
    if trend.len() == 0 {
        0
    } else if trend.last().total_cost > highest_cost(trend.drop_last()) {
        trend.last().total_cost as int
    } else {
        highest_cost(trend.drop_last())
    }
}

/// `cost` in whole currency units, rounded up.
pub open spec fn whole_units_up(cost: int) -> int {
    (cost + UNITS_PER_CURRENCY - 1) / (UNITS_PER_CURRENCY as int)
}

/// The upper end of a chart's cost axis: the highest cost in whole currency
/// units, rounded up and at least one, and the headroom above it.
pub open spec fn chart_ceiling(trend: Seq<TrendPoint>) -> int {
    let top = whole_units_up(highest_cost(trend));
    (if top < 1 {
        1
    } else {
        top
    } + CHART_HEADROOM) * UNITS_PER_CURRENCY
}

/// The upper end of the cost axis of the chart of `trend`; `None` for an
/// empty trend, which gets no chart.
pub fn chart_upper_bound(trend: &Vec<TrendPoint>) -> (bound: Option<i128>)
    requires
        forall|i: int| 0 <= i < trend@.len() ==> (#[trigger] trend@[i]).total_cost <= COST_LIMIT,
    ensures
        match bound {
            Some(ceiling) => trend@.len() > 0 && ceiling == chart_ceiling(trend@),
            None => trend@.len() == 0,
        },
{
    if trend.len() == 0 {
        return None;
    }
    let mut highest: i128 = 0;
    let mut i: usize = 0;
    proof {
        assert(trend@.take(0) =~= Seq::<TrendPoint>::empty());
    }
    while i < trend.len()
        invariant
            i <= trend@.len(),
            forall|k: int| 0 <= k < trend@.len() ==> (#[trigger] trend@[k]).total_cost <= COST_LIMIT,
            highest == highest_cost(trend@.take(i as int)),
            0 <= highest <= COST_LIMIT,
        decreases trend@.len() - i,
    {
        proof {
            assert(trend@.take(i + 1).drop_last() =~= trend@.take(i as int));
            assert(trend@.take(i + 1).last() == trend@[i as int]);
        }
        if trend[i].total_cost > highest {
            highest = trend[i].total_cost;
        }
        i += 1;
    }
    proof {
        assert(trend@.take(i as int) =~= trend@);
    }
    let top = (highest + UNITS_PER_CURRENCY - 1) / UNITS_PER_CURRENCY;
    let floor = if top < 1 {
        1
    } else {
        top
    };
    assert(0 <= top <= COST_LIMIT) by (nonlinear_arith)
        requires
            top == (highest + 1_000_000 - 1) / 1_000_000,
            0 <= highest <= COST_LIMIT,
    ;
    Some((floor + CHART_HEADROOM) * UNITS_PER_CURRENCY)
}

/// What the chart of one account shows: a bar for each period, in the
/// order of the trend, under a cost axis that ends at `ceiling`.
pub struct ChartPlan {
    pub path: String,
    pub labels: Vec<String>,
    pub heights: Vec<i128>,
    pub ceiling: i128,
}

/// `plan` is the chart of `report`.
pub open spec fn is_chart_of(plan: ChartPlan, report: AccountCostReport) -> bool {
    &&& plan.path@ == account_file(
        Seq::<char>::empty(),
        "cost_trend_profile_"@,
        report.profile@,
        report.account_id@,
        ".png"@,
    )
    &&& plan.labels@.len() == report.cost_trend@.len()
    &&& plan.heights@.len() == report.cost_trend@.len()
    &&& forall|i: int|
        0 <= i < report.cost_trend@.len() ==> (#[trigger] plan.labels@[i])@
            == report.cost_trend@[i].period@
    &&& forall|i: int|
        0 <= i < report.cost_trend@.len() ==> #[trigger] plan.heights@[i]
            == report.cost_trend@[i].total_cost
    &&& plan.ceiling == chart_ceiling(report.cost_trend@)
}

/// Plans the chart of one account; an account without trend gets none.
pub fn chart_plan(report: &AccountCostReport) -> (planned: Option<ChartPlan>)
    requires
        report.renderable(),
    ensures
        match planned {
            Some(plan) => report.cost_trend@.len() > 0 && is_chart_of(plan, *report),
            None => report.cost_trend@.len() == 0,
        },
{
    let ceiling = match chart_upper_bound(&report.cost_trend) {
        Some(ceiling) => ceiling,
        None => {
            return None;
        },
    };
    let mut labels: Vec<String> = Vec::new();
    let mut heights: Vec<i128> = Vec::new();
    let mut i: usize = 0;
    while i < report.cost_trend.len()
        invariant
            i <= report.cost_trend@.len(),
            labels@.len() == i,
            heights@.len() == i,
            forall|k: int| 0 <= k < i ==> (#[trigger] labels@[k])@ == report.cost_trend@[k].period@,
            forall|k: int| 0 <= k < i ==> #[trigger] heights@[k] == report.cost_trend@[k].total_cost,
        decreases report.cost_trend@.len() - i,
    {
        labels.push(report.cost_trend[i].period.clone());
        heights.push(report.cost_trend[i].total_cost);
        i += 1;
    }
    Some(
        ChartPlan {
            path: chart_path(report.profile.as_str(), report.account_id.as_str()),
            labels,
            heights,
            ceiling,
        },
    )
}

} // verus!
