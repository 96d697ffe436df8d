//! The report of one account, and the account's row of the unified view.

use vstd::prelude::*;
use crate::costs::MonthlyCosts;
use crate::ledger::{services_total, services_wf, ServiceCosts};
use crate::money::{magnitude, round_div, rounded_quotient, COST_LIMIT};
use crate::shares::{
    lemma_ranked, lemma_shares_total, lemma_surviving, ranked, service_shares, shares_of,
    shares_total, surviving, surviving_total, ServiceShare,
};
use crate::trend::{cost_trend, is_trend_of, TrendPoint};

verus! {

/// One account's costs by period, as they were aggregated: a row of the
/// unified view.
pub struct UnifiedAccountRow {
    pub profile: String,
    pub account_id: String,
    pub account_name: String,
    pub monthly_costs: MonthlyCosts,
}

/// The finished report of one account.
pub struct AccountCostReport {
    pub profile: String,
    pub account_id: String,
    pub account_name: String,
    pub cost_trend: Vec<TrendPoint>,
    pub service_consumption: Vec<ServiceShare>,
    pub total_cost: i128,
    pub average_monthly_cost: i128,
}

impl AccountCostReport {
    /// The costs of the report are within the cost limit and its tables
    /// hold each period once: what the renderers rely on.
    pub open spec fn renderable(&self) -> bool {
        &&& forall|i: int|
            0 <= i < self.cost_trend@.len() ==> magnitude(
                (#[trigger] self.cost_trend@[i]).total_cost as int,
            ) <= COST_LIMIT
        &&& forall|i: int|
            0 <= i < self.service_consumption@.len() ==> (
            #[trigger] self.service_consumption@[i]).monthly.wf()
    }
}

impl AccountCostReport {
    /// Decides `renderable`.
    pub fn is_renderable(&self) -> (ok: bool)
        ensures
            ok == self.renderable(),
    {
        let mut i: usize = 0;
        while i < self.cost_trend.len()
            invariant
                i <= self.cost_trend@.len(),
                forall|k: int|
                    0 <= k < i ==> magnitude((#[trigger] self.cost_trend@[k]).total_cost as int)
                        <= COST_LIMIT,
            decreases self.cost_trend@.len() - i,
        {
            let cost = self.cost_trend[i].total_cost;
            if cost > COST_LIMIT || cost < -COST_LIMIT {
                return false;
            }
            i += 1;
        }
        let mut j: usize = 0;
        while j < self.service_consumption.len()
            invariant
                j <= self.service_consumption@.len(),
                forall|k: int|
                    0 <= k < self.cost_trend@.len() ==> magnitude(
                        (#[trigger] self.cost_trend@[k]).total_cost as int,
                    ) <= COST_LIMIT,
                forall|k: int| 0 <= k < j ==> (#[trigger] self.service_consumption@[k]).monthly.wf(),
            decreases self.service_consumption@.len() - j,
        {
            if !self.service_consumption[j].monthly.is_wf() {
                return false;
            }
            j += 1;
        }
        true
    }
}

/// `total` spread over `periods` periods, rounded; zero where there is no period.
pub open spec fn average_cost(total: int, periods: int) -> int {
    if periods == 0 {
        0
    } else {
        round_div(total, periods)
    }
}

/// Computes `average_cost`.
pub fn average(total: i128, periods: usize) -> (mean: i128)
    requires
        magnitude(total as int) <= COST_LIMIT,
    ensures
        mean == average_cost(total as int, periods as int),
{
    if periods == 0 {
        0
    } else {
        rounded_quotient(total, periods as i128)
    }
}

/// `report` is the report of the account of `row`, whose groups are
/// `services`, over the periods of `universe`.
pub open spec fn is_report_of(
    report: AccountCostReport,
    row: UnifiedAccountRow,
    services: Seq<ServiceCosts>,
    universe: Seq<String>,
) -> bool {
    &&& report.profile@ == row.profile@
    &&& report.account_id@ == row.account_id@
    &&& report.account_name@ == row.account_name@
    &&& is_trend_of(report.cost_trend@, row.monthly_costs, universe)
    &&& shares_of(report.service_consumption@, services)
    &&& report.total_cost == row.monthly_costs.total()
    &&& report.average_monthly_cost == average_cost(
        row.monthly_costs.total(),
        universe.len() as int,
    )
}

/// Builds the report of one account from its row and its groups.
pub fn build_account_report(
    row: &UnifiedAccountRow,
    services: Vec<ServiceCosts>,
    universe: &Vec<String>,
) -> (report: AccountCostReport)
    requires
        row.monthly_costs.wf(),
        services_wf(services@),
    ensures
        is_report_of(report, *row, services@, universe@),
        report.cost_trend@.len() == universe@.len(),
        report.renderable(),
{
    let trend = cost_trend(universe, &row.monthly_costs);
    let total = row.monthly_costs.total_cost();
    let mean = average(total, universe.len());
    let shares = service_shares(services);
    AccountCostReport {
        profile: row.profile.clone(),
        account_id: row.account_id.clone(),
        account_name: row.account_name.clone(),
        cost_trend: trend,
        service_consumption: shares,
        total_cost: total,
        average_monthly_cost: mean,
    }
}

/// What an account's shares cost together is the cost of its listed groups,
/// and never less than the account's total: a group is left out only for a
/// total of zero or below.
pub proof fn lemma_shares_cover_total(
    shares: Seq<ServiceShare>,
    services: Seq<ServiceCosts>,
    account_total: int,
)
    requires
        shares_of(shares, services),
        account_total == services_total(services),
    ensures
        shares_total(shares) == surviving_total(services),
        shares_total(shares) >= account_total,
{
    let kept = surviving(services);
    lemma_surviving(services);
    lemma_ranked(kept);
    lemma_shares_total(shares, ranked(kept), surviving_total(services));
}

/// Where no group of an account has a total below zero, the account's
/// shares cost together no more than the account does, and in fact as much.
pub proof fn lemma_shares_within_total(
    shares: Seq<ServiceShare>,
    services: Seq<ServiceCosts>,
    account_total: int,
)
    requires
        shares_of(shares, services),
        account_total == services_total(services),
        forall|i: int| 0 <= i < services.len() ==> (#[trigger] services[i]).monthly.total() >= 0,
    ensures
        shares_total(shares) <= account_total,
        shares_total(shares) == account_total,
{
    lemma_shares_cover_total(shares, services, account_total);
    lemma_surviving(services);
}

} // verus!
