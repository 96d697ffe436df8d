//! The report set of a whole run.
//!
//! Every account is aggregated on its own. The run then folds the accounts
//! together: their periods into one ascending universe, their costs into
//! the global table, and builds each account's report over that universe,
//! so that all reports have the same periods.

use vstd::prelude::*;
use crate::costs::{lemma_mass_bounds, MonthlyCosts};
use crate::ledger::{AccountLedger, ServiceCosts};
use crate::money::COST_LIMIT;
use crate::periods::{ascending, chronological, period_lt, texts};
use crate::report::{build_account_report, is_report_of, AccountCostReport, UnifiedAccountRow};
use crate::unified::{
    global_summary, global_totals, is_summary_of, rows_cost, rows_mass, rows_periods,
    GlobalSummary,
};
use crate::window::{in_window, lemma_window_ascending, recent_window};

verus! {

/// An account that was aggregated, with the profile it was reached through.
pub struct AccountEntry {
    pub profile: String,
    pub account_id: String,
    pub account_name: String,
    pub ledger: AccountLedger,
}

/// Everything that the renderers show.
pub struct ReportSet {
    /// One report for each account, in the order of the accounts.
    pub accounts: Vec<AccountCostReport>,
    /// One row for each account, in the order of the accounts.
    pub unified_view: Vec<UnifiedAccountRow>,
    /// The costs of all accounts together, period by period.
    pub global_monthly: MonthlyCosts,
    pub global_summary: GlobalSummary,
    /// All periods of the run, ascending.
    pub periods: Vec<String>,
    /// The periods of the recent window, ascending.
    pub recent_periods: Vec<String>,
}

impl ReportSet {
    /// Every table of the set holds each period once and stays within the
    /// cost limit: what the renderers rely on.
    pub open spec fn renderable(&self) -> bool {
        &&& forall|i: int|
            0 <= i < self.unified_view@.len() ==> (#[trigger] self.unified_view@[i]).monthly_costs.wf()
        &&& forall|i: int| 0 <= i < self.accounts@.len() ==> (#[trigger] self.accounts@[i]).renderable()
    }
}

impl ReportSet {
    /// Decides `renderable`.
    pub fn is_renderable(&self) -> (ok: bool)
        ensures
            ok == self.renderable(),
    {
        let mut i: usize = 0;
        while i < self.unified_view.len()
            invariant
                i <= self.unified_view@.len(),
                forall|k: int| 0 <= k < i ==> (#[trigger] self.unified_view@[k]).monthly_costs.wf(),
            decreases self.unified_view@.len() - i,
        {
            if !self.unified_view[i].monthly_costs.is_wf() {
                return false;
            }
            i += 1;
        }
        let mut j: usize = 0;
        while j < self.accounts.len()
            invariant
                j <= self.accounts@.len(),
                forall|k: int|
                    0 <= k < self.unified_view@.len() ==> (
                    #[trigger] self.unified_view@[k]).monthly_costs.wf(),
                forall|k: int| 0 <= k < j ==> (#[trigger] self.accounts@[k]).renderable(),
            decreases self.accounts@.len() - j,
        {
            if !self.accounts[j].is_renderable() {
                return false;
            }
            j += 1;
        }
        true
    }
}

/// Why a run ends without reports.
#[derive(Clone, Copy, Debug)]
pub enum RunEnd {
    /// No account gave any data.
    NoData,
    /// The amounts of all accounts together go beyond the cost limit.
    CostOutOfRange,
}

/// The sum of the magnitudes that the accounts hold by period.
pub open spec fn entries_mass(entries: Seq<AccountEntry>) -> int
    decreases entries.len(),
{
    if entries.len() == 0 {
        0
    } else {
        entries_mass(entries.drop_last()) + entries.last().ledger.monthly.mass()
    }
}

/// Every account's ledger is well formed.
pub open spec fn entries_wf(entries: Seq<AccountEntry>) -> bool {
    forall|i: int| 0 <= i < entries.len() ==> (#[trigger] entries[i]).ledger.wf()
}

/// `row` is the row of the account `entry`.
pub open spec fn is_row_of(row: UnifiedAccountRow, entry: AccountEntry) -> bool {
    &&& row.profile@ == entry.profile@
    &&& row.account_id@ == entry.account_id@
    &&& row.account_name@ == entry.account_name@
    &&& row.monthly_costs == entry.ledger.monthly
}

/// `set` is the report set of the accounts `entries` for a run that ends on `end_day`.
pub open spec fn is_report_set(set: ReportSet, entries: Seq<AccountEntry>, end_day: int) -> bool {
    &&& set.unified_view@.len() == entries.len()
    &&& forall|i: int|
        0 <= i < entries.len() ==> is_row_of(#[trigger] set.unified_view@[i], entries[i])
    &&& set.global_monthly.wf()
    &&& set.global_monthly.periods() == rows_periods(set.unified_view@)
    &&& forall|p: Seq<char>|
        #![trigger set.global_monthly.cost_of(p)]
        set.global_monthly.cost_of(p) == rows_cost(set.unified_view@, p)
    &&& ascending(texts(set.periods@))
    &&& forall|p: Seq<char>| #[trigger]
        texts(set.periods@).contains(p) <==> rows_periods(set.unified_view@).contains(p)
    &&& texts(set.recent_periods@) == texts(set.periods@).filter(in_window(end_day))
    &&& is_summary_of(set.global_summary, set.global_monthly, set.recent_periods@)
    &&& set.accounts@.len() == entries.len()
    &&& forall|i: int|
        0 <= i < entries.len() ==> is_report_of(
            #[trigger] set.accounts@[i],
            set.unified_view@[i],
            entries[i].ledger.services@,
            set.periods@,
        )
}

/// In a report set, the trend of every account has one point for each
/// period of the run, in the ascending order of the periods. Its first
/// point shows no change, and neither does a point that follows a period
/// of no cost.
pub proof fn lemma_trends_span_periods(
    set: ReportSet,
    entries: Seq<AccountEntry>,
    end_day: int,
    account: int,
)
    requires
        is_report_set(set, entries, end_day),
        0 <= account < entries.len(),
    ensures
        set.accounts@[account].cost_trend@.len() == set.periods@.len(),
        forall|j: int|
            0 <= j < set.periods@.len() ==> (#[trigger] set.accounts@[account].cost_trend@[j]).period@
                == set.periods@[j]@,
        forall|j: int, k: int|
            0 <= j < k < set.periods@.len() ==> period_lt(
                (#[trigger] set.accounts@[account].cost_trend@[j]).period@,
                (#[trigger] set.accounts@[account].cost_trend@[k]).period@,
            ),
        set.periods@.len() > 0 ==> set.accounts@[account].cost_trend@[0].mom_change_percent == 0,
        forall|j: int|
            0 < j < set.periods@.len() && set.accounts@[account].cost_trend@[j - 1].total_cost == 0
                ==> (#[trigger] set.accounts@[account].cost_trend@[j]).mom_change_percent == 0,
{
    let report = set.accounts@[account];
    let trend = report.cost_trend@;
    let row = set.unified_view@[account];
    assert(is_report_of(report, row, entries[account].ledger.services@, set.periods@));
    assert forall|j: int, k: int| 0 <= j < k < set.periods@.len() implies period_lt(
        (#[trigger] trend[j]).period@,
        (#[trigger] trend[k]).period@,
    ) by {
        assert(period_lt(texts(set.periods@)[j], texts(set.periods@)[k]));
    }
    assert forall|j: int| 0 < j < set.periods@.len() && trend[j - 1].total_cost == 0 implies (
    #[trigger] trend[j]).mom_change_percent == 0 by {
        assert(trend[j - 1].total_cost == row.monthly_costs.cost_of(set.periods@[j - 1]@));
    }
}

/// The recent periods of a report set are ascending and are periods of the run.
pub proof fn lemma_recent_periods(set: ReportSet, entries: Seq<AccountEntry>, end_day: int)
    requires
        is_report_set(set, entries, end_day),
    ensures
        ascending(texts(set.recent_periods@)),
        forall|i: int|
            0 <= i < set.recent_periods@.len() ==> texts(set.periods@).contains(
                #[trigger] texts(set.recent_periods@)[i],
            ),
{
    lemma_window_ascending(texts(set.periods@), end_day);
}

/// Decides `entries_wf`.
pub fn entries_ok(entries: &Vec<AccountEntry>) -> (ok: bool)
    ensures
        ok == entries_wf(entries@),
{
    let mut i: usize = 0;
    while i < entries.len()
        invariant
            i <= entries@.len(),
            forall|k: int| 0 <= k < i ==> (#[trigger] entries@[k]).ledger.wf(),
        decreases entries@.len() - i,
    {
        if !entries[i].ledger.is_wf() {
            return false;
        }
        i += 1;
    }
    true
}

/// A prefix of the accounts weighs no more than all of them.
pub proof fn lemma_entries_mass_prefix(entries: Seq<AccountEntry>, n: int)
    requires
        0 <= n <= entries.len(),
    ensures
        0 <= entries_mass(entries.take(n)) <= entries_mass(entries),
    decreases entries.len(),
{
    if n == entries.len() {
        assert(entries.take(n) =~= entries);
        if n > 0 {
            lemma_entries_mass_prefix(entries.drop_last(), n - 1);
            assert(entries.drop_last().take(n - 1) =~= entries.drop_last());
            lemma_mass_bounds(entries.last().ledger.monthly.entries@);
        }
    } else {
        lemma_entries_mass_prefix(entries.drop_last(), n);
        lemma_mass_bounds(entries.last().ledger.monthly.entries@);
        assert(entries.drop_last().take(n) =~= entries.take(n));
    }
}

/// Whether the magnitudes of all accounts together stay within the cost limit.
pub fn entries_fit(entries: &Vec<AccountEntry>) -> (fit: bool)
    requires
        entries_wf(entries@),
    ensures
        fit == (entries_mass(entries@) <= COST_LIMIT),
{
    let mut mass: i128 = 0;
    let mut i: usize = 0;
    proof {
        assert(entries@.take(0) =~= Seq::<AccountEntry>::empty());
    }
    while i < entries.len()
        invariant
            i <= entries@.len(),
            entries_wf(entries@),
            mass == entries_mass(entries@.take(i as int)),
            0 <= mass <= COST_LIMIT,
        decreases entries@.len() - i,
    {
        proof {
            assert(entries@.take(i + 1).drop_last() =~= entries@.take(i as int));
            assert(entries@.take(i + 1).last() == entries@[i as int]);
            lemma_entries_mass_prefix(entries@, i + 1);
        }
        mass = mass + entries[i].ledger.monthly.weight();
        if mass > COST_LIMIT {
            return false;
        }
        i += 1;
    }
    proof {
        assert(entries@.take(i as int) =~= entries@);
    }
    true
}

/// Builds the report set of a run from its accounts.
///
/// A run without accounts ends with `NoData`; one whose amounts go beyond
/// the cost limit ends with `CostOutOfRange`.
pub fn assemble(entries: Vec<AccountEntry>, end_day: i32) -> (r: Result<ReportSet, RunEnd>)
    requires
        entries_wf(entries@),
    ensures
        match r {
            Ok(set) => entries@.len() > 0 && entries_mass(entries@) <= COST_LIMIT && is_report_set(
                set,
                entries@,
                end_day as int,
            ) && set.renderable(),
            Err(RunEnd::NoData) => entries@.len() == 0,
            Err(RunEnd::CostOutOfRange) => entries@.len() > 0 && entries_mass(entries@) > COST_LIMIT,
        },
{
    if entries.len() == 0 {
        return Err(RunEnd::NoData);
    }
    if !entries_fit(&entries) {
        return Err(RunEnd::CostOutOfRange);
    }
    let ghost src = entries@;
    let mut rows: Vec<UnifiedAccountRow> = Vec::new();
    let mut groups: Vec<Vec<ServiceCosts>> = Vec::new();
    proof {
        assert(src.take(0) =~= Seq::<AccountEntry>::empty());
    }
    for entry in it: entries
        invariant
            it.seq() == src,
            entries_wf(src),
            rows@.len() == it.index(),
            groups@.len() == it.index(),
            forall|k: int| 0 <= k < rows@.len() ==> is_row_of(#[trigger] rows@[k], src[k]),
            forall|k: int| 0 <= k < groups@.len() ==> (#[trigger] groups@[k]) == src[k].ledger.services,
            rows_mass(rows@) == entries_mass(src.take(it.index())),
    {
        let ghost n = it.index();
        let ghost held = rows@;
        proof {
            assert(entry == src[n]);
            assert(src.take(n + 1).drop_last() =~= src.take(n));
            assert(src.take(n + 1).last() == entry);
        }
        rows.push(
            UnifiedAccountRow {
                profile: entry.profile,
                account_id: entry.account_id,
                account_name: entry.account_name,
                monthly_costs: entry.ledger.monthly,
            },
        );
        groups.push(entry.ledger.services);
        proof {
            assert(rows@.drop_last() =~= held);
        }
    }
    proof {
        assert(src.take(src.len() as int) =~= src);
    }
    let global = global_totals(&rows);
    let keys = global.period_keys();
    let periods = chronological(&keys);
    let recent = recent_window(&periods, end_day);
    let summary = global_summary(&global, &recent);
    let mut accounts: Vec<AccountCostReport> = Vec::new();
    let mut i: usize = 0;
    let count = rows.len();
    let ghost all_groups = groups@;
    for services in it: groups
        invariant
            it.seq() == all_groups,
            all_groups.len() == src.len(),
            rows@.len() == src.len(),
            entries_wf(src),
            forall|k: int| 0 <= k < rows@.len() ==> is_row_of(#[trigger] rows@[k], src[k]),
            forall|k: int|
                0 <= k < all_groups.len() ==> (#[trigger] all_groups[k]) == src[k].ledger.services,
            i == it.index(),
            count == rows@.len(),
            accounts@.len() == i,
            forall|k: int| 0 <= k < i ==> (#[trigger] accounts@[k]).renderable(),
            forall|k: int|
                0 <= k < i ==> is_report_of(
                    #[trigger] accounts@[k],
                    rows@[k],
                    src[k].ledger.services@,
                    periods@,
                ),
    {
        proof {
            assert(services == all_groups[i as int]);
            assert(is_row_of(rows@[i as int], src[i as int]));
            assert(src[i as int].ledger.wf());
        }
        let report = build_account_report(&rows[i], services, &periods);
        accounts.push(report);
        assert(i < count);
        i += 1;
    }
    Ok(
        ReportSet {
            accounts,
            unified_view: rows,
            global_monthly: global,
            global_summary: summary,
            periods,
            recent_periods: recent,
        },
    )
}

} // verus!
