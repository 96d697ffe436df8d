//! Month-over-month trend series.
//!
//! One point per period of the universe, in the universe's order. A period
//! on which the account has no cost is a point of cost zero, not a gap.

use vstd::prelude::*;
use crate::costs::MonthlyCosts;
use crate::money::{magnitude, round_div, rounded_quotient, COST_LIMIT};

verus! {

/// The cost of one period and its change against the period before.
pub struct TrendPoint {
    pub period: String,
    pub total_cost: i128,
    pub mom_change_percent: i128,
}

/// The change from `previous` to `cost` in percent of `previous`, rounded.
/// It is zero where there is no previous period, and where the previous
/// cost is zero.
pub open spec fn mom_change(previous: Option<int>, cost: int) -> int {
    match previous {
        None => 0,
        Some(before) => if before == 0 {
            0
        } else {
            round_div(100 * (cost - before), before)
        },
    }
}

/// The cost of the period before position `i` of `universe`, if there is one.
pub open spec fn cost_before(monthly: MonthlyCosts, universe: Seq<String>, i: int) -> Option<int> {
    if i <= 0 {
        None
    } else {
        Some(monthly.cost_of(universe[i - 1]@))
    }
}

/// `trend` is the trend of `monthly` over the periods of `universe`: one
/// point for each period, in order, with the cost of that period and its
/// change against the period before.
pub open spec fn is_trend_of(trend: Seq<TrendPoint>, monthly: MonthlyCosts, universe: Seq<String>) -> bool {
    &&& trend.len() == universe.len()
    &&& forall|i: int|
        0 <= i < trend.len() ==> {
            &&& (#[trigger] trend[i]).period@ == universe[i]@
            &&& trend[i].total_cost == monthly.cost_of(universe[i]@)
            &&& trend[i].mom_change_percent == mom_change(
                cost_before(monthly, universe, i),
                monthly.cost_of(universe[i]@),
            )
        }
}

/// Computes `mom_change`.
pub fn month_over_month(previous: Option<i128>, cost: i128) -> (change: i128)
    requires
        magnitude(cost as int) <= COST_LIMIT,
        previous matches Some(before) ==> magnitude(before as int) <= COST_LIMIT,
    ensures
        change == mom_change(
            match previous {
                Some(before) => Some(before as int),
                None => None,
            },
            cost as int,
        ),
{
    match previous {
        None => 0,
        Some(before) => {
            if before == 0 {
                0
            } else {
                rounded_quotient(100 * (cost - before), before)
            }
        },
    }
}

/// The trend of one account over the periods of `universe`.
pub fn cost_trend(universe: &Vec<String>, monthly: &MonthlyCosts) -> (trend: Vec<TrendPoint>)
    requires
        monthly.wf(),
    ensures
        is_trend_of(trend@, *monthly, universe@),
        trend@.len() == universe@.len(),
        forall|i: int|
            0 <= i < trend@.len() ==> magnitude((#[trigger] trend@[i]).total_cost as int) <= COST_LIMIT,
        trend@.len() > 0 ==> trend@[0].mom_change_percent == 0,
        forall|i: int|
            0 < i < trend@.len() && monthly.cost_of(universe@[i - 1]@) == 0 ==> (
            #[trigger] trend@[i]).mom_change_percent == 0,
{
    let mut trend: Vec<TrendPoint> = Vec::new();
    let mut previous: Option<i128> = None;
    let mut i: usize = 0;
    while i < universe.len()
        invariant
            i <= universe@.len(),
            monthly.wf(),
            trend@.len() == i,
            match previous {
                Some(before) => cost_before(*monthly, universe@, i as int) == Some(before as int)
                    && magnitude(before as int) <= COST_LIMIT,
                None => cost_before(*monthly, universe@, i as int) == None::<int>,
            },
            forall|j: int|
                0 <= j < i ==> {
                    &&& (#[trigger] trend@[j]).period@ == universe@[j]@
                    &&& trend@[j].total_cost == monthly.cost_of(universe@[j]@)
                    &&& magnitude(trend@[j].total_cost as int) <= COST_LIMIT
                    &&& trend@[j].mom_change_percent == mom_change(
                        cost_before(*monthly, universe@, j),
                        monthly.cost_of(universe@[j]@),
                    )
                },
        decreases universe@.len() - i,
    {
        let period = &universe[i];
        let cost = monthly.cost(period);
        let change = month_over_month(previous, cost);
        trend.push(TrendPoint { period: period.clone(), total_cost: cost, mom_change_percent: change });
        previous = Some(cost);
        i += 1;
    }
    trend
}

} // verus!
