//! The unified view across accounts and the global summary.
//!
//! The rows carry each account's costs as they were aggregated. The global
//! table adds them up period by period; the summary is taken over the
//! periods of the recent window alone.

use vstd::prelude::*;
use crate::costs::{costs_within, keys_merged, lemma_mass_bounds, MonthlyCosts};
use crate::money::COST_LIMIT;
use crate::periods::texts;
use crate::report::{average, average_cost, UnifiedAccountRow};

verus! {

/// Total and average over all accounts and the periods of the recent window.
pub struct GlobalSummary {
    pub total_cost: i128,
    pub average_monthly_cost: i128,
}

/// What all rows cost together in `period`.
pub open spec fn rows_cost(rows: Seq<UnifiedAccountRow>, period: Seq<char>) -> int
    decreases rows.len(),
{
    if rows.len() == 0 {
        0
    } else {
        rows_cost(rows.drop_last(), period) + rows.last().monthly_costs.cost_of(period)
    }
}

/// What all rows cost together.
pub open spec fn rows_total(rows: Seq<UnifiedAccountRow>) -> int
    decreases rows.len(),
{
    if rows.len() == 0 {
        0
    } else {
        rows_total(rows.drop_last()) + rows.last().monthly_costs.total()
    }
}

/// The sum of the magnitudes that all rows hold.
pub open spec fn rows_mass(rows: Seq<UnifiedAccountRow>) -> int
    decreases rows.len(),
{
    if rows.len() == 0 {
        0
    } else {
        rows_mass(rows.drop_last()) + rows.last().monthly_costs.mass()
    }
}

/// The periods of all rows, each once, in the order in which they first occur.
pub open spec fn rows_periods(rows: Seq<UnifiedAccountRow>) -> Seq<Seq<char>>
    decreases rows.len(),
{
    if rows.len() == 0 {
        Seq::empty()
    } else {
        keys_merged(rows_periods(rows.drop_last()), rows.last().monthly_costs.periods())
    }
}

/// A key is among the merged keys exactly if it was there or is merged in.
pub proof fn lemma_keys_merged_contains(seen: Seq<Seq<char>>, keys: Seq<Seq<char>>, key: Seq<char>)
    ensures
        keys_merged(seen, keys).contains(key) <==> seen.contains(key) || keys.contains(key),
        seen.no_duplicates() ==> keys_merged(seen, keys).no_duplicates(),
    decreases keys.len(),
{
    if keys.len() > 0 {
        let front = keys.drop_last();
        let last = keys.last();
        lemma_keys_merged_contains(seen, front, key);
        let merged = keys_merged(seen, front);
        if !merged.contains(last) {
            assert(merged.push(last)[merged.len() as int] == last);
            if merged.push(last).contains(key) {
                let i = choose|i: int| 0 <= i < merged.push(last).len() && merged.push(last)[i] == key;
                if i < merged.len() {
                    assert(merged[i] == key);
                }
            }
            if merged.contains(key) {
                let i = choose|i: int| 0 <= i < merged.len() && merged[i] == key;
                assert(merged.push(last)[i] == key);
            }
            if seen.no_duplicates() {
                assert forall|i: int, j: int|
                    0 <= i < merged.len() + 1 && 0 <= j < merged.len() + 1 && i != j implies merged.push(
                    last,
                )[i] != merged.push(last)[j] by {
                    if i < merged.len() && j < merged.len() {
                        assert(merged[i] != merged[j]);
                    } else if i < merged.len() {
                        assert(merged[i] != last);
                    } else {
                        assert(merged[j] != last);
                    }
                }
            }
        }
        if keys.contains(key) {
            let i = choose|i: int| 0 <= i < keys.len() && keys[i] == key;
            if i < front.len() {
                assert(front[i] == key);
            }
        }
        if front.contains(key) {
            let i = choose|i: int| 0 <= i < front.len() && front[i] == key;
            assert(keys[i] == key);
        }
        assert(keys[keys.len() - 1] == last);
    }
}

/// The periods of all rows are the periods that some row holds.
pub proof fn lemma_rows_periods(rows: Seq<UnifiedAccountRow>, period: Seq<char>)
    ensures
        rows_periods(rows).contains(period) <==> exists|i: int|
            0 <= i < rows.len() && (#[trigger] rows[i]).monthly_costs.periods().contains(period),
        rows_periods(rows).no_duplicates(),
    decreases rows.len(),
{
    if rows.len() > 0 {
        let front = rows.drop_last();
        lemma_rows_periods(front, period);
        lemma_keys_merged_contains(
            rows_periods(front),
            rows.last().monthly_costs.periods(),
            period,
        );
        if exists|i: int|
            0 <= i < rows.len() && (#[trigger] rows[i]).monthly_costs.periods().contains(period) {
            let i = choose|i: int|
                0 <= i < rows.len() && (#[trigger] rows[i]).monthly_costs.periods().contains(period);
            if i < front.len() {
                assert(front[i].monthly_costs.periods().contains(period));
            }
        }
        if exists|i: int|
            0 <= i < front.len() && (#[trigger] front[i]).monthly_costs.periods().contains(period) {
            let i = choose|i: int|
                0 <= i < front.len() && (#[trigger] front[i]).monthly_costs.periods().contains(
                    period,
                );
            assert(rows[i].monthly_costs.periods().contains(period));
        }
        if rows.last().monthly_costs.periods().contains(period) {
            assert(rows[rows.len() - 1].monthly_costs.periods().contains(period));
        }
    }
}

/// A prefix of the rows weighs no more than all of them.
pub proof fn lemma_rows_mass_prefix(rows: Seq<UnifiedAccountRow>, n: int)
    requires
        0 <= n <= rows.len(),
    ensures
        0 <= rows_mass(rows.take(n)) <= rows_mass(rows),
    decreases rows.len(),
{
    if n == rows.len() {
        assert(rows.take(n) =~= rows);
        if n > 0 {
            lemma_rows_mass_prefix(rows.drop_last(), n - 1);
            assert(rows.drop_last().take(n - 1) =~= rows.drop_last());
            lemma_mass_bounds(rows.last().monthly_costs.entries@);
        }
    } else {
        lemma_rows_mass_prefix(rows.drop_last(), n);
        lemma_mass_bounds(rows.last().monthly_costs.entries@);
        assert(rows.drop_last().take(n) =~= rows.take(n));
    }
}

/// Adds up the rows period by period.
pub fn global_totals(rows: &Vec<UnifiedAccountRow>) -> (global: MonthlyCosts)
    requires
        rows_mass(rows@) <= COST_LIMIT,
    ensures
        global.wf(),
        global.periods() == rows_periods(rows@),
        forall|p: Seq<char>| #![trigger global.cost_of(p)] global.cost_of(p) == rows_cost(rows@, p),
        global.total() == rows_total(rows@),
        global.mass() <= rows_mass(rows@),
{
    let mut global = MonthlyCosts::new();
    let mut i: usize = 0;
    proof {
        assert(rows@.take(0) =~= Seq::<UnifiedAccountRow>::empty());
        assert(global.periods() =~= Seq::<Seq<char>>::empty());
    }
    while i < rows.len()
        invariant
            i <= rows@.len(),
            rows_mass(rows@) <= COST_LIMIT,
            global.wf(),
            global.periods() == rows_periods(rows@.take(i as int)),
            forall|p: Seq<char>|
                #![trigger global.cost_of(p)]
                global.cost_of(p) == rows_cost(rows@.take(i as int), p),
            global.total() == rows_total(rows@.take(i as int)),
            global.mass() <= rows_mass(rows@.take(i as int)),
        decreases rows@.len() - i,
    {
        proof {
            assert(rows@.take(i + 1).drop_last() =~= rows@.take(i as int));
            assert(rows@.take(i + 1).last() == rows@[i as int]);
            lemma_rows_mass_prefix(rows@, i + 1);
        }
        global.merge(&rows[i].monthly_costs);
        i += 1;
    }
    proof {
        assert(rows@.take(i as int) =~= rows@);
    }
    global
}

/// `summary` is the summary of the table `global` over the periods of `window`.
pub open spec fn is_summary_of(summary: GlobalSummary, global: MonthlyCosts, window: Seq<String>) -> bool {
    &&& summary.total_cost == costs_within(global.entries@, texts(window))
    &&& summary.average_monthly_cost == average_cost(
        costs_within(global.entries@, texts(window)),
        window.len() as int,
    )
}

/// Total and average of the global table over the periods of `window`.
pub fn global_summary(global: &MonthlyCosts, window: &Vec<String>) -> (summary: GlobalSummary)
    requires
        global.wf(),
    ensures
        is_summary_of(summary, *global, window@),
{
    let total = global.total_within(window);
    let mean = average(total, window.len());
    GlobalSummary { total_cost: total, average_monthly_cost: mean }
}

} // verus!
