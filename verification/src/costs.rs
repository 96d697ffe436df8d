//! Month-to-cost tables.
//!
//! A `MonthlyCosts` is an association list from period keys to costs. It
//! keeps its periods in the order in which they were first recorded, holds
//! each period once, and reads as zero on every period it does not hold.

use vstd::prelude::*;
use crate::money::{magnitude, COST_LIMIT};
use crate::periods::{holds_text, texts};

verus! {

/// The cost booked on one period.
pub struct PeriodCost {
    pub period: String,
    pub cost: i128,
}

/// `seen` with `key` appended unless it is there already.
pub open spec fn with_key(seen: Seq<Seq<char>>, key: Seq<char>) -> Seq<Seq<char>> {
    if seen.contains(key) {
        seen
    } else {
        seen.push(key)
    }
}

/// The period keys of a run of entries, in order.
pub open spec fn entry_periods(entries: Seq<PeriodCost>) -> Seq<Seq<char>> {
    Seq::new(entries.len(), |i: int| entries[i].period@)
}

/// The sum of the costs booked on `period`.
pub open spec fn cost_in(entries: Seq<PeriodCost>, period: Seq<char>) -> int
    decreases entries.len(),
{
    if entries.len() == 0 {
        0
    } else {
        cost_in(entries.drop_last(), period) + if entries.last().period@ == period {
            entries.last().cost as int
        } else {
            0
        }
    }
}

/// The sum of the costs booked on the periods that `periods` holds.
pub open spec fn costs_within(entries: Seq<PeriodCost>, periods: Seq<Seq<char>>) -> int
    decreases entries.len(),
{
    if entries.len() == 0 {
        0
    } else {
        costs_within(entries.drop_last(), periods) + if periods.contains(entries.last().period@) {
            entries.last().cost as int
        } else {
            0
        }
    }
}

/// `seen` extended by the keys of `keys`, each once, in order.
pub open spec fn keys_merged(seen: Seq<Seq<char>>, keys: Seq<Seq<char>>) -> Seq<Seq<char>>
    decreases keys.len(),
{
    if keys.len() == 0 {
        seen
    } else {
        with_key(keys_merged(seen, keys.drop_last()), keys.last())
    }
}

/// The sum of all costs.
pub open spec fn costs_sum(entries: Seq<PeriodCost>) -> int
    decreases entries.len(),
{
    if entries.len() == 0 {
        0
    } else {
        costs_sum(entries.drop_last()) + entries.last().cost
    }
}

/// The sum of the magnitudes of all costs.
pub open spec fn costs_mass(entries: Seq<PeriodCost>) -> int
    decreases entries.len(),
{
    if entries.len() == 0 {
        0
    } else {
        costs_mass(entries.drop_last()) + magnitude(entries.last().cost as int)
    }
}

/// No sum taken over a table is larger than the table weighs.
pub proof fn lemma_mass_bounds(entries: Seq<PeriodCost>)
    ensures
        0 <= costs_mass(entries),
        magnitude(costs_sum(entries)) <= costs_mass(entries),
        forall|w: Seq<Seq<char>>| magnitude(#[trigger] costs_within(entries, w)) <= costs_mass(entries),
        forall|p: Seq<char>| magnitude(#[trigger] cost_in(entries, p)) <= costs_mass(entries),
        forall|i: int|
            0 <= i < entries.len() ==> magnitude((#[trigger] entries[i]).cost as int) <= costs_mass(
                entries,
            ),
    decreases entries.len(),
{
    if entries.len() > 0 {
        lemma_mass_bounds(entries.drop_last());
        assert forall|i: int| 0 <= i < entries.len() implies magnitude(
            (#[trigger] entries[i]).cost as int,
        ) <= costs_mass(entries) by {
            if i < entries.len() - 1 {
                assert(entries.drop_last()[i] == entries[i]);
            }
        }
        assert forall|w: Seq<Seq<char>>| magnitude(#[trigger] costs_within(entries, w))
            <= costs_mass(entries) by {
            assert(magnitude(costs_within(entries.drop_last(), w)) <= costs_mass(
                entries.drop_last(),
            ));
        }
        assert forall|p: Seq<char>| magnitude(#[trigger] cost_in(entries, p)) <= costs_mass(
            entries,
        ) by {
            assert(magnitude(cost_in(entries.drop_last(), p)) <= costs_mass(entries.drop_last()));
        }
    }
}

/// Replacing one entry moves each sum by the difference of the two entries.
pub proof fn lemma_update_entry(entries: Seq<PeriodCost>, k: int, e: PeriodCost)
    requires
        0 <= k < entries.len(),
    ensures
        costs_sum(entries.update(k, e)) == costs_sum(entries) - entries[k].cost + e.cost,
        costs_mass(entries.update(k, e)) == costs_mass(entries) - magnitude(entries[k].cost as int)
            + magnitude(e.cost as int),
        forall|p: Seq<char>|
            #![trigger cost_in(entries.update(k, e), p)]
            cost_in(entries.update(k, e), p) == cost_in(entries, p) - (if entries[k].period@ == p {
                entries[k].cost as int
            } else {
                0
            }) + (if e.period@ == p {
                e.cost as int
            } else {
                0
            }),
    decreases entries.len(),
{
    let after = entries.update(k, e);
    let front = entries.drop_last();
    if k == entries.len() - 1 {
        assert(after.drop_last() =~= front);
        assert(after.last() == e);
    } else {
        lemma_update_entry(front, k, e);
        assert(after.drop_last() =~= front.update(k, e));
        assert(after.last() == entries.last());
        assert(front[k] == entries[k]);
    }
    assert forall|p: Seq<char>|
        cost_in(after, p) == cost_in(entries, p) - (if entries[k].period@ == p {
            entries[k].cost as int
        } else {
            0
        }) + (if e.period@ == p {
            e.cost as int
        } else {
            0
        }) by {
        if k != entries.len() - 1 {
            assert(cost_in(front.update(k, e), p) == cost_in(after.drop_last(), p));
        }
    }
}

/// A period that no entry carries reads as zero.
pub proof fn lemma_cost_in_absent(entries: Seq<PeriodCost>, period: Seq<char>)
    requires
        forall|i: int| 0 <= i < entries.len() ==> (#[trigger] entries[i]).period@ != period,
    ensures
        cost_in(entries, period) == 0,
    decreases entries.len(),
{
    if entries.len() > 0 {
        assert forall|i: int| 0 <= i < entries.drop_last().len() implies (
        #[trigger] entries.drop_last()[i]).period@ != period by {
            assert(entries.drop_last()[i] == entries[i]);
        }
        lemma_cost_in_absent(entries.drop_last(), period);
    }
}

/// Where each period occurs once, a period reads as the cost of its entry.
pub proof fn lemma_cost_in_present(entries: Seq<PeriodCost>, k: int)
    requires
        0 <= k < entries.len(),
        entry_periods(entries).no_duplicates(),
    ensures
        cost_in(entries, entries[k].period@) == entries[k].cost,
    decreases entries.len(),
{
    let period = entries[k].period@;
    let front = entries.drop_last();
    let last = entries.len() - 1;
    assert(entry_periods(entries)[k] == period);
    if k == last {
        assert forall|i: int| 0 <= i < front.len() implies (#[trigger] front[i]).period@
            != period by {
            assert(entry_periods(entries)[i] == entries[i].period@);
        }
        lemma_cost_in_absent(front, period);
    } else {
        assert(entry_periods(entries)[last] == entries[last].period@);
        assert(entry_periods(front) =~= entry_periods(entries).drop_last());
        assert(front[k] == entries[k]);
        lemma_cost_in_present(front, k);
    }
}

/// A month-to-cost table.
pub struct MonthlyCosts {
    pub entries: Vec<PeriodCost>,
}

impl MonthlyCosts {
    /// The periods held, in the order in which they were first recorded.
    pub open spec fn periods(&self) -> Seq<Seq<char>> {
        entry_periods(self.entries@)
    }

    /// The cost of `period`; zero where the table does not hold it.
    pub open spec fn cost_of(&self, period: Seq<char>) -> int {
        cost_in(self.entries@, period)
    }

    /// The sum over all periods.
    pub open spec fn total(&self) -> int {
        costs_sum(self.entries@)
    }

    /// The sum of the magnitudes over all periods.
    pub open spec fn mass(&self) -> int {
        costs_mass(self.entries@)
    }

    /// Each period occurs once and the magnitudes stay within the cost limit.
    pub open spec fn wf(&self) -> bool {
        &&& self.periods().no_duplicates()
        &&& self.mass() <= COST_LIMIT
    }

    /// The empty table.
    pub fn new() -> (table: MonthlyCosts)
        ensures
            table.wf(),
            table.entries@.len() == 0,
            table.mass() == 0,
            table.total() == 0,
            forall|p: Seq<char>|
                #![trigger table.cost_of(p)]
                table.cost_of(p) == 0,
    {
        MonthlyCosts { entries: Vec::new() }
    }

    /// The position of `period` among the entries, if the table holds it.
    pub fn position(&self, period: &String) -> (found: Option<usize>)
        ensures
            match found {
                Some(k) => k < self.entries@.len() && self.entries@[k as int].period@ == period@
                    && forall|i: int| 0 <= i < k ==> (#[trigger] self.entries@[i]).period@ != period@,
                None => !self.periods().contains(period@),
            },
    {
        let mut i: usize = 0;
        while i < self.entries.len()
            invariant
                i <= self.entries@.len(),
                forall|j: int| 0 <= j < i ==> (#[trigger] self.entries@[j]).period@ != period@,
            decreases self.entries@.len() - i,
        {
            if self.entries[i].period == *period {
                return Some(i);
            }
            i += 1;
        }
        proof {
            assert forall|j: int| 0 <= j < self.periods().len() implies self.periods()[j]
                != period@ by {
                assert(self.entries@[j].period@ != period@);
            }
        }
        None
    }

    /// Adds `amount` to the cost of `period`, recording the period if it is new.
    pub fn add(&mut self, period: &String, amount: i128)
        requires
            old(self).wf(),
            old(self).mass() + magnitude(amount as int) <= COST_LIMIT,
        ensures
            final(self).wf(),
            final(self).periods() == with_key(old(self).periods(), period@),
            forall|p: Seq<char>|
                #![trigger final(self).cost_of(p)]
                final(self).cost_of(p) == old(self).cost_of(p) + if p == period@ {
                    amount as int
                } else {
                    0
                },
            final(self).total() == old(self).total() + amount,
            final(self).mass() <= old(self).mass() + magnitude(amount as int),
    {
        let found = self.position(period);
        proof {
            lemma_mass_bounds(self.entries@);
        }
        match found {
            Some(k) => {
                let ghost before = self.entries@;
                let held = self.entries.remove(k);
                let entry = PeriodCost { period: held.period, cost: held.cost + amount };
                self.entries.insert(k, entry);
                proof {
                    assert(self.entries@ =~= before.update(k as int, entry));
                    lemma_update_entry(before, k as int, entry);
                    assert(entry_periods(self.entries@) =~= entry_periods(before));
                    assert(entry_periods(before)[k as int] == period@);
                }
            },
            None => {
                let ghost before = self.entries@;
                let entry = PeriodCost { period: period.clone(), cost: amount };
                self.entries.push(entry);
                proof {
                    assert(self.entries@.drop_last() =~= before);
                    assert(entry_periods(self.entries@) =~= entry_periods(before).push(period@));
                    assert forall|i: int| 0 <= i < before.len() implies (
                    #[trigger] before[i]).period@ != period@ by {
                        assert(entry_periods(before)[i] == before[i].period@);
                    }
                    lemma_cost_in_absent(before, period@);
                }
            },
        }
    }

    /// The cost of `period`; zero where the table does not hold it.
    pub fn cost(&self, period: &String) -> (cost: i128)
        requires
            self.wf(),
        ensures
            cost == self.cost_of(period@),
            magnitude(cost as int) <= COST_LIMIT,
    {
        proof {
            lemma_mass_bounds(self.entries@);
        }
        match self.position(period) {
            Some(k) => {
                proof {
                    lemma_cost_in_present(self.entries@, k as int);
                }
                self.entries[k].cost
            },
            None => {
                proof {
                    assert forall|i: int| 0 <= i < self.entries@.len() implies (
                    #[trigger] self.entries@[i]).period@ != period@ by {
                        assert(self.periods()[i] == self.entries@[i].period@);
                    }
                    lemma_cost_in_absent(self.entries@, period@);
                }
                0
            },
        }
    }

    /// The period keys, in the order in which they were first recorded.
    pub fn period_keys(&self) -> (keys: Vec<String>)
        ensures
            texts(keys@) == self.periods(),
    {
        let mut keys: Vec<String> = Vec::new();
        let mut i: usize = 0;
        while i < self.entries.len()
            invariant
                i <= self.entries@.len(),
                keys@.len() == i,
                forall|j: int| 0 <= j < i ==> (#[trigger] keys@[j])@ == self.entries@[j].period@,
            decreases self.entries@.len() - i,
        {
            keys.push(self.entries[i].period.clone());
            i += 1;
        }
        proof {
            assert(texts(keys@) =~= self.periods());
        }
        keys
    }

    /// Adds every cost of `other` to the cost of its period.
    pub fn merge(&mut self, other: &MonthlyCosts)
        requires
            old(self).wf(),
            old(self).mass() + other.mass() <= COST_LIMIT,
        ensures
            final(self).wf(),
            final(self).periods() == keys_merged(old(self).periods(), other.periods()),
            forall|p: Seq<char>|
                #![trigger final(self).cost_of(p)]
                final(self).cost_of(p) == old(self).cost_of(p) + other.cost_of(p),
            final(self).total() == old(self).total() + other.total(),
            final(self).mass() <= old(self).mass() + other.mass(),
    {
        let mut i: usize = 0;
        proof {
            assert(other.entries@.take(0) =~= Seq::<PeriodCost>::empty());
            assert(entry_periods(other.entries@.take(0)) =~= Seq::<Seq<char>>::empty());
        }
        while i < other.entries.len()
            invariant
                i <= other.entries@.len(),
                self.wf(),
                old(self).mass() + other.mass() <= COST_LIMIT,
                self.periods() == keys_merged(
                    old(self).periods(),
                    entry_periods(other.entries@.take(i as int)),
                ),
                forall|p: Seq<char>|
                    #![trigger self.cost_of(p)]
                    self.cost_of(p) == old(self).cost_of(p) + cost_in(
                        other.entries@.take(i as int),
                        p,
                    ),
                self.total() == old(self).total() + costs_sum(other.entries@.take(i as int)),
                self.mass() <= old(self).mass() + costs_mass(other.entries@.take(i as int)),
            decreases other.entries@.len() - i,
        {
            proof {
                let next = other.entries@.take(i + 1);
                assert(next.drop_last() =~= other.entries@.take(i as int));
                assert(next.last() == other.entries@[i as int]);
                assert(entry_periods(next).drop_last() =~= entry_periods(
                    other.entries@.take(i as int),
                ));
                assert(entry_periods(next).last() == other.entries@[i as int].period@);
                lemma_costs_mass_prefix(other.entries@, i + 1);
            }
            self.add(&other.entries[i].period, other.entries[i].cost);
            i += 1;
        }
        proof {
            assert(other.entries@.take(i as int) =~= other.entries@);
        }
    }

    /// The sum over the periods that `periods` holds.
    pub fn total_within(&self, periods: &Vec<String>) -> (sum: i128)
        requires
            self.wf(),
        ensures
            sum == costs_within(self.entries@, texts(periods@)),
            magnitude(sum as int) <= COST_LIMIT,
    {
        let mut sum: i128 = 0;
        let mut i: usize = 0;
        proof {
            assert(self.entries@.take(0) =~= Seq::<PeriodCost>::empty());
            lemma_costs_mass_prefix(self.entries@, 0);
        }
        while i < self.entries.len()
            invariant
                i <= self.entries@.len(),
                sum == costs_within(self.entries@.take(i as int), texts(periods@)),
                magnitude(sum as int) <= costs_mass(self.entries@.take(i as int)),
                costs_mass(self.entries@.take(i as int)) <= costs_mass(self.entries@),
                costs_mass(self.entries@) <= COST_LIMIT,
            decreases self.entries@.len() - i,
        {
            proof {
                assert(self.entries@.take(i + 1).drop_last() =~= self.entries@.take(i as int));
                lemma_costs_mass_prefix(self.entries@, i + 1);
                lemma_mass_bounds(self.entries@.take(i + 1));
            }
            if holds_text(periods, &self.entries[i].period) {
                sum = sum + self.entries[i].cost;
            }
            i += 1;
        }
        proof {
            assert(self.entries@.take(i as int) =~= self.entries@);
        }
        sum
    }

    /// Whether the table holds each period once and stays within the cost limit.
    pub fn is_wf(&self) -> (ok: bool)
        ensures
            ok == self.wf(),
    {
        let n = self.entries.len();
        let mut i: usize = 0;
        while i < n
            invariant
                n == self.entries@.len(),
                i <= n,
                forall|a: int, b: int|
                    0 <= a < b < i ==> self.entries@[a].period@ != self.entries@[b].period@,
            decreases n - i,
        {
            let mut j: usize = 0;
            while j < i
                invariant
                    n == self.entries@.len(),
                    j <= i < n,
                    forall|a: int| 0 <= a < j ==> self.entries@[a].period@ != self.entries@[i as int].period@,
                decreases i - j,
            {
                if self.entries[j].period == self.entries[i].period {
                    proof {
                        assert(self.periods()[j as int] == self.periods()[i as int]);
                    }
                    return false;
                }
                j += 1;
            }
            i += 1;
        }
        proof {
            assert forall|a: int, b: int|
                0 <= a < self.periods().len() && 0 <= b < self.periods().len() && a
                    != b implies self.periods()[a] != self.periods()[b] by {
                if a < b {
                    assert(self.entries@[a].period@ != self.entries@[b].period@);
                } else {
                    assert(self.entries@[b].period@ != self.entries@[a].period@);
                }
            }
            assert(self.entries@.take(0) =~= Seq::<PeriodCost>::empty());
        }
        let mut mass: i128 = 0;
        let mut k: usize = 0;
        while k < n
            invariant
                n == self.entries@.len(),
                k <= n,
                mass == costs_mass(self.entries@.take(k as int)),
                0 <= mass <= COST_LIMIT,
                self.periods().no_duplicates(),
            decreases n - k,
        {
            let cost = self.entries[k].cost;
            proof {
                assert(self.entries@.take(k + 1).drop_last() =~= self.entries@.take(k as int));
                assert(self.entries@.take(k + 1).last() == self.entries@[k as int]);
                lemma_costs_mass_prefix(self.entries@, k + 1);
            }
            if cost > COST_LIMIT || cost < -COST_LIMIT {
                return false;
            }
            mass = mass + if cost < 0 {
                -cost
            } else {
                cost
            };
            if mass > COST_LIMIT {
                return false;
            }
            k += 1;
        }
        proof {
            assert(self.entries@.take(k as int) =~= self.entries@);
        }
        true
    }

    /// The sum of the magnitudes over all periods.
    pub fn weight(&self) -> (sum: i128)
        requires
            self.wf(),
        ensures
            sum == self.mass(),
            0 <= sum <= COST_LIMIT,
    {
        let mut sum: i128 = 0;
        let mut i: usize = 0;
        proof {
            assert(self.entries@.take(0) =~= Seq::<PeriodCost>::empty());
            lemma_costs_mass_prefix(self.entries@, 0);
        }
        while i < self.entries.len()
            invariant
                i <= self.entries@.len(),
                sum == costs_mass(self.entries@.take(i as int)),
                0 <= costs_mass(self.entries@.take(i as int)) <= costs_mass(self.entries@),
                costs_mass(self.entries@) <= COST_LIMIT,
            decreases self.entries@.len() - i,
        {
            proof {
                assert(self.entries@.take(i + 1).drop_last() =~= self.entries@.take(i as int));
                lemma_costs_mass_prefix(self.entries@, i + 1);
                lemma_mass_bounds(self.entries@.take(i + 1));
            }
            let cost = self.entries[i].cost;
            sum = sum + if cost < 0 {
                -cost
            } else {
                cost
            };
            i += 1;
        }
        proof {
            assert(self.entries@.take(i as int) =~= self.entries@);
        }
        sum
    }

    /// The sum over all periods.
    pub fn total_cost(&self) -> (sum: i128)
        requires
            self.wf(),
        ensures
            sum == self.total(),
            magnitude(sum as int) <= COST_LIMIT,
    {
        let mut sum: i128 = 0;
        let mut i: usize = 0;
        proof {
            assert(self.entries@.take(0) =~= Seq::<PeriodCost>::empty());
            lemma_costs_mass_prefix(self.entries@, 0);
        }
        while i < self.entries.len()
            invariant
                i <= self.entries@.len(),
                sum == costs_sum(self.entries@.take(i as int)),
                magnitude(sum as int) <= costs_mass(self.entries@.take(i as int)),
                costs_mass(self.entries@.take(i as int)) <= costs_mass(self.entries@),
                costs_mass(self.entries@) <= COST_LIMIT,
            decreases self.entries@.len() - i,
        {
            proof {
                assert(self.entries@.take(i + 1).drop_last() =~= self.entries@.take(i as int));
                lemma_costs_mass_prefix(self.entries@, i + 1);
                lemma_mass_bounds(self.entries@.take(i + 1));
            }
            sum = sum + self.entries[i].cost;
            i += 1;
        }
        proof {
            assert(self.entries@.take(i as int) =~= self.entries@);
        }
        sum
    }
}

/// A prefix weighs no more than the whole.
pub proof fn lemma_costs_mass_prefix(entries: Seq<PeriodCost>, n: int)
    requires
        0 <= n <= entries.len(),
    ensures
        0 <= costs_mass(entries.take(n)) <= costs_mass(entries),
    decreases entries.len(),
{
    lemma_mass_bounds(entries.take(n));
    if n == entries.len() {
        assert(entries.take(n) =~= entries);
    } else {
        lemma_costs_mass_prefix(entries.drop_last(), n);
        assert(entries.drop_last().take(n) =~= entries.take(n));
    }
}

} // verus!
