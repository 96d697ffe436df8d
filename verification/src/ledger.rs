//! Aggregation of one account's billing results.
//!
//! The billing source answers with one result per period, each holding the
//! cost of every group (a service, or a tag value) in that period. The
//! ledger sums them per period and per group and period. A pair of group and
//! period that occurs more than once is summed, never overwritten.

use vstd::prelude::*;
use crate::costs::{with_key, MonthlyCosts};
use crate::money::{magnitude, COST_LIMIT};

verus! {

/// The cost of one group within a period.
pub struct GroupCost {
    pub key: String,
    pub amount: i128,
}

/// What the billing source reports for one period.
pub struct PeriodResult {
    pub period: String,
    pub groups: Vec<GroupCost>,
}

/// The sum of the amounts of all groups.
pub open spec fn groups_total(groups: Seq<GroupCost>) -> int
    decreases groups.len(),
{
    if groups.len() == 0 {
        0
    } else {
        groups_total(groups.drop_last()) + groups.last().amount
    }
}

/// The sum of the amounts of the groups named `key`.
pub open spec fn groups_total_of(groups: Seq<GroupCost>, key: Seq<char>) -> int
    decreases groups.len(),
{
    if groups.len() == 0 {
        0
    } else {
        groups_total_of(groups.drop_last(), key) + if groups.last().key@ == key {
            groups.last().amount as int
        } else {
            0
        }
    }
}

/// Whether a group named `key` occurs.
pub open spec fn groups_name(groups: Seq<GroupCost>, key: Seq<char>) -> bool {
    exists|j: int| 0 <= j < groups.len() && (#[trigger] groups[j]).key@ == key
}

/// The sum of the magnitudes of the amounts of all groups.
pub open spec fn groups_mass(groups: Seq<GroupCost>) -> int
    decreases groups.len(),
{
    if groups.len() == 0 {
        0
    } else {
        groups_mass(groups.drop_last()) + magnitude(groups.last().amount as int)
    }
}

/// The sum of all amounts reported for `period`.
pub open spec fn period_total(results: Seq<PeriodResult>, period: Seq<char>) -> int
    decreases results.len(),
{
    if results.len() == 0 {
        0
    } else {
        period_total(results.drop_last(), period) + if results.last().period@ == period {
            groups_total(results.last().groups@)
        } else {
            0
        }
    }
}

/// The sum of the amounts reported for the group `key` in `period`.
pub open spec fn cell_total(results: Seq<PeriodResult>, key: Seq<char>, period: Seq<char>) -> int
    decreases results.len(),
{
    if results.len() == 0 {
        0
    } else {
        cell_total(results.drop_last(), key, period) + if results.last().period@ == period {
            groups_total_of(results.last().groups@, key)
        } else {
            0
        }
    }
}

/// The sum of all amounts.
pub open spec fn results_total(results: Seq<PeriodResult>) -> int
    decreases results.len(),
{
    if results.len() == 0 {
        0
    } else {
        results_total(results.drop_last()) + groups_total(results.last().groups@)
    }
}

/// The sum of the magnitudes of all amounts.
pub open spec fn results_mass(results: Seq<PeriodResult>) -> int
    decreases results.len(),
{
    if results.len() == 0 {
        0
    } else {
        results_mass(results.drop_last()) + groups_mass(results.last().groups@)
    }
}

/// The periods reported, each once, in the order of their first result.
pub open spec fn periods_seen(results: Seq<PeriodResult>) -> Seq<Seq<char>>
    decreases results.len(),
{
    if results.len() == 0 {
        Seq::empty()
    } else {
        with_key(periods_seen(results.drop_last()), results.last().period@)
    }
}

/// `seen` extended by the group names of `groups`, each once, in order.
pub open spec fn keys_seen(seen: Seq<Seq<char>>, groups: Seq<GroupCost>) -> Seq<Seq<char>>
    decreases groups.len(),
{
    if groups.len() == 0 {
        seen
    } else {
        with_key(keys_seen(seen, groups.drop_last()), groups.last().key@)
    }
}

/// The group names reported, each once, in the order of their first occurrence.
pub open spec fn services_seen(results: Seq<PeriodResult>) -> Seq<Seq<char>>
    decreases results.len(),
{
    if results.len() == 0 {
        Seq::empty()
    } else {
        keys_seen(services_seen(results.drop_last()), results.last().groups@)
    }
}

/// The periods in which the group `key` is reported, each once, in order.
pub open spec fn service_periods(results: Seq<PeriodResult>, key: Seq<char>) -> Seq<Seq<char>>
    decreases results.len(),
{
    if results.len() == 0 {
        Seq::empty()
    } else if groups_name(results.last().groups@, key) {
        with_key(service_periods(results.drop_last(), key), results.last().period@)
    } else {
        service_periods(results.drop_last(), key)
    }
}

/// The month-to-cost table of one group.
pub struct ServiceCosts {
    pub service: String,
    pub monthly: MonthlyCosts,
}

/// The names of a run of group tables, in order.
pub open spec fn service_names(services: Seq<ServiceCosts>) -> Seq<Seq<char>> {
    Seq::new(services.len(), |i: int| services[i].service@)
}

/// The cost that the tables named `key` hold for `period`.
pub open spec fn service_cost(services: Seq<ServiceCosts>, key: Seq<char>, period: Seq<char>) -> int
    decreases services.len(),
{
    if services.len() == 0 {
        0
    } else {
        service_cost(services.drop_last(), key, period) + if services.last().service@ == key {
            services.last().monthly.cost_of(period)
        } else {
            0
        }
    }
}

/// The periods of the table named `key`; empty where there is none.
pub open spec fn service_periods_of(services: Seq<ServiceCosts>, key: Seq<char>) -> Seq<Seq<char>>
    decreases services.len(),
{
    if services.len() == 0 {
        Seq::empty()
    } else if services.last().service@ == key {
        services.last().monthly.periods()
    } else {
        service_periods_of(services.drop_last(), key)
    }
}

/// The sum of the totals of all the tables.
pub open spec fn services_total(services: Seq<ServiceCosts>) -> int
    decreases services.len(),
{
    if services.len() == 0 {
        0
    } else {
        services_total(services.drop_last()) + services.last().monthly.total()
    }
}

/// The sum of the magnitudes that all the tables hold.
pub open spec fn services_mass(services: Seq<ServiceCosts>) -> int
    decreases services.len(),
{
    if services.len() == 0 {
        0
    } else {
        services_mass(services.drop_last()) + services.last().monthly.mass()
    }
}

/// Each name occurs once, each table holds each period once, and the
/// magnitudes together stay within the cost limit.
pub open spec fn services_wf(services: Seq<ServiceCosts>) -> bool {
    &&& service_names(services).no_duplicates()
    &&& forall|i: int|
        0 <= i < services.len() ==> (#[trigger] services[i]).monthly.periods().no_duplicates()
    &&& services_mass(services) <= COST_LIMIT
}

/// The groups of a period add up to no more than they weigh.
pub proof fn lemma_groups_mass_bounds(groups: Seq<GroupCost>)
    ensures
        0 <= groups_mass(groups),
        magnitude(groups_total(groups)) <= groups_mass(groups),
    decreases groups.len(),
{
    if groups.len() > 0 {
        lemma_groups_mass_bounds(groups.drop_last());
    }
}

/// The first groups of a period weigh no more than all of them.
pub proof fn lemma_groups_mass_prefix(groups: Seq<GroupCost>, n: int)
    requires
        0 <= n <= groups.len(),
    ensures
        0 <= groups_mass(groups.take(n)) <= groups_mass(groups),
    decreases groups.len(),
{
    lemma_groups_mass_bounds(groups.take(n));
    if n == groups.len() {
        assert(groups.take(n) =~= groups);
    } else {
        lemma_groups_mass_prefix(groups.drop_last(), n);
        assert(groups.drop_last().take(n) =~= groups.take(n));
    }
}

/// The first results weigh no more than all of them.
pub proof fn lemma_results_mass_prefix(results: Seq<PeriodResult>, n: int)
    requires
        0 <= n <= results.len(),
    ensures
        0 <= results_mass(results.take(n)) <= results_mass(results),
    decreases results.len(),
{
    if n == results.len() {
        assert(results.take(n) =~= results);
        if n > 0 {
            lemma_results_mass_prefix(results.drop_last(), n - 1);
            lemma_groups_mass_bounds(results.last().groups@);
            assert(results.drop_last().take(n - 1) =~= results.take(n - 1));
            lemma_results_mass_prefix(results.drop_last(), results.len() - 1);
            assert(results.drop_last().take(results.len() - 1) =~= results.drop_last());
        }
    } else {
        lemma_results_mass_prefix(results.drop_last(), n);
        lemma_groups_mass_bounds(results.last().groups@);
        assert(results.drop_last().take(n) =~= results.take(n));
    }
}

/// Past the first `n` groups, a group named `key` occurs or does not as in the whole.
pub proof fn lemma_groups_name_step(groups: Seq<GroupCost>, n: int, key: Seq<char>)
    requires
        0 <= n < groups.len(),
    ensures
        groups_name(groups.take(n + 1), key) == (groups_name(groups.take(n), key) || groups[n].key@
            == key),
{
    let short = groups.take(n);
    let long = groups.take(n + 1);
    if groups_name(short, key) {
        let j = choose|j: int| 0 <= j < short.len() && (#[trigger] short[j]).key@ == key;
        assert(long[j].key@ == key);
    }
    if groups[n].key@ == key {
        assert(long[n].key@ == key);
    }
    if groups_name(long, key) {
        let j = choose|j: int| 0 <= j < long.len() && (#[trigger] long[j]).key@ == key;
        if j < n {
            assert(short[j].key@ == key);
        }
    }
}

/// No table weighs more than all tables together.
pub proof fn lemma_services_mass_bounds(services: Seq<ServiceCosts>)
    ensures
        0 <= services_mass(services),
        forall|i: int|
            0 <= i < services.len() ==> 0 <= (#[trigger] services[i]).monthly.mass()
                <= services_mass(services),
    decreases services.len(),
{
    if services.len() > 0 {
        lemma_services_mass_bounds(services.drop_last());
        crate::costs::lemma_mass_bounds(services.last().monthly.entries@);
        assert forall|i: int| 0 <= i < services.len() implies 0 <= (
        #[trigger] services[i]).monthly.mass() <= services_mass(services) by {
            if i < services.len() - 1 {
                assert(services.drop_last()[i] == services[i]);
            }
        }
    }
}

/// A prefix of the tables weighs no more than all of them.
pub proof fn lemma_services_mass_prefix(services: Seq<ServiceCosts>, n: int)
    requires
        0 <= n <= services.len(),
    ensures
        0 <= services_mass(services.take(n)) <= services_mass(services),
    decreases services.len(),
{
    lemma_services_mass_bounds(services.take(n));
    if n == services.len() {
        assert(services.take(n) =~= services);
    } else {
        lemma_services_mass_prefix(services.drop_last(), n);
        crate::costs::lemma_mass_bounds(services.last().monthly.entries@);
        assert(services.drop_last().take(n) =~= services.take(n));
    }
}

/// A name that no table carries reads as zero and has no periods.
pub proof fn lemma_service_absent(services: Seq<ServiceCosts>, key: Seq<char>)
    requires
        !service_names(services).contains(key),
    ensures
        service_periods_of(services, key) == Seq::<Seq<char>>::empty(),
        forall|p: Seq<char>|
                #![trigger service_cost(services, key, p)]
                service_cost(services, key, p) == 0,
    decreases services.len(),
{
    if services.len() > 0 {
        let front = services.drop_last();
        assert(service_names(services)[services.len() - 1] == services.last().service@);
        assert(!service_names(front).contains(key)) by {
            if service_names(front).contains(key) {
                let i = choose|i: int|
                    0 <= i < service_names(front).len() && service_names(front)[i] == key;
                assert(service_names(services)[i] == key);
            }
        }
        lemma_service_absent(front, key);
        assert forall|p: Seq<char>| service_cost(services, key, p) == 0 by {
            assert(service_cost(front, key, p) == 0);
        }
    }
}

/// Where each name occurs once, a name reads as its own table.
pub proof fn lemma_service_present(services: Seq<ServiceCosts>, t: int)
    requires
        0 <= t < services.len(),
        service_names(services).no_duplicates(),
    ensures
        service_periods_of(services, services[t].service@) == services[t].monthly.periods(),
        forall|p: Seq<char>|
                #![trigger service_cost(services, services[t].service@, p)]
                service_cost(services, services[t].service@, p) == services[t].monthly.cost_of(p),
    decreases services.len(),
{
    let key = services[t].service@;
    let front = services.drop_last();
    let last = services.len() - 1;
    assert(service_names(services)[t] == key);
    assert(service_names(services)[last] == services[last].service@);
    assert(service_names(front) =~= service_names(services).drop_last());
    if t == last {
        assert(!service_names(front).contains(key)) by {
            if service_names(front).contains(key) {
                let i = choose|i: int|
                    0 <= i < service_names(front).len() && service_names(front)[i] == key;
                assert(service_names(services)[i] == key);
            }
        }
        lemma_service_absent(front, key);
        assert forall|p: Seq<char>|
            service_cost(services, key, p) == services[t].monthly.cost_of(p) by {
            assert(service_cost(front, key, p) == 0);
        }
    } else {
        assert(front[t] == services[t]);
        lemma_service_present(front, t);
        assert forall|p: Seq<char>|
            service_cost(services, key, p) == services[t].monthly.cost_of(p) by {
            assert(service_cost(front, key, p) == front[t].monthly.cost_of(p));
        }
    }
}

/// Replacing one table by another of the same name changes that name alone.
pub proof fn lemma_service_update(services: Seq<ServiceCosts>, t: int, e: ServiceCosts)
    requires
        0 <= t < services.len(),
        service_names(services).no_duplicates(),
        e.service@ == services[t].service@,
    ensures
        service_names(services.update(t, e)) == service_names(services),
        services_mass(services.update(t, e)) == services_mass(services)
            - services[t].monthly.mass() + e.monthly.mass(),
        services_total(services.update(t, e)) == services_total(services)
            - services[t].monthly.total() + e.monthly.total(),
        forall|k: Seq<char>|
            #![trigger service_periods_of(services.update(t, e), k)]
            service_periods_of(services.update(t, e), k) == if k == e.service@ {
                e.monthly.periods()
            } else {
                service_periods_of(services, k)
            },
        forall|k: Seq<char>, p: Seq<char>|
            #![trigger service_cost(services.update(t, e), k, p)]
            service_cost(services.update(t, e), k, p) == if k == e.service@ {
                e.monthly.cost_of(p)
            } else {
                service_cost(services, k, p)
            },
    decreases services.len(),
{
    let after = services.update(t, e);
    let front = services.drop_last();
    let last = services.len() - 1;
    assert(service_names(after) =~= service_names(services));
    assert(service_names(front) =~= service_names(services).drop_last());
    assert(service_names(services)[t] == e.service@);
    assert(service_names(services)[last] == services[last].service@);
    if t == last {
        assert(after.drop_last() =~= front);
        assert(after.last() == e);
        assert(!service_names(front).contains(e.service@)) by {
            if service_names(front).contains(e.service@) {
                let i = choose|i: int|
                    0 <= i < service_names(front).len() && service_names(front)[i] == e.service@;
                assert(service_names(services)[i] == e.service@);
            }
        }
        lemma_service_absent(front, e.service@);
        assert forall|k: Seq<char>, p: Seq<char>|
            service_cost(after, k, p) == if k == e.service@ {
                e.monthly.cost_of(p)
            } else {
                service_cost(services, k, p)
            } by {
            if k == e.service@ {
                assert(service_cost(front, k, p) == 0);
            }
        }
    } else {
        lemma_service_update(front, t, e);
        assert(after.drop_last() =~= front.update(t, e));
        assert(after.last() == services.last());
        assert(front[t] == services[t]);
        assert forall|k: Seq<char>|
            service_periods_of(after, k) == if k == e.service@ {
                e.monthly.periods()
            } else {
                service_periods_of(services, k)
            } by {
            assert(service_periods_of(front.update(t, e), k) == service_periods_of(
                after.drop_last(),
                k,
            ));
        }
        assert forall|k: Seq<char>, p: Seq<char>|
            service_cost(after, k, p) == if k == e.service@ {
                e.monthly.cost_of(p)
            } else {
                service_cost(services, k, p)
            } by {
            assert(service_cost(front.update(t, e), k, p) == service_cost(after.drop_last(), k, p));
        }
    }
}

/// The position of the table named `key`, if there is one.
pub fn service_position(services: &Vec<ServiceCosts>, key: &String) -> (found: Option<usize>)
    ensures
        match found {
            Some(t) => t < services@.len() && services@[t as int].service@ == key@ && forall|i: int|
                0 <= i < t ==> (#[trigger] services@[i]).service@ != key@,
            None => !service_names(services@).contains(key@),
        },
{
    let mut i: usize = 0;
    while i < services.len()
        invariant
            i <= services@.len(),
            forall|j: int| 0 <= j < i ==> (#[trigger] services@[j]).service@ != key@,
        decreases services@.len() - i,
    {
        if services[i].service == *key {
            return Some(i);
        }
        i += 1;
    }
    proof {
        assert forall|j: int| 0 <= j < service_names(services@).len() implies service_names(
            services@,
        )[j] != key@ by {
            assert(services@[j].service@ != key@);
        }
    }
    None
}

/// Books `amount` on the group `key` in `period`, opening a table for a new group.
pub fn record_group(services: &mut Vec<ServiceCosts>, key: &String, period: &String, amount: i128)
    requires
        services_wf(old(services)@),
        services_mass(old(services)@) + magnitude(amount as int) <= COST_LIMIT,
    ensures
        services_wf(final(services)@),
        service_names(final(services)@) == with_key(service_names(old(services)@), key@),
        services_mass(final(services)@) <= services_mass(old(services)@) + magnitude(amount as int),
        services_total(final(services)@) == services_total(old(services)@) + amount,
        forall|k: Seq<char>|
            #![trigger service_periods_of(final(services)@, k)]
            service_periods_of(final(services)@, k) == if k == key@ {
                with_key(service_periods_of(old(services)@, k), period@)
            } else {
                service_periods_of(old(services)@, k)
            },
        forall|k: Seq<char>, p: Seq<char>|
            #![trigger service_cost(final(services)@, k, p)]
            service_cost(final(services)@, k, p) == service_cost(old(services)@, k, p) + if k == key@
                && p == period@ {
                amount as int
            } else {
                0
            },
{
    let ghost before = services@;
    let found = service_position(services, key);
    let t: usize = match found {
        Some(t) => {
            proof {
                assert(service_names(before)[t as int] == key@);
            }
            t
        },
        None => {
            let fresh = ServiceCosts { service: key.clone(), monthly: MonthlyCosts::new() };
            services.push(fresh);
            proof {
                assert(services@.drop_last() =~= before);
                assert(service_names(services@) =~= service_names(before).push(key@));
                lemma_service_absent(before, key@);
                assert(fresh.monthly.periods() =~= Seq::<Seq<char>>::empty());
            }
            services.len() - 1
        },
    };
    let ghost opened = services@;
    proof {
        assert(service_names(opened) == with_key(service_names(before), key@));
        assert(service_names(opened).no_duplicates()) by {
            if found is None {
                assert forall|i: int, j: int|
                    0 <= i < opened.len() && 0 <= j < opened.len() && i != j implies service_names(
                    opened,
                )[i] != service_names(opened)[j] by {
                    if i < before.len() {
                        assert(service_names(before)[i] == service_names(opened)[i]);
                    }
                    if j < before.len() {
                        assert(service_names(before)[j] == service_names(opened)[j]);
                    }
                }
            }
        }
        assert(services_mass(opened) == services_mass(before));
        assert(services_total(opened) == services_total(before));
        assert forall|i: int| 0 <= i < opened.len() implies (
        #[trigger] opened[i]).monthly.periods().no_duplicates() by {
            if i < before.len() {
                assert(opened[i] == before[i]);
            }
        }
        assert forall|k: Seq<char>| service_periods_of(opened, k) == service_periods_of(before, k) by {}
        assert forall|k: Seq<char>, p: Seq<char>|
            service_cost(opened, k, p) == service_cost(before, k, p) by {}
        lemma_services_mass_bounds(opened);
        lemma_service_present(opened, t as int);
    }
    let held = services.remove(t);
    let mut monthly = held.monthly;
    monthly.add(period, amount);
    let entry = ServiceCosts { service: held.service, monthly };
    services.insert(t, entry);
    proof {
        assert(services@ =~= opened.update(t as int, entry));
        lemma_service_update(opened, t as int, entry);
        assert forall|i: int| 0 <= i < services@.len() implies (
        #[trigger] services@[i]).monthly.periods().no_duplicates() by {
            if i != t {
                assert(services@[i] == opened[i]);
            }
        }
    }
}

/// What one account's results add up to.
pub struct AccountLedger {
    pub monthly: MonthlyCosts,
    pub services: Vec<ServiceCosts>,
}

impl AccountLedger {
    /// Both sides are well formed, and the groups add up to the periods.
    pub open spec fn wf(&self) -> bool {
        &&& self.monthly.wf()
        &&& services_wf(self.services@)
        &&& self.monthly.total() == services_total(self.services@)
    }

    /// Decides `wf`.
    pub fn is_wf(&self) -> (ok: bool)
        ensures
            ok == self.wf(),
    {
        if !self.monthly.is_wf() || !group_tables_wf(&self.services) {
            return false;
        }
        let mut total: i128 = 0;
        let mut i: usize = 0;
        proof {
            assert(self.services@.take(0) =~= Seq::<ServiceCosts>::empty());
            lemma_services_mass_bounds(self.services@);
        }
        while i < self.services.len()
            invariant
                i <= self.services@.len(),
                services_wf(self.services@),
                total == services_total(self.services@.take(i as int)),
                magnitude(total as int) <= services_mass(self.services@.take(i as int)),
                services_mass(self.services@.take(i as int)) <= services_mass(self.services@),
            decreases self.services@.len() - i,
        {
            proof {
                assert(self.services@.take(i + 1).drop_last() =~= self.services@.take(i as int));
                assert(self.services@.take(i + 1).last() == self.services@[i as int]);
                lemma_services_mass_bounds(self.services@);
                lemma_services_mass_prefix(self.services@, i + 1);
                crate::costs::lemma_mass_bounds(self.services@[i as int].monthly.entries@);
            }
            total = total + self.services[i].monthly.total_cost();
            i += 1;
        }
        proof {
            assert(self.services@.take(i as int) =~= self.services@);
        }
        self.monthly.total_cost() == total
    }
}

/// Decides `services_wf`.
pub fn group_tables_wf(services: &Vec<ServiceCosts>) -> (ok: bool)
    ensures
        ok == services_wf(services@),
{
    let n = services.len();
    let mut i: usize = 0;
    while i < n
        invariant
            n == services@.len(),
            i <= n,
            forall|a: int, b: int| 0 <= a < b < i ==> services@[a].service@ != services@[b].service@,
        decreases n - i,
    {
        let mut j: usize = 0;
        while j < i
            invariant
                n == services@.len(),
                j <= i < n,
                forall|a: int| 0 <= a < j ==> services@[a].service@ != services@[i as int].service@,
            decreases i - j,
        {
            if services[j].service == services[i].service {
                proof {
                    assert(service_names(services@)[j as int] == service_names(services@)[i as int]);
                }
                return false;
            }
            j += 1;
        }
        i += 1;
    }
    proof {
        assert forall|a: int, b: int|
            0 <= a < service_names(services@).len() && 0 <= b < service_names(services@).len() && a
                != b implies service_names(services@)[a] != service_names(services@)[b] by {
            if a < b {
                assert(services@[a].service@ != services@[b].service@);
            } else {
                assert(services@[b].service@ != services@[a].service@);
            }
        }
        assert(services@.take(0) =~= Seq::<ServiceCosts>::empty());
        lemma_services_mass_bounds(services@);
    }
    let mut mass: i128 = 0;
    let mut k: usize = 0;
    while k < n
        invariant
            n == services@.len(),
            k <= n,
            service_names(services@).no_duplicates(),
            forall|t: int| 0 <= t < k ==> (#[trigger] services@[t]).monthly.periods().no_duplicates(),
            mass == services_mass(services@.take(k as int)),
            0 <= mass <= COST_LIMIT,
        decreases n - k,
    {
        proof {
            assert(services@.take(k + 1).drop_last() =~= services@.take(k as int));
            assert(services@.take(k + 1).last() == services@[k as int]);
            lemma_services_mass_prefix(services@, k + 1);
            lemma_services_mass_bounds(services@);
        }
        if !services[k].monthly.is_wf() {
            return false;
        }
        mass = mass + services[k].monthly.weight();
        if mass > COST_LIMIT {
            return false;
        }
        k += 1;
    }
    proof {
        assert(services@.take(k as int) =~= services@);
    }
    true
}

/// Sums one account's results per period, and per group and period.
///
/// The table of periods holds every period reported, also one without
/// groups, in the order of first report; each group's table holds the
/// periods in which the group was reported.
pub fn aggregate(results: &Vec<PeriodResult>) -> (ledger: AccountLedger)
    requires
        results_mass(results@) <= COST_LIMIT,
    ensures
        ledger.wf(),
        ledger.monthly.periods() == periods_seen(results@),
        forall|p: Seq<char>|
                #![trigger ledger.monthly.cost_of(p)]
                ledger.monthly.cost_of(p) == period_total(results@, p),
        service_names(ledger.services@) == services_seen(results@),
        forall|k: Seq<char>|
                #![trigger service_periods_of(ledger.services@, k)]
                service_periods_of(ledger.services@, k) == service_periods(results@, k),
        forall|k: Seq<char>, p: Seq<char>|
                #![trigger service_cost(ledger.services@, k, p)]
                service_cost(ledger.services@, k, p) == cell_total(results@, k, p),
        ledger.monthly.total() == results_total(results@),
        ledger.monthly.mass() <= results_mass(results@),
        services_mass(ledger.services@) <= results_mass(results@),
{
    let mut monthly = MonthlyCosts::new();
    let mut services: Vec<ServiceCosts> = Vec::new();
    let mut i: usize = 0;
    proof {
        assert(results@.take(0) =~= Seq::<PeriodResult>::empty());
        assert(monthly.periods() =~= Seq::<Seq<char>>::empty());
        assert(service_names(services@) =~= Seq::<Seq<char>>::empty());
    }
    while i < results.len()
        invariant
            i <= results@.len(),
            results_mass(results@) <= COST_LIMIT,
            monthly.wf(),
            services_wf(services@),
            monthly.periods() == periods_seen(results@.take(i as int)),
            forall|p: Seq<char>|
                #![trigger monthly.cost_of(p)]
                monthly.cost_of(p) == period_total(results@.take(i as int), p),
            service_names(services@) == services_seen(results@.take(i as int)),
            forall|k: Seq<char>|
                #![trigger service_periods_of(services@, k)]
                service_periods_of(services@, k) == service_periods(results@.take(i as int), k),
            forall|k: Seq<char>, p: Seq<char>|
                #![trigger service_cost(services@, k, p)]
                service_cost(services@, k, p) == cell_total(results@.take(i as int), k, p),
            monthly.mass() <= results_mass(results@.take(i as int)),
            services_mass(services@) <= results_mass(results@.take(i as int)),
            monthly.total() == results_total(results@.take(i as int)),
            services_total(services@) == results_total(results@.take(i as int)),
        decreases results@.len() - i,
    {
        let result = &results[i];
        let ghost done = results@.take(i as int);
        let ghost groups = result.groups@;
        let mut total: i128 = 0;
        let mut j: usize = 0;
        proof {
            assert(results@.take(i + 1).drop_last() =~= done);
            assert(results@.take(i + 1).last() == results@[i as int]);
            lemma_results_mass_prefix(results@, i + 1);
            lemma_results_mass_prefix(results@, i as int);
            lemma_groups_mass_bounds(groups);
            assert(groups.take(0) =~= Seq::<GroupCost>::empty());
            assert(!groups_name(groups.take(0), arbitrary()));
        }
        while j < result.groups.len()
            invariant
                j <= groups.len(),
                groups == result.groups@,
                results_mass(done) + groups_mass(groups) <= COST_LIMIT,
                0 <= results_mass(done),
                total == groups_total(groups.take(j as int)),
                services_wf(services@),
                service_names(services@) == keys_seen(services_seen(done), groups.take(j as int)),
                forall|k: Seq<char>|
                #![trigger service_periods_of(services@, k)]
                service_periods_of(services@, k) == if groups_name(groups.take(j as int), k) {
                        with_key(service_periods(done, k), result.period@)
                    } else {
                        service_periods(done, k)
                    },
                forall|k: Seq<char>, p: Seq<char>|
                #![trigger service_cost(services@, k, p)]
                service_cost(services@, k, p) == cell_total(done, k, p) + if p
                        == result.period@ {
                        groups_total_of(groups.take(j as int), k)
                    } else {
                        0
                    },
                services_mass(services@) <= results_mass(done) + groups_mass(
                    groups.take(j as int),
                ),
                services_total(services@) == results_total(done) + groups_total(
                    groups.take(j as int),
                ),
            decreases groups.len() - j,
        {
            let group = &result.groups[j];
            proof {
                assert(groups.take(j + 1).drop_last() =~= groups.take(j as int));
                assert(groups.take(j + 1).last() == groups[j as int]);
                lemma_groups_mass_prefix(groups, j + 1);
                lemma_groups_mass_prefix(groups, j as int);
                lemma_groups_mass_bounds(groups.take(j as int));
                lemma_groups_mass_bounds(groups.take(j + 1));
                assert forall|k: Seq<char>|
                    groups_name(groups.take(j + 1), k) == (groups_name(groups.take(j as int), k)
                        || groups[j as int].key@ == k) by {
                    lemma_groups_name_step(groups, j as int, k);
                }
            }
            total = total + group.amount;
            record_group(&mut services, &group.key, &result.period, group.amount);
            proof {
                assert forall|k: Seq<char>|
                    with_key(with_key(service_periods(done, k), result.period@), result.period@)
                        == with_key(service_periods(done, k), result.period@) by {
                    lemma_with_key_twice(service_periods(done, k), result.period@);
                }
            }
            j += 1;
        }
        proof {
            assert(groups.take(j as int) =~= groups);
            lemma_groups_mass_bounds(groups);
        }
        monthly.add(&result.period, total);
        i += 1;
    }
    proof {
        assert(results@.take(i as int) =~= results@);
    }
    AccountLedger { monthly, services }
}

/// Why an account has no part in a run.
#[derive(Clone, Copy, Debug)]
pub enum SkipReason {
    /// The billing source gave no answer for the account.
    FetchFailed,
    /// The amounts of the account go beyond the cost limit.
    CostOutOfRange,
}

/// Whether the magnitudes of all amounts stay within the cost limit.
pub fn results_fit(results: &Vec<PeriodResult>) -> (fit: bool)
    ensures
        fit == (results_mass(results@) <= COST_LIMIT),
{
    let mut mass: i128 = 0;
    let mut i: usize = 0;
    proof {
        assert(results@.take(0) =~= Seq::<PeriodResult>::empty());
    }
    while i < results.len()
        invariant
            i <= results@.len(),
            mass == results_mass(results@.take(i as int)),
            0 <= mass <= COST_LIMIT,
        decreases results@.len() - i,
    {
        let result = &results[i];
        let ghost done = results@.take(i as int);
        let ghost groups = result.groups@;
        let mut j: usize = 0;
        proof {
            assert(results@.take(i + 1).drop_last() =~= done);
            assert(results@.take(i + 1).last() == results@[i as int]);
            lemma_results_mass_prefix(results@, i + 1);
            assert(groups.take(0) =~= Seq::<GroupCost>::empty());
        }
        while j < result.groups.len()
            invariant
                j <= groups.len(),
                groups == result.groups@,
                mass == results_mass(done) + groups_mass(groups.take(j as int)),
                0 <= mass <= COST_LIMIT,
                results_mass(done) + groups_mass(groups) <= results_mass(results@),
            decreases groups.len() - j,
        {
            let amount = result.groups[j].amount;
            proof {
                assert(groups.take(j + 1).drop_last() =~= groups.take(j as int));
                assert(groups.take(j + 1).last() == groups[j as int]);
                lemma_groups_mass_prefix(groups, j + 1);
            }
            if amount > COST_LIMIT || amount < -COST_LIMIT {
                return false;
            }
            mass = mass + if amount < 0 {
                -amount
            } else {
                amount
            };
            if mass > COST_LIMIT {
                return false;
            }
            j += 1;
        }
        proof {
            assert(groups.take(j as int) =~= groups);
        }
        i += 1;
    }
    proof {
        assert(results@.take(i as int) =~= results@);
    }
    true
}

/// `ledger` is what `results` add up to.
pub open spec fn is_ledger_of(ledger: AccountLedger, results: Seq<PeriodResult>) -> bool {
    &&& ledger.wf()
    &&& ledger.monthly.periods() == periods_seen(results)
    &&& forall|p: Seq<char>| #[trigger] ledger.monthly.cost_of(p) == period_total(results, p)
    &&& service_names(ledger.services@) == services_seen(results)
    &&& forall|k: Seq<char>| #[trigger]
        service_periods_of(ledger.services@, k) == service_periods(results, k)
    &&& forall|k: Seq<char>, p: Seq<char>| #[trigger]
        service_cost(ledger.services@, k, p) == cell_total(results, k, p)
    &&& ledger.monthly.total() == results_total(results)
}

/// Turns what the billing source answered for an account into the
/// account's ledger, or into the reason for leaving the account out: no
/// answer, or amounts beyond the cost limit.
pub fn ingest(fetched: Option<Vec<PeriodResult>>) -> (r: Result<AccountLedger, SkipReason>)
    ensures
        match r {
            Ok(ledger) => fetched matches Some(results) && results_mass(results@) <= COST_LIMIT
                && is_ledger_of(ledger, results@),
            Err(SkipReason::FetchFailed) => fetched is None,
            Err(SkipReason::CostOutOfRange) => fetched matches Some(results) && results_mass(
                results@,
            ) > COST_LIMIT,
        },
{
    match fetched {
        None => Err(SkipReason::FetchFailed),
        Some(results) => {
            if results_fit(&results) {
                Ok(aggregate(&results))
            } else {
                Err(SkipReason::CostOutOfRange)
            }
        },
    }
}

/// Appending a key a second time changes nothing.
pub proof fn lemma_with_key_twice(seen: Seq<Seq<char>>, key: Seq<char>)
    ensures
        with_key(seen, key).contains(key),
        with_key(with_key(seen, key), key) == with_key(seen, key),
{
    if !seen.contains(key) {
        assert(seen.push(key)[seen.len() as int] == key);
    }
}

} // verus!
