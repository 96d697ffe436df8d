//! Ranked service shares.
//!
//! A group whose costs add up to nothing, or to a credit, is no consumption
//! and is left out. Each remaining group gets its share of what the
//! remaining groups cost together, and the groups are listed from the
//! costliest down, groups of equal cost in the order of their first report.

use vstd::prelude::*;
use crate::costs::{lemma_mass_bounds, MonthlyCosts};
use crate::ledger::{
    lemma_services_mass_bounds, lemma_services_mass_prefix, services_mass, services_total,
    services_wf, ServiceCosts,
};
use crate::money::{
    lemma_round_div_bound, lemma_round_div_nearest, magnitude, round_div, rounded_quotient,
    COST_LIMIT,
};

verus! {

/// One group's place in an account's consumption.
pub struct ServiceShare {
    pub service: String,
    pub monthly: MonthlyCosts,
    pub total_cost: i128,
    pub percent_of_total: i128,
}

/// The test for being listed: a total above zero.
pub open spec fn survives() -> spec_fn(ServiceCosts) -> bool {
    |s: ServiceCosts| s.monthly.total() > 0
}

/// The test for having the total `t`.
pub open spec fn has_total(t: int) -> spec_fn(ServiceCosts) -> bool {
    |s: ServiceCosts| s.monthly.total() == t
}

/// The groups that are listed, in the order of their first report.
pub open spec fn surviving(services: Seq<ServiceCosts>) -> Seq<ServiceCosts> {
    services.filter(survives())
}

/// What the listed groups cost together.
pub open spec fn surviving_total(services: Seq<ServiceCosts>) -> int {
    services_total(surviving(services))
}

/// `total` in percent of `all`, rounded; zero where `all` is zero.
pub open spec fn share_percent(total: int, all: int) -> int {
    if all == 0 {
        0
    } else {
        round_div(100 * total, all)
    }
}

/// `sorted` with `x` put behind the last group that costs as much as `x` or more.
pub open spec fn place(sorted: Seq<ServiceCosts>, x: ServiceCosts) -> Seq<ServiceCosts>
    decreases sorted.len(),
{
    if sorted.len() == 0 {
        seq![x]
    } else if sorted.last().monthly.total() >= x.monthly.total() {
        sorted.push(x)
    } else {
        place(sorted.drop_last(), x).push(sorted.last())
    }
}

/// The groups from the costliest down, equal ones in their given order.
pub open spec fn ranked(services: Seq<ServiceCosts>) -> Seq<ServiceCosts>
    decreases services.len(),
{
    if services.len() == 0 {
        Seq::empty()
    } else {
        place(ranked(services.drop_last()), services.last())
    }
}

/// No group costs more than one before it.
pub open spec fn descending(services: Seq<ServiceCosts>) -> bool {
    forall|i: int, j: int|
        0 <= i < j < services.len() ==> (#[trigger] services[i]).monthly.total() >= (
        #[trigger] services[j]).monthly.total()
}

/// `share` is the share of the group `source` where all listed groups cost `all`.
pub open spec fn is_share_of(share: ServiceShare, source: ServiceCosts, all: int) -> bool {
    &&& share.service == source.service
    &&& share.monthly == source.monthly
    &&& share.total_cost == source.monthly.total()
    &&& share.percent_of_total == share_percent(source.monthly.total(), all)
}

/// `shares` is the ranked list of the shares of `services`.
pub open spec fn shares_of(shares: Seq<ServiceShare>, services: Seq<ServiceCosts>) -> bool {
    &&& shares.len() == ranked(surviving(services)).len()
    &&& forall|i: int|
        0 <= i < shares.len() ==> is_share_of(
            #[trigger] shares[i],
            ranked(surviving(services))[i],
            surviving_total(services),
        )
}

/// The sum of the totals of a list of shares.
pub open spec fn shares_total(shares: Seq<ServiceShare>) -> int
    decreases shares.len(),
{
    if shares.len() == 0 {
        0
    } else {
        shares_total(shares.drop_last()) + shares.last().total_cost
    }
}

/// The sum of the percentages of a list of shares.
pub open spec fn percent_sum(shares: Seq<ServiceShare>) -> int
    decreases shares.len(),
{
    if shares.len() == 0 {
        0
    } else {
        percent_sum(shares.drop_last()) + shares.last().percent_of_total
    }
}

/// Where `place` puts a group: behind position `at` exactly when everything
/// from `at` on costs less and the group before `at` does not.
pub proof fn lemma_place_at(sorted: Seq<ServiceCosts>, x: ServiceCosts, at: int)
    requires
        0 <= at <= sorted.len(),
        forall|j: int|
            at <= j < sorted.len() ==> (#[trigger] sorted[j]).monthly.total() < x.monthly.total(),
        at > 0 ==> sorted[at - 1].monthly.total() >= x.monthly.total(),
    ensures
        place(sorted, x) == sorted.insert(at, x),
    decreases sorted.len(),
{
    if sorted.len() == 0 {
        assert(seq![x] =~= sorted.insert(at, x));
    } else if at == sorted.len() {
        assert(sorted.push(x) =~= sorted.insert(at, x));
    } else {
        let front = sorted.drop_last();
        assert(sorted[sorted.len() - 1].monthly.total() < x.monthly.total());
        assert forall|j: int| at <= j < front.len() implies (#[trigger] front[j]).monthly.total()
            < x.monthly.total() by {
            assert(front[j] == sorted[j]);
        }
        if at > 0 {
            assert(front[at - 1] == sorted[at - 1]);
        }
        lemma_place_at(front, x, at);
        assert(front.insert(at, x).push(sorted.last()) =~= sorted.insert(at, x));
    }
}

/// The position that `place` chooses.
pub proof fn lemma_place_position(sorted: Seq<ServiceCosts>, x: ServiceCosts) -> (at: int)
    ensures
        0 <= at <= sorted.len(),
        place(sorted, x) == sorted.insert(at, x),
        forall|j: int|
            at <= j < sorted.len() ==> (#[trigger] sorted[j]).monthly.total() < x.monthly.total(),
        at > 0 ==> sorted[at - 1].monthly.total() >= x.monthly.total(),
    decreases sorted.len(),
{
    if sorted.len() == 0 {
        assert(seq![x] =~= sorted.insert(0, x));
        0
    } else if sorted.last().monthly.total() >= x.monthly.total() {
        assert(sorted.push(x) =~= sorted.insert(sorted.len() as int, x));
        sorted.len() as int
    } else {
        let front = sorted.drop_last();
        let at = lemma_place_position(front, x);
        assert(front.insert(at, x).push(sorted.last()) =~= sorted.insert(at, x));
        assert forall|j: int| at <= j < sorted.len() implies (#[trigger] sorted[j]).monthly.total()
            < x.monthly.total() by {
            if j < front.len() {
                assert(front[j] == sorted[j]);
            }
        }
        if at > 0 {
            assert(front[at - 1] == sorted[at - 1]);
        }
        at
    }
}

/// Placing a group keeps a descending list descending, lengthens it by one
/// and adds the group's total to the sum.
pub proof fn lemma_place_keeps(sorted: Seq<ServiceCosts>, x: ServiceCosts)
    ensures
        place(sorted, x).len() == sorted.len() + 1,
        services_total(place(sorted, x)) == services_total(sorted) + x.monthly.total(),
        descending(sorted) ==> descending(place(sorted, x)),
        forall|t: int|
            #![trigger place(sorted, x).filter(has_total(t))]
            place(sorted, x).filter(has_total(t)) == if x.monthly.total() == t {
                sorted.filter(has_total(t)).push(x)
            } else {
                sorted.filter(has_total(t))
            },
    decreases sorted.len(),
{
    reveal(Seq::filter);
    let placed = place(sorted, x);
    if sorted.len() == 0 {
        assert(placed.drop_last() =~= sorted);
        assert forall|t: int|
            placed.filter(has_total(t)) == if x.monthly.total() == t {
                sorted.filter(has_total(t)).push(x)
            } else {
                sorted.filter(has_total(t))
            } by {
            assert(placed.last() == x);
        }
    } else if sorted.last().monthly.total() >= x.monthly.total() {
        assert(placed.drop_last() =~= sorted);
        assert(placed.last() == x);
        if descending(sorted) {
            assert forall|i: int, j: int| 0 <= i < j < placed.len() implies (
            #[trigger] placed[i]).monthly.total() >= (#[trigger] placed[j]).monthly.total() by {
                if j < sorted.len() {
                    assert(sorted[i].monthly.total() >= sorted[j].monthly.total());
                } else if i < sorted.len() - 1 {
                    assert(sorted[i].monthly.total() >= sorted[sorted.len() - 1].monthly.total());
                }
            }
        }
        assert forall|t: int|
            placed.filter(has_total(t)) == if x.monthly.total() == t {
                sorted.filter(has_total(t)).push(x)
            } else {
                sorted.filter(has_total(t))
            } by {
            assert(placed.last() == x);
        }
    } else {
        let front = sorted.drop_last();
        let last = sorted.last();
        let inner = place(front, x);
        lemma_place_keeps(front, x);
        assert(placed.drop_last() =~= inner);
        assert(placed.last() == last);
        if descending(sorted) {
            assert(descending(front)) by {
                assert forall|i: int, j: int| 0 <= i < j < front.len() implies (
                #[trigger] front[i]).monthly.total() >= (#[trigger] front[j]).monthly.total() by {
                    assert(sorted[i].monthly.total() >= sorted[j].monthly.total());
                }
            }
            let at = lemma_place_position(front, x);
            assert forall|i: int, j: int| 0 <= i < j < placed.len() implies (
            #[trigger] placed[i]).monthly.total() >= (#[trigger] placed[j]).monthly.total() by {
                if j < inner.len() {
                    assert(inner[i].monthly.total() >= inner[j].monthly.total());
                } else {
                    // the last of `sorted` costs less than `x` and no more than any before it
                    if i == at {
                    } else if i < at {
                        assert(front[i] == sorted[i]);
                        assert(sorted[i].monthly.total() >= sorted[sorted.len() - 1].monthly.total());
                    } else {
                        assert(front[i - 1] == sorted[i - 1]);
                        assert(sorted[i - 1].monthly.total() >= sorted[sorted.len()
                            - 1].monthly.total());
                    }
                }
            }
        }
        assert forall|t: int|
            placed.filter(has_total(t)) == if x.monthly.total() == t {
                sorted.filter(has_total(t)).push(x)
            } else {
                sorted.filter(has_total(t))
            } by {
            let f = has_total(t);
            assert(inner.filter(f) == if x.monthly.total() == t {
                front.filter(f).push(x)
            } else {
                front.filter(f)
            });
            assert(placed.filter(f) == if f(last) {
                inner.filter(f).push(last)
            } else {
                inner.filter(f)
            });
            assert(sorted.filter(f) == if f(last) {
                front.filter(f).push(last)
            } else {
                front.filter(f)
            });
        }
    }
}

/// Ranking keeps every group, orders them from the costliest down, and
/// leaves groups of equal cost in their given order.
pub proof fn lemma_ranked(services: Seq<ServiceCosts>)
    ensures
        ranked(services).len() == services.len(),
        services_total(ranked(services)) == services_total(services),
        descending(ranked(services)),
        forall|t: int|
            #![trigger ranked(services).filter(has_total(t))]
            ranked(services).filter(has_total(t)) == services.filter(has_total(t)),
    decreases services.len(),
{
    reveal(Seq::filter);
    if services.len() == 0 {
        assert forall|t: int| ranked(services).filter(has_total(t)) == services.filter(has_total(t)) by {
            assert(ranked(services) =~= services);
        }
    } else {
        let front = services.drop_last();
        lemma_ranked(front);
        lemma_place_keeps(ranked(front), services.last());
        assert forall|t: int| ranked(services).filter(has_total(t)) == services.filter(has_total(t)) by {
            let f = has_total(t);
            assert(ranked(front).filter(f) == front.filter(f));
            assert(place(ranked(front), services.last()).filter(f) == if services.last().monthly.total()
                == t {
                ranked(front).filter(f).push(services.last())
            } else {
                ranked(front).filter(f)
            });
        }
    }
}

/// Every ranked group is one of the given groups.
pub proof fn lemma_ranked_member(services: Seq<ServiceCosts>, i: int)
    requires
        0 <= i < ranked(services).len(),
    ensures
        services.contains(ranked(services)[i]),
    decreases services.len(),
{
    if services.len() > 0 {
        let front = services.drop_last();
        let at = lemma_place_position(ranked(front), services.last());
        lemma_ranked(front);
        if i == at {
            assert(services[services.len() - 1] == services.last());
        } else {
            let k = if i < at { i } else { i - 1 };
            lemma_ranked_member(front, k);
            let m = choose|m: int| 0 <= m < front.len() && front[m] == ranked(front)[k];
            assert(services[m] == front[m]);
        }
    }
}

/// The listed groups cost more than nothing each, and together no less
/// than all groups: what is left out is zero or a credit.
pub proof fn lemma_surviving(services: Seq<ServiceCosts>)
    ensures
        forall|i: int|
            0 <= i < surviving(services).len() ==> (#[trigger] surviving(services)[i]).monthly.total()
                > 0 && services.contains(surviving(services)[i]),
        forall|i: int|
            0 <= i < surviving(services).len() ==> (#[trigger] surviving(services)[i]).monthly.total()
                <= surviving_total(services),
        surviving_total(services) >= 0,
        surviving_total(services) >= services_total(services),
        (forall|i: int| 0 <= i < services.len() ==> (#[trigger] services[i]).monthly.total() >= 0)
            ==> surviving_total(services) == services_total(services),
        services_mass(surviving(services)) <= services_mass(services),
    decreases services.len(),
{
    reveal(Seq::filter);
    if services.len() == 0 {
    } else {
        let front = services.drop_last();
        let last = services.last();
        lemma_surviving(front);
        lemma_mass_bounds(last.monthly.entries@);
        let kept = surviving(services);
        assert(kept == if last.monthly.total() > 0 {
            surviving(front).push(last)
        } else {
            surviving(front)
        });
        if last.monthly.total() > 0 {
            assert(kept.drop_last() =~= surviving(front));
        }
        assert forall|i: int| 0 <= i < kept.len() implies (#[trigger] kept[i]).monthly.total() > 0
            && services.contains(kept[i]) && kept[i].monthly.total() <= surviving_total(
            services,
        ) by {
            if i < surviving(front).len() {
                assert(kept[i] == surviving(front)[i]);
                let m = choose|m: int| 0 <= m < front.len() && front[m] == kept[i];
                assert(services[m] == kept[i]);
            } else {
                assert(services[services.len() - 1] == last);
            }
        }
        if forall|i: int| 0 <= i < services.len() ==> (#[trigger] services[i]).monthly.total() >= 0 {
            assert forall|i: int| 0 <= i < front.len() implies (#[trigger] front[i]).monthly.total()
                >= 0 by {
                assert(front[i] == services[i]);
            }
            assert(services[services.len() - 1].monthly.total() >= 0);
        }
    }
}

/// The percentages of shares taken against what the shares cost together
/// add up to a hundred, give or take half a point for each share.
pub proof fn lemma_percent_error(shares: Seq<ServiceShare>, all: int)
    requires
        all > 0,
        forall|i: int|
            0 <= i < shares.len() ==> (#[trigger] shares[i]).percent_of_total == round_div(
                100 * shares[i].total_cost,
                all,
            ),
    ensures
        2 * magnitude(all * percent_sum(shares) - 100 * shares_total(shares)) <= shares.len() * all,
    decreases shares.len(),
{
    if shares.len() == 0 {
        assert(shares.len() * all == 0) by (nonlinear_arith)
            requires
                shares.len() == 0,
        ;
    } else {
        let front = shares.drop_last();
        let last = shares.last();
        assert forall|i: int| 0 <= i < front.len() implies (#[trigger] front[i]).percent_of_total
            == round_div(100 * front[i].total_cost, all) by {
            assert(front[i] == shares[i]);
        }
        lemma_percent_error(front, all);
        assert(shares[shares.len() - 1].percent_of_total == round_div(100 * last.total_cost, all));
        lemma_round_div_nearest(100 * last.total_cost, all);
        let p = last.percent_of_total as int;
        let t = last.total_cost as int;
        let ps = percent_sum(front);
        let ts = shares_total(front);
        let n = front.len() as int;
        assert(2 * magnitude(all * (ps + p) - 100 * (ts + t)) <= (n + 1) * all) by (nonlinear_arith)
            requires
                2 * magnitude(all * ps - 100 * ts) <= n * all,
                2 * magnitude(p * all - 100 * t) <= magnitude(all),
                all > 0,
        ;
    }
}

/// The shares of a list of groups carry the totals of the groups.
pub proof fn lemma_shares_total(shares: Seq<ServiceShare>, sources: Seq<ServiceCosts>, all: int)
    requires
        shares.len() == sources.len(),
        forall|i: int| 0 <= i < shares.len() ==> is_share_of(#[trigger] shares[i], sources[i], all),
    ensures
        shares_total(shares) == services_total(sources),
    decreases shares.len(),
{
    if shares.len() > 0 {
        assert forall|i: int| 0 <= i < shares.drop_last().len() implies is_share_of(
            #[trigger] shares.drop_last()[i],
            sources.drop_last()[i],
            all,
        ) by {
            assert(shares.drop_last()[i] == shares[i]);
        }
        lemma_shares_total(shares.drop_last(), sources.drop_last(), all);
        assert(is_share_of(shares[shares.len() - 1], sources[shares.len() - 1], all));
    }
}

/// The percentages of an account's shares add up to a hundred, give or take
/// half a point for each share; and there are no shares where the listed
/// groups cost nothing.
pub proof fn lemma_percentages_add_up(shares: Seq<ServiceShare>, services: Seq<ServiceCosts>)
    requires
        shares_of(shares, services),
    ensures
        surviving_total(services) == 0 ==> shares.len() == 0,
        shares.len() == 0 ==> percent_sum(shares) == 0,
        shares.len() > 0 ==> 2 * magnitude(percent_sum(shares) - 100) <= shares.len(),
{
    let all = surviving_total(services);
    let kept = surviving(services);
    lemma_surviving(services);
    lemma_ranked(kept);
    if shares.len() > 0 {
        assert(kept[0].monthly.total() > 0);
        assert(all > 0);
        lemma_shares_total(shares, ranked(kept), all);
        assert forall|i: int| 0 <= i < shares.len() implies (#[trigger] shares[i]).percent_of_total
            == round_div(100 * shares[i].total_cost, all) by {
            assert(is_share_of(shares[i], ranked(kept)[i], all));
        }
        lemma_percent_error(shares, all);
        let n = shares.len() as int;
        let ps = percent_sum(shares);
        assert(2 * magnitude(ps - 100) <= n) by (nonlinear_arith)
            requires
                2 * magnitude(all * ps - 100 * all) <= n * all,
                all > 0,
        ;
    }
}

/// What the listed groups of `services` cost together.
pub fn surviving_cost(services: &Vec<ServiceCosts>) -> (all: i128)
    requires
        services_wf(services@),
    ensures
        all == surviving_total(services@),
        0 <= all <= COST_LIMIT,
{
    let mut all: i128 = 0;
    let mut i: usize = 0;
    proof {
        reveal(Seq::filter);
        assert(services@.take(0) =~= Seq::<ServiceCosts>::empty());
        lemma_services_mass_bounds(services@);
    }
    while i < services.len()
        invariant
            i <= services@.len(),
            services_wf(services@),
            all == surviving_total(services@.take(i as int)),
            0 <= all <= services_mass(services@.take(i as int)),
            services_mass(services@.take(i as int)) <= services_mass(services@),
        decreases services@.len() - i,
    {
        proof {
            reveal(Seq::filter);
            assert(services@.take(i + 1).drop_last() =~= services@.take(i as int));
            assert(services@.take(i + 1).last() == services@[i as int]);
            lemma_services_mass_bounds(services@);
            lemma_mass_bounds(services@[i as int].monthly.entries@);
            lemma_services_mass_prefix(services@, i + 1);
            let kept = surviving(services@.take(i + 1));
            if services@[i as int].monthly.total() > 0 {
                assert(kept.drop_last() =~= surviving(services@.take(i as int)));
            }
        }
        let total = services[i].monthly.total_cost();
        if total > 0 {
            all = all + total;
        }
        i += 1;
    }
    proof {
        assert(services@.take(i as int) =~= services@);
    }
    all
}

/// The ranked shares of an account's groups.
pub fn service_shares(services: Vec<ServiceCosts>) -> (shares: Vec<ServiceShare>)
    requires
        services_wf(services@),
    ensures
        shares_of(shares@, services@),
        forall|i: int|
            0 <= i < shares@.len() ==> (#[trigger] shares@[i]).total_cost > 0
                && shares@[i].monthly.wf(),
        forall|i: int, j: int|
            0 <= i < j < shares@.len() ==> (#[trigger] shares@[i]).total_cost >= (
            #[trigger] shares@[j]).total_cost,
        shares_total(shares@) == surviving_total(services@),
        shares@.len() > 0 ==> 2 * magnitude(percent_sum(shares@) - 100) <= shares@.len(),
{
    let all = surviving_cost(&services);
    let ghost src = services@;
    let mut shares: Vec<ServiceShare> = Vec::new();
    proof {
        reveal(Seq::filter);
        assert(src.take(0) =~= Seq::<ServiceCosts>::empty());
    }
    for service in it: services
        invariant
            it.seq() == src,
            services_wf(src),
            all == surviving_total(src),
            0 <= all <= COST_LIMIT,
            shares@.len() == ranked(surviving(src.take(it.index()))).len(),
            forall|k: int|
                0 <= k < shares@.len() ==> is_share_of(
                    #[trigger] shares@[k],
                    ranked(surviving(src.take(it.index())))[k],
                    all as int,
                ),
    {
        let ghost n = it.index();
        let ghost before = ranked(surviving(src.take(n)));
        proof {
            reveal(Seq::filter);
            assert(service == src[n]);
            assert(src.take(n + 1).drop_last() =~= src.take(n));
            assert(src.take(n + 1).last() == service);
            lemma_services_mass_bounds(src);
            lemma_mass_bounds(service.monthly.entries@);
            lemma_surviving(src);
        }
        let total = service.monthly.total_cost();
        if total > 0 {
            proof {
                assert(surviving(src.take(n + 1)) =~= surviving(src.take(n)).push(service));
                assert(surviving(src.take(n + 1)).drop_last() =~= surviving(src.take(n)));
                lemma_survivor_within(src, n);
                lemma_round_div_bound(100 * total, all as int);
            }
            let percent = rounded_quotient(100 * total, all);
            let mut at: usize = shares.len();
            while at > 0 && shares[at - 1].total_cost < total
                invariant
                    at <= shares@.len(),
                    shares@.len() == before.len(),
                    forall|k: int|
                        0 <= k < shares@.len() ==> is_share_of(
                            #[trigger] shares@[k],
                            before[k],
                            all as int,
                        ),
                    forall|j: int|
                        at <= j < before.len() ==> (#[trigger] before[j]).monthly.total() < total,
                decreases at,
            {
                proof {
                    assert(is_share_of(shares@[at - 1], before[at - 1], all as int));
                }
                at -= 1;
            }
            proof {
                if at > 0 {
                    assert(is_share_of(shares@[at - 1], before[at - 1], all as int));
                }
                lemma_place_at(before, service, at as int);
            }
            let ghost held = shares@;
            let share = ServiceShare {
                service: service.service,
                monthly: service.monthly,
                total_cost: total,
                percent_of_total: percent,
            };
            shares.insert(at, share);
            proof {
                let after = ranked(surviving(src.take(n + 1)));
                assert(after == before.insert(at as int, service));
                assert forall|k: int| 0 <= k < shares@.len() implies is_share_of(
                    #[trigger] shares@[k],
                    after[k],
                    all as int,
                ) by {
                    if k < at {
                        assert(shares@[k] == held[k]);
                        assert(is_share_of(held[k], before[k], all as int));
                    } else if k > at {
                        assert(shares@[k] == held[k - 1]);
                        assert(is_share_of(held[k - 1], before[k - 1], all as int));
                    }
                }
            }
        } else {
            proof {
                assert(surviving(src.take(n + 1)) =~= surviving(src.take(n)));
            }
        }
    }
    proof {
        assert(src.take(src.len() as int) =~= src);
        let kept = surviving(src);
        lemma_surviving(src);
        lemma_ranked(kept);
        lemma_shares_total(shares@, ranked(kept), all as int);
        lemma_percentages_add_up(shares@, src);
        assert forall|i: int| 0 <= i < shares@.len() implies (#[trigger] shares@[i]).total_cost > 0
            && shares@[i].monthly.wf() by {
            assert(is_share_of(shares@[i], ranked(kept)[i], all as int));
            lemma_ranked_member(kept, i);
            let m = choose|m: int| 0 <= m < kept.len() && kept[m] == ranked(kept)[i];
            assert(kept[m].monthly.total() > 0 && src.contains(kept[m]));
            let s = choose|s: int| 0 <= s < src.len() && src[s] == kept[m];
            lemma_services_mass_bounds(src);
            assert(src[s].monthly.periods().no_duplicates());
        }
        assert forall|i: int, j: int| 0 <= i < j < shares@.len() implies (
        #[trigger] shares@[i]).total_cost >= (#[trigger] shares@[j]).total_cost by {
            assert(is_share_of(shares@[i], ranked(kept)[i], all as int));
            assert(is_share_of(shares@[j], ranked(kept)[j], all as int));
            assert(ranked(kept)[i].monthly.total() >= ranked(kept)[j].monthly.total());
        }
    }
    shares
}

/// A listed group costs no more than the listed groups together.
pub proof fn lemma_survivor_within(services: Seq<ServiceCosts>, n: int)
    requires
        0 <= n < services.len(),
        services[n].monthly.total() > 0,
    ensures
        services[n].monthly.total() <= surviving_total(services),
    decreases services.len(),
{
    reveal(Seq::filter);
    let front = services.drop_last();
    let last = services.last();
    lemma_surviving(front);
    assert(surviving(services) == if last.monthly.total() > 0 {
        surviving(front).push(last)
    } else {
        surviving(front)
    });
    if last.monthly.total() > 0 {
        assert(surviving(services).drop_last() =~= surviving(front));
    }
    if n < services.len() - 1 {
        assert(front[n] == services[n]);
        lemma_survivor_within(front, n);
    }
}

} // verus!
