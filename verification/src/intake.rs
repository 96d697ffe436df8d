//! What the billing source answers, as it comes, and how it is read.
//!
//! A group comes with a list of keys and the text of its amount. The keys
//! are joined into the group's name; the amount is read as `amounts` says.
//! What the source leaves out reads as empty: no period as the empty key,
//! no groups as none, no keys as the empty name, no amount as zero.

use vstd::prelude::*;
use vstd::string::*;
use crate::amounts::{amount_of, parse_amount};
use crate::ledger::{GroupCost, PeriodResult};
use crate::text::{join, joined_text};

verus! {

/// What a run does with the tag that it was given.
pub enum TagUse {
    /// Only costs under this key and value are asked for.
    Filter(String, String),
    /// Costs are also grouped by the values of this key.
    GroupBy(String),
    /// No tag plays a part.
    Unused,
}

/// Decides the use of the tag: a key with a value filters, a key alone
/// groups, and a value without a key does nothing.
pub fn tag_use(key: &Option<String>, value: &Option<String>) -> (used: TagUse)
    ensures
        match used {
            TagUse::Filter(k, v) => key matches Some(a) && value matches Some(b) && k@ == a@ && v@
                == b@,
            TagUse::GroupBy(k) => key matches Some(a) && value is None && k@ == a@,
            TagUse::Unused => key is None,
        },
{
    match key {
        Some(k) => match value {
            Some(v) => TagUse::Filter(k.clone(), v.clone()),
            None => TagUse::GroupBy(k.clone()),
        },
        None => TagUse::Unused,
    }
}

/// A group as the billing source reports it.
pub struct RawGroup {
    pub keys: Option<Vec<String>>,
    pub amount: Option<String>,
}

/// A period as the billing source reports it.
pub struct RawResult {
    pub period: Option<String>,
    pub groups: Option<Vec<RawGroup>>,
}

/// The name of a group: its keys, joined by a comma and a blank.
pub open spec fn group_name(raw: RawGroup) -> Seq<char> {
    match raw.keys {
        Some(keys) => joined_text(keys@, ", "@),
        None => Seq::empty(),
    }
}

/// The amount of a group.
pub open spec fn group_amount(raw: RawGroup) -> int {
    match raw.amount {
        Some(text) => amount_of(text@),
        None => 0,
    }
}

/// `group` is what `raw` reads as.
pub open spec fn is_group_of(group: GroupCost, raw: RawGroup) -> bool {
    &&& group.key@ == group_name(raw)
    &&& group.amount == group_amount(raw)
}

/// The groups of a period as they were reported.
pub open spec fn raw_groups(raw: RawResult) -> Seq<RawGroup> {
    match raw.groups {
        Some(groups) => groups@,
        None => Seq::empty(),
    }
}

/// The period key of a result as it was reported.
pub open spec fn raw_period(raw: RawResult) -> Seq<char> {
    match raw.period {
        Some(period) => period@,
        None => Seq::empty(),
    }
}

/// `result` is what `raw` reads as.
pub open spec fn is_result_of(result: PeriodResult, raw: RawResult) -> bool {
    &&& result.period@ == raw_period(raw)
    &&& result.groups@.len() == raw_groups(raw).len()
    &&& forall|j: int|
        0 <= j < result.groups@.len() ==> is_group_of(#[trigger] result.groups@[j], raw_groups(raw)[j])
}

/// Reads one group.
pub fn read_group(raw: &RawGroup) -> (group: GroupCost)
    ensures
        is_group_of(group, *raw),
{
    let key = match &raw.keys {
        Some(keys) => join(keys, ", "),
        None => String::new(),
    };
    let amount = match &raw.amount {
        Some(text) => parse_amount(text.as_str()),
        None => 0,
    };
    GroupCost { key, amount }
}

/// Reads one period.
pub fn read_result(raw: &RawResult) -> (result: PeriodResult)
    ensures
        is_result_of(result, *raw),
{
    let period = match &raw.period {
        Some(period) => period.clone(),
        None => String::new(),
    };
    let mut groups: Vec<GroupCost> = Vec::new();
    match &raw.groups {
        Some(list) => {
            let mut j: usize = 0;
            while j < list.len()
                invariant
                    j <= list@.len(),
                    groups@.len() == j,
                    forall|k: int| 0 <= k < j ==> is_group_of(#[trigger] groups@[k], list@[k]),
                decreases list@.len() - j,
            {
                groups.push(read_group(&list[j]));
                j += 1;
            }
        },
        None => {},
    }
    PeriodResult { period, groups }
}

/// Reads the answer of the billing source for one account.
pub fn read_results(raw: &Vec<RawResult>) -> (results: Vec<PeriodResult>)
    ensures
        results@.len() == raw@.len(),
        forall|i: int| 0 <= i < results@.len() ==> is_result_of(#[trigger] results@[i], raw@[i]),
{
    let mut results: Vec<PeriodResult> = Vec::new();
    let mut i: usize = 0;
    while i < raw.len()
        invariant
            i <= raw@.len(),
            results@.len() == i,
            forall|k: int| 0 <= k < i ==> is_result_of(#[trigger] results@[k], raw@[k]),
        decreases raw@.len() - i,
    {
        results.push(read_result(&raw[i]));
        i += 1;
    }
    results
}

} // verus!
