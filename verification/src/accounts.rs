//! Which accounts a profile stands for.
//!
//! A profile that the mapping names stands for the one account mapped to
//! it. Any other profile is asked for the accounts of its organization;
//! where that fails, for its own identity; where that fails too, or gives
//! no account, the profile is skipped. The asking is the caller's work:
//! each function here takes an answer and says what to do next.

use vstd::prelude::*;
use vstd::string::*;
use crate::periods::{holds_text, texts};
use crate::window::ConfigError;

verus! {

/// An account as an organization lists it.
pub struct RawAccount {
    pub id: Option<String>,
    pub name: Option<String>,
}

/// An account of a run.
pub struct Account {
    pub id: String,
    pub name: String,
}

/// One line of the mapping of profiles to accounts.
pub struct ProfileAccount {
    pub profile: String,
    pub account_id: String,
}

/// What to do next for a profile.
pub enum Resolution {
    /// The profile stands for these accounts.
    Accounts(Vec<RawAccount>),
    /// Ask for the accounts of the profile's organization.
    AskOrganization,
    /// Ask for the profile's own identity.
    AskIdentity,
    /// Leave the profile out.
    SkipProfile,
}

/// Declares `serde_json::Error`, the refusal of a JSON text, as a value
/// of which nothing is known.
#[verifier::external_type_specification]
#[verifier::external_body]
pub struct ExJsonError(serde_json::Error);

/// The pairs of a mapping, as texts.
pub open spec fn pairs(mapping: Seq<ProfileAccount>) -> Seq<(Seq<char>, Seq<char>)> {
    Seq::new(mapping.len(), |i: int| (mapping[i].profile@, mapping[i].account_id@))
}

/// The members of the JSON object that `text` holds, a name and a string
/// each, in the order of their names; `None` where `serde_json` does not
/// read `text` as an object of strings.
pub uninterp spec fn json_string_map(text: Seq<char>) -> Option<Seq<(Seq<char>, Seq<char>)>>;

/// Reads `text` with `serde_json::from_str` as a `BTreeMap` from `String`
/// to `String` and hands out its entries in the map's order. The contract
/// names the outcome `json_string_map`: the same text always gives the same
/// entries or the same refusal.
#[verifier::external_body]
fn read_string_map(text: &str) -> (r: Result<Vec<ProfileAccount>, serde_json::Error>)
    ensures
        r matches Ok(mapping) ==> json_string_map(text@) == Some(pairs(mapping@)),
        r is Err ==> json_string_map(text@) is None,
{
    let map = serde_json::from_str::<std::collections::BTreeMap<String, String>>(text)?;
    let mut mapping = Vec::new();
    for (profile, account_id) in map {
        mapping.push(ProfileAccount { profile, account_id });
    }
    Ok(mapping)
}

/// What a mapping text that was read gives: its entries, or the error of
/// a run that cannot start.
pub fn checked_mapping<E>(read: Result<Vec<ProfileAccount>, E>) -> (r: Result<
    Vec<ProfileAccount>,
    ConfigError,
>)
    ensures
        match r {
            Ok(mapping) => read matches Ok(entries) && mapping == entries,
            Err(ConfigError::InvalidProfileMap) => read is Err,
            Err(_) => false,
        },
{
    match read {
        Ok(entries) => Ok(entries),
        Err(_) => Err(ConfigError::InvalidProfileMap),
    }
}

/// Reads the mapping of profiles to accounts from its JSON text.
pub fn load_profile_map(text: &str) -> (r: Result<Vec<ProfileAccount>, ConfigError>)
    ensures
        match r {
            Ok(mapping) => json_string_map(text@) == Some(pairs(mapping@)),
            Err(ConfigError::InvalidProfileMap) => json_string_map(text@) is None,
            Err(_) => false,
        },
{
    checked_mapping(read_string_map(text))
}

/// The account that `mapping` gives for `profile`: that of the first line
/// for the profile.
pub open spec fn mapped_to(mapping: Seq<ProfileAccount>, profile: Seq<char>) -> Option<Seq<char>>
    decreases mapping.len(),
{
    if mapping.len() == 0 {
        None
    } else if mapping[0].profile@ == profile {
        Some(mapping[0].account_id@)
    } else {
        mapped_to(mapping.drop_first(), profile)
    }
}

/// The name that an account gets which is known by its id alone.
pub open spec fn standalone_name(id: Seq<char>) -> Seq<char> {
    "Account-"@ + id
}

/// `account` is the account known by `id` alone.
pub open spec fn is_standalone(account: RawAccount, id: Seq<char>) -> bool {
    &&& account.id matches Some(held) && held@ == id
    &&& account.name matches Some(name) && name@ == standalone_name(id)
}

/// The account that is known by its id alone.
pub fn standalone(id: &String) -> (account: RawAccount)
    ensures
        is_standalone(account, id@),
{
    let mut name = String::from_str("Account-");
    name.append(id.as_str());
    RawAccount { id: Some(id.clone()), name: Some(name) }
}

/// Looks `profile` up in `mapping`.
pub fn mapped_account<'a>(mapping: &'a Vec<ProfileAccount>, profile: &String) -> (found: Option<
    &'a String,
>)
    ensures
        match found {
            Some(id) => mapped_to(mapping@, profile@) == Some(id@),
            None => mapped_to(mapping@, profile@) is None,
        },
{
    let mut i: usize = 0;
    proof {
        assert(mapping@.skip(0) =~= mapping@);
    }
    while i < mapping.len()
        invariant
            i <= mapping@.len(),
            mapped_to(mapping@, profile@) == mapped_to(mapping@.skip(i as int), profile@),
        decreases mapping@.len() - i,
    {
        proof {
            assert(mapping@.skip(i as int)[0] == mapping@[i as int]);
            assert(mapping@.skip(i as int).drop_first() =~= mapping@.skip(i + 1));
        }
        if mapping[i].profile == *profile {
            return Some(&mapping[i].account_id);
        }
        i += 1;
    }
    None
}

/// The first step for a profile: its mapped account, or the question for
/// its organization.
pub fn begin_resolution(mapping: &Vec<ProfileAccount>, profile: &String) -> (next: Resolution)
    ensures
        match next {
            Resolution::Accounts(accounts) => mapped_to(mapping@, profile@) matches Some(id)
                && accounts@.len() == 1 && is_standalone(accounts@[0], id),
            Resolution::AskOrganization => mapped_to(mapping@, profile@) is None,
            _ => false,
        },
{
    match mapped_account(mapping, profile) {
        Some(id) => {
            let mut accounts: Vec<RawAccount> = Vec::new();
            accounts.push(standalone(id));
            Resolution::Accounts(accounts)
        },
        None => Resolution::AskOrganization,
    }
}

/// The step after the organization was asked. `answer` is `None` where
/// the question failed; an answer without a list is an empty list.
pub fn after_organization(answer: Option<Option<Vec<RawAccount>>>) -> (next: Resolution)
    ensures
        match next {
            Resolution::Accounts(accounts) => match answer {
                Some(Some(listed)) => accounts == listed,
                Some(None) => accounts@.len() == 0,
                None => false,
            },
            Resolution::AskIdentity => answer is None,
            _ => false,
        },
{
    match answer {
        Some(Some(listed)) => Resolution::Accounts(listed),
        Some(None) => Resolution::Accounts(Vec::new()),
        None => Resolution::AskIdentity,
    }
}

/// The step after the identity was asked. `answer` is `None` where the
/// question failed, and holds `None` where it gave no account.
pub fn after_identity(answer: Option<Option<String>>) -> (next: Resolution)
    ensures
        match next {
            Resolution::Accounts(accounts) => answer matches Some(Some(id)) && accounts@.len() == 1
                && is_standalone(accounts@[0], id@),
            Resolution::SkipProfile => !(answer matches Some(Some(_))),
            _ => false,
        },
{
    match answer {
        Some(Some(id)) => {
            let mut accounts: Vec<RawAccount> = Vec::new();
            accounts.push(standalone(&id));
            Resolution::Accounts(accounts)
        },
        _ => Resolution::SkipProfile,
    }
}

/// Whether a run that wants the accounts `wanted` takes `account`: every
/// account where nothing is wanted, else one whose id is wanted.
pub open spec fn is_wanted(account: RawAccount, wanted: Option<Vec<String>>) -> bool {
    match wanted {
        None => true,
        Some(ids) => account.id matches Some(id) && texts(ids@).contains(id@),
    }
}

/// The test for being taken by a run that wants the accounts `wanted`.
pub open spec fn wanted_by(wanted: Option<Vec<String>>) -> spec_fn(RawAccount) -> bool {
    |account: RawAccount| is_wanted(account, wanted)
}

/// `account` is `raw` with what is missing filled in: no id reads as the
/// empty id, no name as `N/A`.
pub open spec fn is_account_of(account: Account, raw: RawAccount) -> bool {
    &&& account.id@ == match raw.id {
        Some(id) => id@,
        None => Seq::empty(),
    }
    &&& account.name@ == match raw.name {
        Some(name) => name@,
        None => "N/A"@,
    }
}

/// The accounts of a profile that the run takes, in their order. Where
/// none is left, the profile is skipped.
pub fn select_accounts(listed: &Vec<RawAccount>, wanted: &Option<Vec<String>>) -> (accounts: Vec<
    Account,
>)
    ensures
        accounts@.len() == listed@.filter(wanted_by(*wanted)).len(),
        forall|i: int|
            0 <= i < accounts@.len() ==> is_account_of(
                #[trigger] accounts@[i],
                listed@.filter(wanted_by(*wanted))[i],
            ),
{
    let mut accounts: Vec<Account> = Vec::new();
    let mut i: usize = 0;
    proof {
        reveal(Seq::filter);
        assert(listed@.take(0) =~= Seq::<RawAccount>::empty());
    }
    while i < listed.len()
        invariant
            i <= listed@.len(),
            accounts@.len() == listed@.take(i as int).filter(wanted_by(*wanted)).len(),
            forall|k: int|
                0 <= k < accounts@.len() ==> is_account_of(
                    #[trigger] accounts@[k],
                    listed@.take(i as int).filter(wanted_by(*wanted))[k],
                ),
        decreases listed@.len() - i,
    {
        let raw = &listed[i];
        proof {
            reveal(Seq::filter);
            assert(listed@.take(i + 1).drop_last() =~= listed@.take(i as int));
            assert(listed@.take(i + 1).last() == *raw);
        }
        let take = match wanted {
            None => true,
            Some(ids) => match &raw.id {
                Some(id) => holds_text(ids, id),
                None => false,
            },
        };
        if take {
            let id = match &raw.id {
                Some(id) => id.clone(),
                None => String::new(),
            };
            let name = match &raw.name {
                Some(name) => name.clone(),
                None => String::from_str("N/A"),
            };
            accounts.push(Account { id, name });
        }
        i += 1;
    }
    proof {
        assert(listed@.take(i as int) =~= listed@);
    }
    accounts
}

} // verus!
