use cost_trend::accounts::{
    after_identity, after_organization, begin_resolution, checked_mapping, load_profile_map,
    mapped_account, select_accounts, standalone, ProfileAccount, RawAccount, Resolution,
};
use cost_trend::window::ConfigError;

fn mapping(pairs: &[(&str, &str)]) -> Vec<ProfileAccount> {
    pairs
        .iter()
        .map(|(p, a)| ProfileAccount { profile: p.to_string(), account_id: a.to_string() })
        .collect()
}

fn listed(accounts: &[(Option<&str>, Option<&str>)]) -> Vec<RawAccount> {
    accounts
        .iter()
        .map(|(id, name)| RawAccount {
            id: id.map(|s| s.to_string()),
            name: name.map(|s| s.to_string()),
        })
        .collect()
}

#[test]
fn profile_map_is_read_from_json() {
    match load_profile_map("{\"prod\": \"111\", \"dev\": \"222\"}") {
        Ok(map) => {
            let pairs: Vec<(&str, &str)> =
                map.iter().map(|m| (m.profile.as_str(), m.account_id.as_str())).collect();
            assert_eq!(pairs, vec![("dev", "222"), ("prod", "111")]);
        }
        Err(_) => panic!("an object of strings is a mapping"),
    }
}

#[test]
fn empty_object_is_an_empty_mapping() {
    match load_profile_map("{}") {
        Ok(map) => assert!(map.is_empty()),
        Err(_) => panic!("an empty object is a mapping"),
    }
}

#[test]
fn invalid_profile_map_is_a_configuration_error() {
    for text in ["", "not json", "[]", "{\"a\": 1}", "{\"a\": \"1\"", "\"text\""] {
        assert!(
            matches!(load_profile_map(text), Err(ConfigError::InvalidProfileMap)),
            "{:?}",
            text
        );
    }
    assert!(matches!(
        checked_mapping::<()>(Err(())),
        Err(ConfigError::InvalidProfileMap)
    ));
}

#[test]
fn mapped_profile_stands_for_its_account() {
    let map = mapping(&[("prod", "111"), ("dev", "222")]);
    assert_eq!(mapped_account(&map, &"dev".to_string()), Some(&"222".to_string()));
    assert_eq!(mapped_account(&map, &"test".to_string()), None);
    match begin_resolution(&map, &"prod".to_string()) {
        Resolution::Accounts(accounts) => {
            assert_eq!(accounts.len(), 1);
            assert_eq!(accounts[0].id.as_deref(), Some("111"));
            assert_eq!(accounts[0].name.as_deref(), Some("Account-111"));
        }
        _ => panic!("a mapped profile needs no question"),
    }
}

#[test]
fn unmapped_profile_asks_its_organization() {
    let map = mapping(&[("prod", "111")]);
    assert!(matches!(begin_resolution(&map, &"dev".to_string()), Resolution::AskOrganization));
    assert!(matches!(
        begin_resolution(&Vec::new(), &"prod".to_string()),
        Resolution::AskOrganization
    ));
}

#[test]
fn organization_answer_gives_the_accounts() {
    let accounts = listed(&[(Some("1"), Some("one")), (Some("2"), None)]);
    match after_organization(Some(Some(accounts))) {
        Resolution::Accounts(got) => {
            assert_eq!(got.len(), 2);
            assert_eq!(got[1].id.as_deref(), Some("2"));
            assert_eq!(got[1].name, None);
        }
        _ => panic!("a list of accounts is taken"),
    }
    match after_organization(Some(None)) {
        Resolution::Accounts(got) => assert!(got.is_empty()),
        _ => panic!("an answer without a list is an empty list"),
    }
}

#[test]
fn failed_organization_asks_the_identity() {
    assert!(matches!(after_organization(None), Resolution::AskIdentity));
}

#[test]
fn identity_gives_a_standalone_account() {
    match after_identity(Some(Some("333".to_string()))) {
        Resolution::Accounts(got) => {
            assert_eq!(got.len(), 1);
            assert_eq!(got[0].id.as_deref(), Some("333"));
            assert_eq!(got[0].name.as_deref(), Some("Account-333"));
        }
        _ => panic!("an identity is an account"),
    }
    let account = standalone(&"9".to_string());
    assert_eq!(account.name.as_deref(), Some("Account-9"));
}

#[test]
fn identity_without_account_skips_the_profile() {
    assert!(matches!(after_identity(Some(None)), Resolution::SkipProfile));
    assert!(matches!(after_identity(None), Resolution::SkipProfile));
}

#[test]
fn all_accounts_are_taken_where_none_is_wanted() {
    let accounts = listed(&[(Some("1"), Some("one")), (None, None), (Some("3"), None)]);
    let taken = select_accounts(&accounts, &None);
    let rows: Vec<(&str, &str)> = taken.iter().map(|a| (a.id.as_str(), a.name.as_str())).collect();
    assert_eq!(rows, vec![("1", "one"), ("", "N/A"), ("3", "N/A")]);
}

#[test]
fn only_wanted_accounts_are_taken() {
    let accounts =
        listed(&[(Some("1"), Some("one")), (None, Some("nameless")), (Some("3"), None), (Some("2"), Some("two"))]);
    let wanted = Some(vec!["3".to_string(), "1".to_string(), "7".to_string()]);
    let taken = select_accounts(&accounts, &wanted);
    let rows: Vec<(&str, &str)> = taken.iter().map(|a| (a.id.as_str(), a.name.as_str())).collect();
    assert_eq!(rows, vec![("1", "one"), ("3", "N/A")]);
    assert!(select_accounts(&accounts, &Some(vec!["9".to_string()])).is_empty());
    assert!(select_accounts(&accounts, &Some(Vec::new())).is_empty());
}
