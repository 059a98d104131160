use bedit::failure::{Failure, FailureKind};
use bedit::identity::{
    identify, parse_sudo_history_config, policy_from_read, resolve_identity, sudo_claim,
    system_config_path, Account, AccountLookup, ConfigRead, ExecutionContext, SudoHistoryPolicy,
};

struct Accounts(Vec<Account>);

impl AccountLookup for Accounts {
    fn by_uid(&self, uid: u32) -> Result<Account, Failure> {
        self.0
            .iter()
            .find(|a| a.uid == uid)
            .cloned()
            .ok_or_else(|| Failure::new(FailureKind::NotFound, "missing account"))
    }
    fn by_name(&self, name: &str) -> Result<Account, Failure> {
        self.0
            .iter()
            .find(|a| a.name == name)
            .cloned()
            .ok_or_else(|| Failure::new(FailureKind::NotFound, "missing account"))
    }
}

fn account(name: &str, uid: u32, home: &str) -> Account {
    Account {
        name: name.into(),
        uid,
        gid: uid,
        home: home.into(),
    }
}

fn fixture() -> Accounts {
    Accounts(vec![
        account("root", 0, "/root"),
        account("luke", 1001, "/srv/unusual/luke"),
        account("pat", 1002, "/home/pat"),
    ])
}

fn context(uid: u32, user: Option<&str>, claimed: Option<&str>) -> ExecutionContext {
    ExecutionContext {
        effective_uid: uid,
        sudo_user: user.map(String::from),
        sudo_uid: claimed.map(String::from),
    }
}

#[test]
fn ordinary_user_owns_and_authors_normal_history() {
    let got = resolve_identity(
        &ExecutionContext {
            effective_uid: 1001,
            sudo_user: None,
            sudo_uid: None,
        },
        SudoHistoryPolicy::RootAndUser,
        &fixture(),
    )
    .unwrap();
    assert_eq!(
        (
            got.invoker.as_ref().map(|account| account.name.as_str()),
            got.actor.as_str(),
            got.sudo
        ),
        (None, "luke", false)
    );
    assert_eq!(got.history_owner, got.effective);
    assert_eq!(got.history_owner.home, "/srv/unusual/luke");
}

#[test]
fn direct_root_ignores_stray_sudo_user_without_matching_uid_context() {
    let got = resolve_identity(
        &ExecutionContext {
            effective_uid: 0,
            sudo_user: Some("luke".into()),
            sudo_uid: None,
        },
        SudoHistoryPolicy::RootAndUser,
        &fixture(),
    )
    .unwrap();
    assert_eq!(
        (
            got.invoker.as_ref().map(|account| account.name.as_str()),
            got.actor.as_str(),
            got.sudo
        ),
        (None, "root", false)
    );
}

#[test]
fn mismatched_sudo_name_and_uid_are_not_trusted() {
    let got = resolve_identity(
        &ExecutionContext {
            effective_uid: 0,
            sudo_user: Some("luke".into()),
            sudo_uid: Some("1002".into()),
        },
        SudoHistoryPolicy::RootAndUser,
        &fixture(),
    )
    .unwrap();
    assert_eq!(
        (
            got.invoker.as_ref().map(|account| account.name.as_str()),
            got.actor.as_str(),
            got.sudo
        ),
        (None, "root", false)
    );
}

#[test]
fn sudo_root_policy_consolidates_history_and_preserves_actor() {
    let got = resolve_identity(
        &ExecutionContext {
            effective_uid: 0,
            sudo_user: Some("luke".into()),
            sudo_uid: Some("1001".into()),
        },
        SudoHistoryPolicy::RootAndUser,
        &fixture(),
    )
    .unwrap();
    assert_eq!(
        (
            got.invoker.as_ref().map(|account| account.name.as_str()),
            got.actor.as_str(),
            got.sudo
        ),
        (Some("luke"), "luke", true)
    );
}

#[test]
fn sudo_root_only_still_retains_validated_invoker() {
    let got = resolve_identity(
        &ExecutionContext {
            effective_uid: 0,
            sudo_user: Some("luke".into()),
            sudo_uid: Some("1001".into()),
        },
        SudoHistoryPolicy::RootOnly,
        &fixture(),
    )
    .unwrap();
    assert_eq!(got.invoker.as_ref().unwrap().home, "/srv/unusual/luke");
    assert_eq!((got.actor.as_str(), got.sudo), ("luke", true));
}

#[test]
fn parses_default_and_both_policy_values() {
    assert_eq!(
        parse_sudo_history_config("").unwrap(),
        SudoHistoryPolicy::RootAndUser
    );
    assert_eq!(
        parse_sudo_history_config("# policy\nsudo_history = \"root\"\n").unwrap(),
        SudoHistoryPolicy::RootOnly
    );
    assert_eq!(
        parse_sudo_history_config("other = \"kept\"\nsudo_history = \"user\"\n").unwrap(),
        SudoHistoryPolicy::RootAndUser
    );
    assert_eq!(
        parse_sudo_history_config("sudo_history = \"root_only\"\n").unwrap(),
        SudoHistoryPolicy::RootOnly
    );
    assert_eq!(
        parse_sudo_history_config("sudo_history = \"root_and_user\"\n").unwrap(),
        SudoHistoryPolicy::RootAndUser
    );
}

#[test]
fn malformed_or_unknown_policy_fails_instead_of_misrouting() {
    for text in [
        "sudo_history = \"wheel\"\n",
        "sudo_history = user\n",
        "sudo_history = \"root\"\nsudo_history = \"user\"\n",
    ] {
        assert!(parse_sudo_history_config(text)
            .unwrap_err()
            .to_string()
            .contains("sudo_history"));
    }
}

#[test]
fn only_root_makes_a_sudo_claim() {
    assert_eq!(sudo_claim(&context(0, Some("luke"), Some("1001"))), Some(1001));
    assert_eq!(sudo_claim(&context(1001, Some("luke"), Some("1001"))), None);
    assert_eq!(sudo_claim(&context(0, None, Some("1001"))), Some(1001));
    assert_eq!(sudo_claim(&context(0, Some("root"), Some("0"))), None);
    assert_eq!(sudo_claim(&context(0, Some("luke"), Some("x"))), None);
    assert_eq!(sudo_claim(&context(0, Some("luke"), Some("4294967296"))), None);
}

#[test]
fn root_is_not_its_own_invoker() {
    let got = resolve_identity(
        &context(0, Some("root"), Some("0")),
        SudoHistoryPolicy::RootAndUser,
        &fixture(),
    )
    .unwrap();
    assert_eq!(got.invoker, None);
    assert_eq!(got.actor, "root");
    assert!(!got.sudo);
}

#[test]
fn a_claimed_account_counts_only_under_its_own_name() {
    let root = account("root", 0, "/root");
    let luke = account("luke", 1001, "/srv/unusual/luke");
    let told = context(0, Some("luke"), Some("1001"));
    let got = identify(&told, root.clone(), Some(luke.clone()));
    assert_eq!(got.invoker, Some(luke.clone()));
    assert_eq!(got.history_owner, root);
    let got = identify(&context(0, Some("pat"), Some("1001")), root, Some(luke));
    assert_eq!(got.invoker, None);
}

#[test]
fn unknown_effective_account_is_an_error() {
    let error = resolve_identity(
        &context(77, None, None),
        SudoHistoryPolicy::RootOnly,
        &fixture(),
    )
    .unwrap_err();
    assert_eq!(error.kind, FailureKind::NotFound);
}

#[test]
fn missing_policy_file_means_the_default() {
    assert_eq!(
        policy_from_read("/etc/bedit/config.toml", &ConfigRead::Missing).unwrap(),
        SudoHistoryPolicy::RootAndUser
    );
    assert_eq!(
        policy_from_read(
            "/etc/bedit/config.toml",
            &ConfigRead::Contents("sudo_history = \"root\"".into())
        )
        .unwrap(),
        SudoHistoryPolicy::RootOnly
    );
    let failed = policy_from_read(
        "/etc/bedit/config.toml",
        &ConfigRead::Failed(Failure::new(FailureKind::PermissionDenied, "no")),
    )
    .unwrap_err();
    assert_eq!(failed.kind, FailureKind::PermissionDenied);
}

#[test]
fn policy_file_moves_only_for_testing() {
    assert_eq!(system_config_path(false, Some("/x")), "/etc/bedit/config.toml");
    assert_eq!(system_config_path(true, Some("/x")), "/x");
    assert_eq!(system_config_path(true, None), "/etc/bedit/config.toml");
}
