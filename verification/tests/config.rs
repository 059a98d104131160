use bedit::config::{
    configuration_files, find_setting, path_prefixes, repository_home, repository_root,
    targets_with_identity, ComponentStat, Config, PathFacts,
};
use bedit::failure::{Failure, FailureKind};
use bedit::identity::{Account, RuntimeIdentity, SudoHistoryPolicy};

fn account(name: &str, uid: u32, home: &str) -> Account {
    Account {
        name: name.into(),
        uid,
        gid: uid,
        home: home.into(),
    }
}

fn directory(uid: u32) -> ComponentStat {
    ComponentStat::Present(PathFacts {
        is_symlink: false,
        is_dir: true,
        uid,
    })
}

#[test]
fn loads_legacy_locations_and_values() {
    let rc = "Access=~/custom-access\nDiffTailLines=7\nkeepBackupIfNoEdit=0\n";
    let config = Config::load("/base/repo".into(), Some(rc), "/base", "me");
    assert_eq!(config.access, "/base/custom-access");
    assert_eq!(config.diff_tail_lines, 7);
    assert!(!config.keep_backup_if_no_edit);
    assert_eq!(config.backups, "/base/repo/backups");
    assert_eq!(config.actors, "/base/repo/actors");
    assert_eq!(config.actor, "me");
    assert_eq!(config.history_owner, "me");
    assert_eq!(config.exclude, "*.log,*::_::a,*::_::b,*::_::d");
    assert_eq!(config.ownership, None);
}

#[test]
fn settings_that_are_not_well_formed_are_passed_over() {
    let rc = "# Access=/hidden\n1Access=/digit\nAc-cess=/dash\nAccess\n Access=/spaced \r\n";
    assert_eq!(
        find_setting(Some(rc), "Access", "/h").as_deref(),
        Some("/spaced")
    );
    assert_eq!(find_setting(Some(rc), "Backups", "/h"), None);
    assert_eq!(
        find_setting(Some("Access=/a\nAccess=~\n"), "Access", "/h").as_deref(),
        Some("/h")
    );
    assert_eq!(find_setting(None, "Access", "/h"), None);
    let config = Config::load("/r".into(), Some("DiffTailLines=many\n"), "/h", "me");
    assert_eq!(config.diff_tail_lines, 20);
    assert!(config.keep_backup_if_no_edit);
}

#[test]
fn sudo_and_direct_root_ignore_inherited_home() {
    let root = account("root", 0, "/root-real");
    let luke = account("luke", 1001, "/srv/luke");
    let sudo_user_policy = RuntimeIdentity {
        effective: root.clone(),
        history_owner: luke,
        invoker: None,
        actor: "luke".into(),
        sudo: true,
    };
    assert_eq!(
        repository_home(&sudo_user_policy, Some("/preserved/home")),
        "/srv/luke"
    );
    assert_eq!(
        repository_root(
            &sudo_user_policy,
            "/srv/luke",
            Some("/preserved/store"),
            false
        ),
        "/srv/luke/bedit"
    );
    let direct_root = RuntimeIdentity {
        effective: root.clone(),
        history_owner: root,
        invoker: None,
        actor: "root".into(),
        sudo: false,
    };
    assert_eq!(
        repository_home(&direct_root, Some("/misleading/home")),
        "/root-real"
    );
    let (root_target, mirror) = targets_with_identity(
        &direct_root,
        SudoHistoryPolicy::RootAndUser,
        Some("/misleading/home"),
        None,
        false,
        None,
        None,
    );
    assert_eq!(root_target.root, "/root-real/bedit");
    assert_eq!(root_target.actor, "root");
    assert!(mirror.is_none());

    let ordinary = RuntimeIdentity {
        effective: account("luke", 1001, "/srv/luke"),
        history_owner: account("luke", 1001, "/srv/luke"),
        invoker: None,
        actor: "luke".into(),
        sudo: false,
    };
    let (user_target, mirror) = targets_with_identity(
        &ordinary,
        SudoHistoryPolicy::RootAndUser,
        Some("/session/home"),
        None,
        false,
        None,
        None,
    );
    assert_eq!(user_target.root, "/session/home/bedit");
    assert_eq!(user_target.actor, "luke");
    assert!(mirror.is_none());
}

#[test]
fn sudo_targets_are_root_canonical_and_optional_owned_user_mirror() {
    let root = account("root", 0, "/root-real");
    let faf = account("faf", 1002, "/srv/faf");
    let identity = RuntimeIdentity {
        effective: root.clone(),
        history_owner: root,
        invoker: Some(faf),
        actor: "faf".into(),
        sudo: true,
    };
    let (canonical, mirror) = targets_with_identity(
        &identity,
        SudoHistoryPolicy::RootAndUser,
        Some("/spoofed/home"),
        None,
        false,
        None,
        None,
    );
    assert_eq!(canonical.root, "/root-real/bedit");
    assert_eq!(canonical.actor, "faf");
    let mirror = mirror.unwrap();
    assert_eq!(mirror.root, "/srv/faf/bedit");
    assert_eq!(mirror.ownership, Some((1002, 1002)));
    assert_eq!(mirror.actor, "faf");
    assert_eq!(
        configuration_files(
            &identity,
            SudoHistoryPolicy::RootAndUser,
            Some("/spoofed/home")
        ),
        (
            "/root-real/.bedit".to_string(),
            Some("/srv/faf/.bedit".to_string())
        )
    );

    let (_, mirror) = targets_with_identity(
        &identity,
        SudoHistoryPolicy::RootOnly,
        None,
        None,
        false,
        None,
        None,
    );
    assert!(mirror.is_none());
}

#[test]
fn a_chosen_root_is_for_ordinary_users_and_testing() {
    let luke = account("luke", 1001, "/srv/luke");
    let mut identity = RuntimeIdentity {
        effective: luke.clone(),
        history_owner: luke,
        invoker: None,
        actor: "luke".into(),
        sudo: false,
    };
    assert_eq!(
        repository_root(&identity, "/srv/luke", Some("/elsewhere"), false),
        "/elsewhere"
    );
    identity.sudo = true;
    assert_eq!(
        repository_root(&identity, "/srv/luke", Some("/elsewhere"), true),
        "/elsewhere"
    );
    assert_eq!(
        repository_root(&identity, "/srv/luke", Some("/elsewhere"), false),
        "/srv/luke/bedit"
    );
}

#[test]
fn path_topology_names_the_first_unsafe_component() {
    assert_eq!(path_prefixes("/a/b"), vec!["/", "/a", "/a/b"]);
    let config = Config::load("/a".into(), None, "/h", "me");
    let stats = vec![directory(0), directory(5), ComponentStat::Absent];
    assert_eq!(config.validate_path_topology("/a/b", &stats), Ok(()));

    let link = vec![
        directory(0),
        ComponentStat::Present(PathFacts {
            is_symlink: true,
            is_dir: false,
            uid: 5,
        }),
        ComponentStat::Absent,
    ];
    let error = config.validate_path_topology("/a/b", &link).unwrap_err();
    assert_eq!(error.kind, FailureKind::InvalidData);
    assert_eq!(error.message, "unsafe symlink in repository path: /a");

    let file = vec![
        directory(0),
        ComponentStat::Present(PathFacts {
            is_symlink: false,
            is_dir: false,
            uid: 5,
        }),
        ComponentStat::Absent,
    ];
    let error = config.validate_path_topology("/a/b", &file).unwrap_err();
    assert_eq!(error.message, "non-directory repository component: /a");

    let failed = vec![
        directory(0),
        ComponentStat::Failed(Failure::new(FailureKind::PermissionDenied, "denied")),
        ComponentStat::Absent,
    ];
    assert_eq!(
        config.validate_path_topology("/a/b", &failed).unwrap_err(),
        Failure::new(FailureKind::PermissionDenied, "denied")
    );
}

#[test]
fn an_owned_repository_stays_inside_and_belongs_to_its_owner() {
    let mut config = Config::load("/a".into(), None, "/h", "me");
    config.ownership = Some((5, 6));
    let stats = vec![directory(0), directory(7)];
    let error = config.validate_path_topology("/a", &stats).unwrap_err();
    assert_eq!(error.kind, FailureKind::PermissionDenied);
    assert_eq!(
        error.message,
        "repository component is not owned by uid 5: /a"
    );

    config.tags = "/b/tags".into();
    let all: Vec<Vec<ComponentStat>> = config
        .repository_places()
        .iter()
        .map(|place| {
            path_prefixes(place)
                .iter()
                .map(|_| ComponentStat::Absent)
                .collect()
        })
        .collect();
    let error = config.validate_repository_topology(&all).unwrap_err();
    assert_eq!(error.kind, FailureKind::InvalidInput);
    assert_eq!(error.message, "repository path escapes root: /b/tags");
    config.tags = "/a/tags".into();
    assert_eq!(config.validate_repository_topology(&all), Ok(()));
}

#[test]
fn files_of_the_repository_are_hidden_from_discovery() {
    let config = Config::load("/base/repo".into(), None, "/base", "me");
    assert_eq!(
        config.hidden_places(),
        vec![
            config.root.clone(),
            config.access.clone(),
            config.backups.clone(),
            config.edits.clone(),
            config.dirs.clone(),
            config.tags.clone(),
        ]
    );
    assert_eq!(config.hidden_places()[0], "/base/repo");
}
