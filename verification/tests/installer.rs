use bedit::failure::{Failure, FailureKind};
use bedit::identity::{parse_sudo_history_config, SudoHistoryPolicy};
use bedit::installer::{
    absolute, backup_destination, backup_name, check_current, check_executable, check_marker,
    check_stale_target, config_place, config_text, config_writes, current_link, instance_name,
    is_installed, is_shim, legacy_payload, look_before_install, look_before_uninstall,
    managed_current, managed_link, page_is_removed, page_is_set_aside, parse_bool, parse_editors,
    parse_request, plan_install, plan_uninstall, restore_or_remove, safe_name, stage_name,
    stale_link, stale_payload, update_config, write_shim, EditorRow, EntryStat, Fate, InstallMode,
    InstallRequest, InstallStep, Installed, Occupant, OwnUser, ToRead, UninstallStep,
};
use bedit::store::FileRead;

fn words(list: &[&str]) -> Vec<String> {
    list.iter().map(|s| s.to_string()).collect()
}

fn good() -> Vec<String> {
    words(&[
        "install",
        "/opt/bedit",
        "/etc/bedit/config.toml",
        "transparent",
        "root_only",
        "/src",
        "/man",
        "vim:bvi,,nano:bnano",
        "1",
        "0",
    ])
}

fn with(index: usize, value: &str) -> Vec<String> {
    let mut args = good();
    args[index] = value.to_string();
    args
}

fn request() -> InstallRequest {
    parse_request(&good(), &None).unwrap()
}

const REGULAR: EntryStat = EntryStat::Found {
    mode: 0o100755,
    links: 1,
};
const LINK: EntryStat = EntryStat::Found {
    mode: 0o120777,
    links: 1,
};
const DIRECTORY: EntryStat = EntryStat::Found {
    mode: 0o040755,
    links: 2,
};

#[test]
fn arguments_say_what_is_installed_where() {
    let request = request();
    assert!(request.install);
    assert_eq!(request.prefix, "/opt/bedit");
    assert_eq!(request.config.as_deref(), Some("/etc/bedit/config.toml"));
    assert_eq!(request.mode, InstallMode::Transparent);
    assert_eq!(request.policy, SudoHistoryPolicy::RootOnly);
    assert_eq!(request.editors.len(), 2);
    assert_eq!(request.editors[1].wrapper, "bnano");
    assert!(request.copy);
    assert!(!request.purge);
    assert_eq!(parse_request(&with(2, "-"), &None).unwrap().config, None);
    assert!(!parse_request(&with(0, "uninstall"), &None).unwrap().install);
}

#[test]
fn arguments_that_are_wrong_are_refused() {
    for (index, value, message) in [
        (0, "remove", "invalid helper action"),
        (1, "opt", "helper path must be absolute"),
        (2, "etc", "helper path must be absolute"),
        (3, "other", "invalid install mode"),
        (4, "wheel", "invalid sudo policy"),
        (5, "src", "helper path must be absolute"),
        (6, "man", "helper path must be absolute"),
        (7, "vim", "invalid editor registry"),
        (7, "v/m:bvi", "invalid editor name"),
        (8, "yes", "invalid helper boolean"),
        (9, "2", "invalid helper boolean"),
    ] {
        let error = parse_request(&with(index, value), &None).unwrap_err();
        assert_eq!(error.message, message);
        assert_eq!(error.kind, FailureKind::InvalidInput);
    }
    assert_eq!(
        parse_request(&words(&["install"]), &None).unwrap_err().message,
        "invalid trusted installer helper arguments"
    );
}

#[test]
fn users_install_below_their_home() {
    let user = |root: bool, home: Option<&str>| {
        Some(OwnUser {
            root,
            home: home.map(String::from),
        })
    };
    let mut args = with(2, "-");
    args[1] = "/Users/a/opt".into();
    assert!(parse_request(&args, &user(false, Some("/Users/a"))).is_ok());
    assert_eq!(
        parse_request(&args, &user(true, Some("/Users/a"))).unwrap_err().kind,
        FailureKind::Unsupported
    );
    assert_eq!(
        parse_request(&args, &user(false, None)).unwrap_err().message,
        "HOME is required"
    );
    args[1] = "/Users/a".into();
    assert_eq!(
        parse_request(&args, &user(false, Some("/Users/a"))).unwrap_err().kind,
        FailureKind::PermissionDenied
    );
}

#[test]
fn names_and_values_are_checked() {
    assert!(safe_name("vim-tiny8"));
    assert!(!safe_name(""));
    assert!(!safe_name("a.b"));
    assert_eq!(parse_editors(""), Ok(Vec::new()));
    assert_eq!(parse_bool("1"), Ok(true));
    assert_eq!(absolute("/a"), Ok("/a".to_string()));
    assert_eq!(instance_name("1.2", 3, 4), "bedit-1.2-3-4");
    assert_eq!(stage_name("shim", 3, 4), ".bedit-shim-3-4");
    assert_eq!(backup_name("vi"), "vi.bedit-backup");
}

#[test]
fn payloads_are_checked_before_anything_is_written() {
    let steps = plan_install(&request(), "1.0", "i");
    assert_eq!(steps[0], InstallStep::CheckMarker("bedit-rust".into()));
    let opened = steps
        .iter()
        .position(|step| *step == InstallStep::OpenPlaces)
        .unwrap();
    assert_eq!(opened, 8);
    assert!(steps[1..opened]
        .iter()
        .all(|step| matches!(step, InstallStep::CheckPayload(_))));
    assert!(steps[opened..]
        .iter()
        .all(|step| !matches!(step, InstallStep::CheckPayload(_))));
    assert_eq!(
        check_marker(&b"xbeditx".to_vec()),
        Ok(())
    );
    assert_eq!(
        check_marker(&b"other".to_vec()).unwrap_err().message,
        "payload lacks Bedit marker"
    );
    assert_eq!(check_executable(0o100711), Ok(()));
    assert_eq!(
        check_executable(0o100644).unwrap_err().kind,
        FailureKind::PermissionDenied
    );
}

#[test]
fn an_install_links_commands_and_writes_shims() {
    let steps = plan_install(&request(), "1.0", "bedit-1.0-3-4");
    assert!(steps.contains(&InstallStep::LinkCurrent("versions/bedit-1.0-3-4".into())));
    assert!(steps.contains(&InstallStep::LinkCommand {
        name: "bvi".into(),
        target: "../libexec/bedit/current/bvi-rust".into()
    }));
    assert!(steps.contains(&InstallStep::WriteManifest(
        "mode=transparent\nversion=1.0\neditors=vim nano\n".into()
    )));
    assert_eq!(
        steps.last(),
        Some(&InstallStep::WriteConfig {
            path: "/etc/bedit/config.toml".into(),
            policy: SudoHistoryPolicy::RootOnly
        })
    );
    let shim = write_shim(
        &EditorRow {
            editor: "vim".into(),
            wrapper: "bvi".into(),
        },
        "/opt/bedit",
    );
    assert_eq!(
        shim,
        "#!/bin/sh\n# Bedit transparent editor shim\nset -eu\nBEDIT_EDITOR_ALIAS='vim'\nBEDIT_SHIM_DIR='/opt/bedit/bin'\nexport BEDIT_EDITOR_ALIAS BEDIT_SHIM_DIR\nexec '/opt/bedit/libexec/bedit/current/bvi-rust' \"$@\"\n"
    );
    assert!(is_shim(&shim.clone().into_bytes()));
    assert!(steps.contains(&InstallStep::WriteShim {
        editor: "vim".into(),
        text: shim
    }));
    let mut named = request();
    named.mode = InstallMode::Named;
    named.copy = false;
    let steps = plan_install(&named, "1.0", "i");
    assert_eq!(steps[0], InstallStep::OpenPlaces);
    assert!(steps.contains(&InstallStep::RequireCurrent));
    assert!(steps.contains(&InstallStep::RestoreEditor("nano".into())));
}

#[test]
fn an_uninstall_takes_back_what_was_installed() {
    let found = Installed {
        commands: true,
        manual: true,
        manifest: true,
    };
    let steps = plan_uninstall(&request(), found);
    for name in ["bedit", "bemacs", "vim", "nano", "vi", "ed"] {
        assert!(steps.contains(&UninstallStep::RestoreName(name.into())));
    }
    assert!(steps.contains(&UninstallStep::RestorePage("bedit.1".into())));
    assert_eq!(steps.last(), Some(&UninstallStep::RemovePayloads));
    let mut purging = request();
    purging.purge = true;
    assert_eq!(
        plan_uninstall(&purging, found).last(),
        Some(&UninstallStep::RemoveConfig("/etc/bedit/config.toml".into()))
    );
    let nothing = Installed {
        commands: false,
        manual: true,
        manifest: false,
    };
    assert!(plan_uninstall(&request(), nothing).is_empty());
    assert!(is_installed(Some(&b"mode=named\n".to_vec())));
    assert!(!is_installed(Some(&b"other".to_vec())));
    assert!(!is_installed(None));
}

#[test]
fn entries_are_looked_at_before_they_are_touched() {
    assert_eq!(look_before_install(&EntryStat::Missing), Ok(ToRead::Nothing));
    assert_eq!(look_before_install(&LINK), Ok(ToRead::Link));
    assert_eq!(look_before_install(&REGULAR), Ok(ToRead::File));
    assert_eq!(
        look_before_install(&DIRECTORY).unwrap_err().message,
        "unsafe install destination"
    );
    let doubled = EntryStat::Found {
        mode: 0o100755,
        links: 2,
    };
    assert!(look_before_install(&doubled).is_err());
    assert_eq!(look_before_uninstall(&doubled), Ok(ToRead::File));
    assert_eq!(
        look_before_uninstall(&DIRECTORY).unwrap_err().message,
        "unsafe uninstall destination"
    );
    let failed = EntryStat::Failed(Failure::new(FailureKind::PermissionDenied, "no"));
    assert_eq!(
        look_before_uninstall(&failed).unwrap_err().kind,
        FailureKind::PermissionDenied
    );
}

#[test]
fn what_stands_under_a_name_is_kept_or_replaced() {
    let managed = Occupant::Link("../libexec/bedit/current/bvi-rust".into());
    let shim = Occupant::File(b"# Bedit transparent editor shim\n".to_vec());
    let other = Occupant::File(b"#!/bin/sh\n".to_vec());
    assert_eq!(backup_destination(&Occupant::Nothing), Ok(Fate::Keep));
    assert_eq!(backup_destination(&managed), Ok(Fate::Remove));
    assert_eq!(backup_destination(&shim), Ok(Fate::Remove));
    assert_eq!(backup_destination(&other), Ok(Fate::SetAside));
    assert_eq!(
        backup_destination(&Occupant::Link("/usr/bin/vi".into()))
            .unwrap_err()
            .message,
        "unsafe destination symlink"
    );
    assert!(restore_or_remove(&managed));
    assert!(restore_or_remove(&shim));
    assert!(!restore_or_remove(&other));
    assert!(!restore_or_remove(&Occupant::Link("/usr/bin/vi".into())));
    assert!(managed_link("../libexec/bedit/current/x"));
    assert!(managed_current("versions/1"));
    assert!(!managed_current("versions/../x"));
}

#[test]
fn old_files_are_migrated_only_where_they_are_known() {
    assert_eq!(legacy_payload(&EntryStat::Missing), Ok(false));
    assert_eq!(legacy_payload(&REGULAR), Ok(true));
    assert_eq!(
        legacy_payload(&LINK).unwrap_err().message,
        "unsafe legacy payload inode"
    );
    assert_eq!(stale_link(&LINK), Ok(true));
    assert_eq!(
        stale_link(&REGULAR).unwrap_err().message,
        "unsafe stale migration destination"
    );
    assert_eq!(
        check_stale_target("../libexec/bedit/bvi-perl", "bvi-perl"),
        Ok(())
    );
    assert_eq!(
        check_stale_target("/bin/sh", "bvi-perl").unwrap_err().message,
        "unsafe stale migration link"
    );
    assert_eq!(stale_payload(&REGULAR), Ok(true));
    assert_eq!(
        stale_payload(&DIRECTORY).unwrap_err().message,
        "unsafe stale migration payload"
    );
    assert_eq!(current_link(&LINK), Ok(true));
    assert_eq!(current_link(&EntryStat::Missing), Ok(false));
    assert_eq!(
        current_link(&REGULAR).unwrap_err().message,
        "unsafe managed link destination"
    );
    assert_eq!(check_current("versions/a"), Ok(()));
    assert_eq!(
        check_current("/etc").unwrap_err().message,
        "unsafe managed link"
    );
}

#[test]
fn manual_pages_of_others_are_set_aside() {
    let ours = b"Bedit manual".to_vec();
    let theirs = b"another manual".to_vec();
    assert!(page_is_set_aside(Some(&theirs), &ours));
    assert!(!page_is_set_aside(Some(&ours), &b"Bedit 2".to_vec()));
    assert!(!page_is_set_aside(Some(&theirs), &theirs));
    assert!(!page_is_set_aside(None, &ours));
    assert!(page_is_removed(&ours));
    assert!(!page_is_removed(&theirs));
}

#[test]
fn the_policy_is_written_into_the_configuration() {
    assert_eq!(
        config_place("/etc/bedit/config.toml"),
        Ok(("/etc/bedit".to_string(), "config.toml".to_string()))
    );
    assert_eq!(
        config_place("/").unwrap_err().message,
        "config has no parent"
    );
    assert_eq!(config_text(FileRead::Missing), Ok(String::new()));
    assert_eq!(
        config_text(FileRead::Bytes(b"\xff".to_vec())).unwrap_err().kind,
        FailureKind::InvalidData
    );
    let old = "# mine\nsudo_history = \"user\"\nother = 1\n";
    let new = update_config(old, SudoHistoryPolicy::RootOnly);
    assert_eq!(new, "# mine\nsudo_history = \"root_only\"\nother = 1\n");
    assert_eq!(
        parse_sudo_history_config(&new),
        Ok(SudoHistoryPolicy::RootOnly)
    );
    assert_eq!(
        update_config("", SudoHistoryPolicy::RootAndUser),
        "sudo_history = \"root_and_user\"\n"
    );
    assert_eq!(config_writes(old, &new), (true, true));
    assert_eq!(config_writes("", &new), (false, true));
    assert_eq!(config_writes(&new, &new), (false, false));
}
