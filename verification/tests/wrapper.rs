use bedit::config::Config;
use bedit::editor::{editor_aliases, EditorFamily, ProcessStrategy};
use bedit::failure::FailureKind;
use bedit::path::join;
use bedit::encoding::{bytes_of_raw, raw};
use bedit::watching::{compare_names, is_watched, knows, read_events, MaskBits, Watch};
use bedit::wrapper::{
    absolute_local, coalesce_directory_events, consider_target, diff_tail, discoverable_fd_name,
    discovered_track, discovery_profile, discovery_roots, excluded, family_discovery_profile,
    is_below_any, local_parts, look_is_due, lsof_result, macos_discovery_roots, macos_system_asset,
    option_takes_value, parse_lsof_paths, platform_discovery_roots, profiled_discovery_candidate,
    session_exit_code, session_pause, session_profile, target_action, target_arguments, text_tail,
    transparent_alias, wildcard, wrapper_of_program, DirectoryEvent, DiscoveryProfile, DiscoveryRejection, PollAction,
    Probe, Report, SessionResults, Surroundings, TargetAction, Track, WrapperSpec,
};

const HOME: &str = "/base/home";

fn discovery_config() -> Config {
    Config {
        root: "/base/store".into(),
        access: "/base/store/access".into(),
        backups: "/base/store/backups".into(),
        edits: "/base/store/edits".into(),
        dirs: "/base/store/dirs".into(),
        tags: "/base/store/tags".into(),
        actors: "/base/store/actors".into(),
        actor: "tester".into(),
        history_owner: "tester".into(),
        ownership: None,
        keep_backup_if_no_edit: true,
        diff_tail_lines: 20,
        exclude: "*.log".to_owned(),
    }
}

fn around(runtime_roots: Vec<String>) -> Surroundings {
    Surroundings {
        macos: false,
        repository: vec!["/base/store".into(), "/base/store/access".into()],
        home: HOME.into(),
        runtime_roots,
    }
}

fn file(path: &str) -> Probe {
    Probe {
        target: path.into(),
        is_file: true,
        canonical: Some(path.into()),
    }
}

fn spec(wrapper: &'static str, editor: &'static str) -> WrapperSpec {
    WrapperSpec { wrapper, editor }
}

#[test]
fn target_option_values_match_active_wrappers() {
    let vi = WrapperSpec {
        wrapper: "bvi",
        editor: "vi",
    };
    let emacs = WrapperSpec {
        wrapper: "bemacs",
        editor: "emacs",
    };
    assert!(option_takes_value(&vi, "-c"));
    assert!(option_takes_value(&vi, "-O"));
    assert!(!option_takes_value(&vi, "-x"));
    assert!(option_takes_value(&emacs, "--eval"));
    assert!(option_takes_value(&emacs, "--execute"));
}

#[test]
fn created_directory_event_wins_when_open_and_create_are_coalesced() {
    let path = "new.txt".to_string();
    let events = coalesce_directory_events(vec![
        DirectoryEvent {
            path: path.clone(),
            created: false,
        },
        DirectoryEvent {
            path: path.clone(),
            created: true,
        },
    ]);
    assert_eq!(events.len(), 1);
    assert_eq!(events[0].path, path);
    assert!(events[0].created);
}

#[test]
fn the_order_of_directory_events_makes_no_difference() {
    let event = |path: &str, created: bool| DirectoryEvent {
        path: path.to_string(),
        created,
    };
    let forwards = coalesce_directory_events(vec![
        event("b", false),
        event("a", false),
        event("b", true),
        event("a", false),
    ]);
    let backwards = coalesce_directory_events(vec![
        event("a", false),
        event("b", true),
        event("a", false),
        event("b", false),
    ]);
    let said = |events: &Vec<DirectoryEvent>| -> Vec<(String, bool)> {
        events.iter().map(|e| (e.path.clone(), e.created)).collect()
    };
    assert_eq!(said(&forwards), said(&backwards));
    assert_eq!(
        said(&forwards),
        vec![("a".to_string(), false), ("b".to_string(), true)]
    );
}

#[test]
fn exclusion_wildcards_match_legacy_patterns() {
    assert!(wildcard("*.log", "app.log"));
    assert!(!wildcard("*.log", "app.txt"));
}

#[test]
fn dynamic_bvi_candidate_filter_is_conservative() {
    assert!(!discoverable_fd_name("0"));
    assert!(!discoverable_fd_name("1"));
    assert!(!discoverable_fd_name("2"));
    assert!(discoverable_fd_name("3"));

    let config = discovery_config();
    let around = around(vec!["/base/vim-runtime".into()]);
    let candidate = |watched: &Vec<String>, probe: &Probe| {
        profiled_discovery_candidate(&config, DiscoveryProfile::Vim, &around, watched, probe)
    };
    let none: Vec<String> = Vec::new();
    let ordinary = "/base/work/b.txt";
    assert_eq!(candidate(&none, &file(ordinary)), Ok(ordinary.to_string()));

    let known = vec![ordinary.to_string()];
    assert_eq!(
        candidate(&known, &file(ordinary)),
        Err(DiscoveryRejection::AlreadyTracked)
    );
    assert_eq!(
        candidate(&none, &file("/base/store/access/record")),
        Err(DiscoveryRejection::RepositoryInternal)
    );
    for path in ["/proc/self/status", "/sys/kernel", "/dev/null", "/run/x"] {
        assert_eq!(
            candidate(&none, &file(path)),
            Err(DiscoveryRejection::PseudoFilesystem)
        );
    }
    assert_eq!(
        candidate(&none, &file("/tmp/gone (deleted)")),
        Err(DiscoveryRejection::Deleted)
    );
    assert_eq!(
        candidate(&none, &file("relative.txt")),
        Err(DiscoveryRejection::NotAbsolute)
    );
    for other in ["/base/work", "/base/work/editor.sock"] {
        let probe = Probe {
            is_file: false,
            ..file(other)
        };
        assert_eq!(
            candidate(&none, &probe),
            Err(DiscoveryRejection::NotRegular)
        );
    }
    let lost = Probe {
        canonical: None,
        ..file(ordinary)
    };
    assert_eq!(candidate(&none, &lost), Err(DiscoveryRejection::InvalidPath));

    for path in [
        "/base/vim-runtime/defaults.vim",
        "/base/home/.vim/plugin/example.vim",
        "/base/home/.config/vim/vimrc",
    ] {
        assert_eq!(
            candidate(&none, &file(path)),
            Err(DiscoveryRejection::VimAsset)
        );
    }

    for leaf in [
        "vimrc",
        ".vimrc",
        "outside-runtime.vim",
        "syntax.vim",
        "synload.vim",
        "syncolor.vim",
        "filetype.vim",
        "netrwPlugin.vim",
        ".a.txt.swp",
        ".a.txt.swo",
        ".a.txt.swn",
        "a.txt~",
        ".a.txt.tmp",
        "app.log",
    ] {
        assert!(
            candidate(&none, &file(&join("/base/work", leaf))).is_err(),
            "accepted {leaf}"
        );
    }
}

#[test]
fn linux_discovery_profiles_cover_supported_wrappers() {
    assert_eq!(discovery_profile("bvi"), Some(DiscoveryProfile::Vim));
    assert_eq!(discovery_profile("bnvim"), Some(DiscoveryProfile::Neovim));
    assert_eq!(discovery_profile("bnano"), Some(DiscoveryProfile::Nano));
    assert_eq!(discovery_profile("bpico"), None);
    assert_eq!(discovery_profile("bemacs"), Some(DiscoveryProfile::Emacs));
    assert_eq!(discovery_profile("bed"), None);
}

#[test]
fn every_spawned_alias_uses_its_family_discovery_profile() {
    for alias in editor_aliases()
        .iter()
        .filter(|alias| alias.supported && alias.strategy == ProcessStrategy::SpawnedEditor)
    {
        let expected = match alias.family {
            EditorFamily::Vim => Some(DiscoveryProfile::Vim),
            EditorFamily::Neovim => Some(DiscoveryProfile::Neovim),
            EditorFamily::Nano => Some(DiscoveryProfile::Nano),
            EditorFamily::Emacs => Some(DiscoveryProfile::Emacs),
            EditorFamily::Ed
            | EditorFamily::Micro
            | EditorFamily::Joe
            | EditorFamily::Jed
            | EditorFamily::McEdit => None,
        };
        assert_eq!(
            family_discovery_profile(alias.family),
            expected,
            "{}",
            alias.name
        );
    }
}

#[test]
fn neovim_assets_are_rejected_without_banning_user_lua() {
    let config = discovery_config();
    let around = around(discovery_roots(DiscoveryProfile::Neovim, HOME, None));
    let none: Vec<String> = Vec::new();
    for user_file in ["/base/work/plugin.lua", "/base/work/project.vim"] {
        assert!(
            profiled_discovery_candidate(
                &config,
                DiscoveryProfile::Neovim,
                &around,
                &none,
                &file(user_file)
            )
            .is_ok(),
            "rejected project file {}",
            user_file
        );
    }
    for path in [
        "/base/home/.config/nvim/init.lua",
        "/base/home/.local/share/nvim/site/pack/plugin/plugin.lua",
    ] {
        assert_eq!(
            profiled_discovery_candidate(
                &config,
                DiscoveryProfile::Neovim,
                &around,
                &none,
                &file(path)
            ),
            Err(DiscoveryRejection::VimAsset)
        );
    }
}

#[test]
fn emacs_assets_and_temporary_files_are_rejected_without_banning_user_elisp() {
    let config = discovery_config();
    let around = around(Vec::new());
    let none: Vec<String> = Vec::new();
    let emacs = |path: &str| {
        profiled_discovery_candidate(
            &config,
            DiscoveryProfile::Emacs,
            &around,
            &none,
            &file(path),
        )
    };
    assert!(emacs("/base/work/program.el").is_ok());
    for path in [
        "/base/home/.emacs.d/init.el",
        "/base/home/.emacs.d/elpa/package/autoloads.el",
        "/base/work/.#locked.txt",
        "/base/work/#autosave.txt#",
        "/base/work/saved.txt~",
    ] {
        assert!(emacs(path).is_err());
    }
}

#[test]
fn parses_machine_lsof_records_conservatively() {
    let output = b"p42\nf0\nn/dev/null\nf3\nn/Users/alice/My Project/a.txt\nf4\nn/Users/alice/na\xC3\xAFve.txt\nf4\nn/Users/alice/na\xC3\xAFve.txt\nfcwd\nn/Users/alice/My Project\nf5\nnrelative.txt\nfbroken\nn/tmp/ignored\n".to_vec();
    assert_eq!(
        parse_lsof_paths(&output)
            .iter()
            .map(|path| String::from_utf8(bytes_of_raw(path).unwrap()).unwrap())
            .collect::<Vec<_>>(),
        vec![
            "/Users/alice/My Project/a.txt".to_string(),
            "/Users/alice/na\u{00ef}ve.txt".to_string(),
        ]
    );
}

#[test]
fn a_run_of_lsof_that_fails_is_an_error() {
    let output = b"p42\nf3\nn/Users/alice/Project/file with spaces.txt\n".to_vec();
    assert_eq!(
        lsof_result(true, "exit status: 0", &output),
        Ok(vec!["/Users/alice/Project/file with spaces.txt".to_string()])
    );
    let error = lsof_result(false, "exit status: 1", &output).unwrap_err();
    assert_eq!(error.kind, FailureKind::Other);
}

#[test]
fn macos_filters_system_assets() {
    let config = discovery_config();
    let home = "/base/Users/alice";
    let mut around = around(macos_discovery_roots(DiscoveryProfile::Emacs, home, None));
    around.home = home.into();
    around.macos = true;
    let none: Vec<String> = Vec::new();
    assert!(profiled_discovery_candidate(
        &config,
        DiscoveryProfile::Emacs,
        &around,
        &none,
        &file("/base/Users/alice/Project/normal file.el")
    )
    .is_ok());
    assert_eq!(
        profiled_discovery_candidate(
            &config,
            DiscoveryProfile::Emacs,
            &around,
            &none,
            &file("/System/Library/Frameworks/AppKit.framework/AppKit")
        ),
        Err(DiscoveryRejection::PseudoFilesystem)
    );
    assert!(macos_system_asset(
        "/System/Library/Frameworks/AppKit.framework/AppKit"
    ));
    assert!(!macos_system_asset("/Volumes/Project/ordinary.txt"));
    assert!(!macos_system_asset(
        "/private/var/folders/project/ordinary.txt"
    ));
    assert!(!macos_system_asset(
        "/private/var/folders/ab/cd/T/project/ordinary.txt"
    ));
    assert!(macos_system_asset("/private/var/folders/ab/cd/T/emacs-temp"));
}

#[test]
fn runtime_directories_depend_on_editor_and_system() {
    let vim = discovery_roots(DiscoveryProfile::Vim, HOME, Some("/opt/vim"));
    assert!(vim.contains(&"/opt/vim".to_string()));
    assert_eq!(
        platform_discovery_roots(false, DiscoveryProfile::Vim, HOME, Some("/opt/vim")),
        vim
    );
    assert_eq!(
        platform_discovery_roots(true, DiscoveryProfile::Vim, HOME, None),
        macos_discovery_roots(DiscoveryProfile::Vim, HOME, None)
    );
    assert!(is_below_any("/opt/vim/a", &vim));
    assert!(!is_below_any("/opt/vimx/a", &vec!["/opt/vim".to_string()]));
}

fn poll(track: &mut Track, final_flush: bool, content: &str) -> Option<Vec<u8>> {
    match track.poll_track(final_flush, Some(content.as_bytes().to_vec())) {
        PollAction::Nothing => None,
        PollAction::Publish(bytes) => Some(bytes),
        PollAction::ReadAgain(first) => match track.poll_again(&first, Some(first.clone())) {
            PollAction::Publish(bytes) => Some(bytes),
            _ => None,
        },
    }
}

#[test]
fn changed_save_states_publish_once_and_final_flush_is_idempotent() {
    let mut track = Track::new("/base/work/demo.txt", "demo.txt", b"original\n".to_vec());
    let mut results = SessionResults::new();
    let mut published = 0;
    for (expected, content) in [(1, "one\n"), (2, "two\n"), (3, "three\n")] {
        if let Some(bytes) = poll(&mut track, true, content) {
            published += 1;
            results.captured(&track, published, String::new(), false, None);
            track.mark_published(bytes);
        }
        assert_eq!(published, expected);
    }
    assert_eq!(poll(&mut track, true, "three\n"), None);
    assert_eq!(poll(&mut track, true, "three\n"), None);
    assert_eq!(published, 3);
    assert_eq!(results.files[0].revisions.len(), 3);
}

#[test]
fn late_create_event_preserves_dynamic_first_save() {
    let config = discovery_config();
    let around = around(Vec::new());
    let path = "/base/work/b.txt";
    let mut tracks: Vec<Track> = Vec::new();
    let found = consider_target(
        &config,
        DiscoveryProfile::Vim,
        &around,
        &mut tracks,
        &Vec::new(),
        &file(path),
        false,
    );
    assert_eq!(found.as_deref(), Some(path));
    tracks.push(discovered_track(path, b"b saved\n".to_vec(), false).unwrap());
    assert_eq!(tracks[0].baseline, b"b saved\n");

    let again = consider_target(
        &config,
        DiscoveryProfile::Vim,
        &around,
        &mut tracks,
        &vec![Some(path.to_string())],
        &file(path),
        true,
    );
    assert_eq!(again, None);
    assert_eq!(tracks.len(), 1);
    assert!(tracks[0].baseline.is_empty());
    assert_eq!(
        poll(&mut tracks[0], true, "b saved\n"),
        Some(b"b saved\n".to_vec())
    );
    tracks[0].mark_published(b"b saved\n".to_vec());
    assert_eq!(poll(&mut tracks[0], true, "b saved\n"), None);
    tracks[0].promote(true);
    assert_eq!(tracks[0].baseline, b"b saved\n");
}

#[test]
fn failed_publication_does_not_consume_completed_state() {
    let mut track = Track::new("/base/work/demo.txt", "demo.txt", b"before\n".to_vec());
    assert_eq!(poll(&mut track, true, "after\n"), Some(b"after\n".to_vec()));
    assert_eq!(track.baseline, b"before\n");
    assert_eq!(track.observed.as_deref(), Some(b"before\n".as_slice()));
    assert_eq!(poll(&mut track, true, "after\n"), Some(b"after\n".to_vec()));
}

#[test]
fn truncate_then_write_is_deferred_without_losing_completed_state() {
    let mut track = Track::new("/base/work/demo.txt", "demo.txt", b"before\n".to_vec());
    let first = match track.poll_track(false, Some(Vec::new())) {
        PollAction::ReadAgain(first) => first,
        _ => panic!("an unstable content was taken"),
    };
    match track.poll_again(&first, Some(b"after\n".to_vec())) {
        PollAction::Nothing => {}
        _ => panic!("an unstable content was taken"),
    }
    assert_eq!(poll(&mut track, false, "after\n"), Some(b"after\n".to_vec()));
}

#[test]
fn a_file_that_cannot_be_read_changes_nothing() {
    let mut track = Track::new("/w/a", "a", b"x".to_vec());
    match track.poll_track(true, None) {
        PollAction::Nothing => {}
        _ => panic!("nothing was read"),
    }
    assert_eq!(track.observed.as_deref(), Some(b"x".as_slice()));
}

#[test]
fn session_results_are_reported_by_path() {
    let mut results = SessionResults::new();
    let b = Track::new("/w/b", "b", Vec::new());
    let a = Track::new("/w/a", "a", Vec::new());
    results.captured(&b, 1, "diff of b".into(), false, None);
    results.captured(&a, 4, String::new(), true, Some("mirror".into()));
    results.captured(&a, 5, String::new(), true, None);
    let say = |is_error: bool, text: &str| Report {
        is_error,
        text: text.into(),
    };
    let reports = results.render();
    let out: String = reports
        .iter()
        .filter(|r| !r.is_error)
        .map(|r| r.text.as_str())
        .collect();
    assert_eq!(
        out,
        "a: 2 revisions captured\nb: 1 revision captured\n\ndiff of b\n"
    );
    assert!(reports.contains(&say(
        true,
        "bedit: warning: diff failed for a; preserved backup-only revisions 4, 5\n"
    )));
    assert_eq!(
        reports.last().unwrap(),
        &say(true, "bedit: warning: a: mirror\n")
    );
}

#[test]
fn targets_are_the_arguments_that_name_files() {
    let args: Vec<String> = ["-c", "set nu", "+10", "a.txt", "--", "-b.txt"]
        .iter()
        .map(|s| s.to_string())
        .collect();
    let targets = target_arguments(&spec("bvi", "vi"), &args);
    assert_eq!(targets, vec!["a.txt".to_string()]);
    assert_eq!(
        local_parts("a.txt", "/w"),
        ("/w".to_string(), "a.txt".to_string())
    );
    assert_eq!(absolute_local("/real", "a.txt"), "/real/a.txt");
}

#[test]
fn directories_and_excluded_files_are_not_tracked() {
    let config = discovery_config();
    assert!(excluded(&config, "/base/store/x", "x"));
    assert!(excluded(&config, "/w/a.log", "a.log"));
    assert!(!excluded(&config, "/w/a.txt", "a.txt"));
    assert_eq!(
        target_action(&config, "/w/a.txt", "a.txt", true, true),
        TargetAction::Skip
    );
    assert_eq!(
        target_action(&config, "/w/a.log", "a.log", false, true),
        TargetAction::Skip
    );
    assert_eq!(
        target_action(&config, "/w/a.txt", "a.txt", false, false),
        TargetAction::Create
    );
    assert_eq!(
        target_action(&config, "/w/a.txt", "a.txt", false, true),
        TargetAction::Keep
    );
}

#[test]
fn diffs_are_cut_to_their_tail() {
    assert_eq!(text_tail("a\nb\nc\n", 2), "b\nc\n");
    assert_eq!(text_tail("a\nb", 5), "a\nb\n");
    assert_eq!(
        diff_tail(Some(1), &b"a\nb\nc\n".to_vec(), 1),
        text_tail("a\nb\nc\n", 1)
    );
    assert_eq!(diff_tail(Some(2), &b"a\n".to_vec(), 1), "");
}

#[test]
fn aliases_that_leave_the_terminal_are_refused() {
    assert_eq!(transparent_alias("vim").unwrap().named_wrapper, "bvi");
    assert!(transparent_alias("gvim").is_err());
    assert_eq!(
        transparent_alias("frobnicate").unwrap_err().kind,
        FailureKind::InvalidInput
    );
    assert_eq!(
        session_profile(true, false, Some(EditorFamily::Emacs), "bvi"),
        Some(DiscoveryProfile::Emacs)
    );
    assert_eq!(
        session_profile(true, false, None, "bvi"),
        Some(DiscoveryProfile::Vim)
    );
    assert_eq!(session_profile(false, false, None, "bvi"), None);
}

#[test]
fn signals_decide_the_exit_code() {
    assert_eq!(session_exit_code(2, Some(7)), 130);
    assert_eq!(session_exit_code(0, Some(7)), 7);
    assert_eq!(session_exit_code(0, None), 0);
}

#[test]
fn programs_are_wrappers_by_their_names() {
    for (program, wrapper, editor) in [
        ("bed", "bed", "ed"),
        ("bvi-rust", "bvi", "vi"),
        ("bnvim", "bnvim", "nvim"),
        ("bemacs-rust", "bemacs", "emacs"),
    ] {
        let spec = wrapper_of_program(program).unwrap();
        assert_eq!((spec.wrapper, spec.editor), (wrapper, editor));
    }
    for program in ["bedit", "bedit-rust", "vi", "bvi-", ""] {
        assert!(wrapper_of_program(program).is_none());
    }
}

const BITS: MaskBits = MaskBits {
    directory: 0x4000_0000,
    created: 0x180,
};

/// An event as the system writes it, with a name that is filled up with zeros.
fn raw_event(descriptor: i32, mask: u32, name: &str, length: u32) -> Vec<u8> {
    let mut bytes = Vec::new();
    bytes.extend(descriptor.to_le_bytes());
    bytes.extend(mask.to_le_bytes());
    bytes.extend(0u32.to_le_bytes());
    bytes.extend(length.to_le_bytes());
    let mut field = name.as_bytes().to_vec();
    field.resize(length as usize, 0);
    bytes.extend(field);
    bytes
}

fn watch(descriptor: i32, directory: &str) -> Watch {
    Watch {
        descriptor,
        directory: directory.into(),
    }
}

#[test]
fn events_of_watched_directories_are_read() {
    let watches = vec![watch(1, "/w"), watch(-7, "/v")];
    let mut bytes = raw_event(1, 0x20, "a.txt", 16);
    bytes.extend(raw_event(-7, 0x100, "new.txt", 16));
    bytes.extend(raw_event(1, 0x4000_0100, "dir", 16));
    bytes.extend(raw_event(9, 0x100, "unknown", 16));
    bytes.extend(raw_event(1, 0x100, "", 0));
    bytes.extend(raw_event(1, 0x80, "moved", 16));
    bytes.extend(&raw_event(1, 0x100, "cut off", 16)[..20]);
    let events = read_events(&bytes, false, &watches, BITS);
    let told: Vec<(&str, bool)> = events
        .iter()
        .map(|event| (event.path.as_str(), event.created))
        .collect();
    assert_eq!(
        told,
        vec![("/w/a.txt", false), ("/v/new.txt", true), ("/w/moved", true)]
    );
    assert!(read_events(&Vec::new(), false, &watches, BITS).is_empty());
    let mut swapped = raw_event(1, 0x100, "b", 4);
    for field in 0..4 {
        swapped[field * 4..field * 4 + 4].reverse();
    }
    assert_eq!(read_events(&swapped, true, &watches, BITS)[0].path, "/w/b");
    let mut strange = raw_event(1, 0x100, "x", 4);
    strange[16] = 0xe9;
    let event = &read_events(&strange, false, &watches, BITS)[0];
    assert_eq!(event.path, "/w/\u{e9}");
    assert_eq!(bytes_of_raw(&event.path).unwrap(), b"/w/\xe9");
    assert!(is_watched(&watches, "/w/"));
    assert!(!is_watched(&watches, "/x"));
}

#[test]
fn names_that_are_not_text_keep_their_bytes() {
    let output = b"p1\nf3\nn/w/\xff\nf4\nn/w/\xfe\nf5\nn/w//\xff\n".to_vec();
    let paths = parse_lsof_paths(&output);
    assert_eq!(paths, ["/w/\u{ff}", "/w/\u{fe}"]);
    assert_eq!(bytes_of_raw(&paths[0]).unwrap(), b"/w/\xff");
    assert_eq!(bytes_of_raw("\u{100}"), None);
    let bytes: Vec<u8> = (0..=255).collect();
    assert_eq!(bytes_of_raw(&raw(&bytes)), Some(bytes));
}

#[test]
fn a_look_is_due_when_the_pause_is_over() {
    assert!(look_is_due(None, 5));
    assert!(!look_is_due(Some(4), 5));
    assert!(look_is_due(Some(5), 5));
}

#[test]
fn a_session_pauses_for_the_shorter_time() {
    assert_eq!(session_pause(7, None), 7);
    assert_eq!(session_pause(7, Some(3)), 3);
    assert_eq!(session_pause(7, Some(7)), 7);
    assert_eq!(session_pause(7, Some(9)), 7);
}

#[test]
fn directory_snapshots_tell_of_new_files_once() {
    let known = vec!["a.txt".to_string()];
    let current = vec!["a.txt".to_string(), "b.txt".to_string()];
    let events = compare_names("/w", &known, &current, true);
    assert_eq!(events.len(), 1);
    assert_eq!((events[0].path.as_str(), events[0].created), ("/w/b.txt", true));
    assert!(compare_names("/w", &current, &current, true).is_empty());
    let initial = compare_names("/w", &Vec::new(), &known, false);
    assert!(!initial[0].created);
    assert!(knows(&current, "b.txt"));
    assert!(!knows(&known, "b.txt"));
}
