use bedit::cli::{
    begin_diff_restore, candidate, check_get, check_goto, check_restore, check_tag, check_where,
    choose_goto, choose_revision, choose_tag, continue_diff_restore, drop_separators,
    editor_of_restore, flag_part, full_query, get_report, goto_message, part_place, query_parent,
    request, resolve, restore_message, select_meant, startup, tag_message, unreadable_code,
    valid_get_flag, valid_restore_flag, warn_created, where_report, CliError, DiffEvent, DiffStep,
    Output, Part, Request, Startup, TAG_USAGE, USAGE,
};
use bedit::failure::{Failure, FailureKind};
use bedit::listing::{
    check_diff, choose_compared, comparison_failed, comparison_file, comparison_report,
    group_report, has_stamp, history_report, history_rows, is_synced, latest_of_file, list_items, list_order,
    listing_scope, name_sides, paint_sync, recorded_actor, search_report, search_rows,
    search_terms, sides_can_be_named, sort_items, stamp_format, table_report, ListOrder,
    RevisionTexts, Scope, DIFF_USAGE,
};
use bedit::mutation::CreatedRevision;
use bedit::store::{AccessRecord, IndexEntry, Revision};

fn revision(path: &str, number: u64, epoch: u64) -> Revision {
    let leaf = path.rsplit_once('/').unwrap().1;
    Revision {
        key: "k".into(),
        leaf: leaf.into(),
        number,
        access: AccessRecord {
            epoch,
            stamp: "1970-01-01 00:00:01 +0000".into(),
            path: path.into(),
            editor: "emacs".into(),
        },
        backup: format!("/store/backups/{leaf}{number}"),
        diff: None,
        tag: None,
        actor: "tester".into(),
    }
}

fn words(list: &[&str]) -> Vec<String> {
    list.iter().map(|s| s.to_string()).collect()
}

const PLAIN: Output = Output { color: false };
const COLOUR: Output = Output { color: true };

#[test]
fn listing_uses_stored_actor_and_never_substitutes_current_user() {
    let revision = Revision {
        key: "tmp".into(),
        leaf: "a.txt".into(),
        number: 2,
        access: AccessRecord {
            epoch: 1,
            stamp: "1970-01-01 00:00:01 +0000".into(),
            path: "/tmp/a.txt".into(),
            editor: "vi".into(),
        },
        backup: "/tmp/backup".into(),
        diff: None,
        tag: None,
        actor: "faf".into(),
    };

    assert_eq!(recorded_actor(Some(&revision)), "faf");
    assert_eq!(recorded_actor(None), "");
}

#[test]
fn exact_stored_path_resolves_when_live_file_is_on_another_host() {
    let path = "/bedit-cross-platform-missing-1/portable.txt";
    let rows = vec![revision(path, 1, 1)];
    let Ok(selected) = resolve(&rows, path, path, false, true) else {
        panic!("exact stored path did not resolve");
    };
    assert_eq!(selected.len(), 1);
    assert_eq!(selected[0].access.path, path);
}

#[test]
fn exact_stored_path_does_not_resolve_for_mutation_when_live_file_is_missing() {
    let path = "/bedit-local-mutation-missing-1/portable.txt";
    let rows = vec![revision(path, 1, 1)];
    let error = resolve(&rows, path, path, false, false).unwrap_err();
    assert_eq!(error.code, 1);
}

#[test]
fn files_that_are_missing_are_answered_with_similar_ones() {
    let rows = vec![
        revision("/w/notes.txt", 1, 1),
        revision("/v/notes.txt", 1, 1),
        revision("/w/other", 1, 1),
    ];
    let error = resolve(&rows, "notes", "/x/notes", false, true).unwrap_err();
    assert_eq!(
        error.message,
        "bedit: There is no notes in this directory. Either use fully qualified file names or goto the dir and try again.\n\nSimilar files in repo:\n  /v/notes.txt\n  /w/notes.txt"
    );
    assert!(error.stdout);
    assert!(error.color_warn);
    let error = resolve(&rows, "zzz", "/x/zzz", true, true).unwrap_err();
    assert_eq!(
        error.message,
        "bedit: File zzz does not exist in the bedit repo. To add it to the repo, open it in an editor."
    );
    assert_eq!(error.emit(&COLOUR), format!("\u{1b}[33m{}\u{1b}[0m\n", error.message));
}

#[test]
fn queries_mean_files_of_the_working_directory() {
    assert_eq!(full_query("a/b", "/w"), "/w/a/b");
    assert_eq!(full_query("/a/b", "/w"), "/a/b");
    assert_eq!(query_parent("/w/a/b"), "/w/a");
    assert_eq!(candidate("/w/a/b", "/real/a"), "/real/a/b");
    assert_eq!(candidate("/", "/"), "/");
}

#[test]
fn colours_are_asked_for_or_follow_the_terminal() {
    assert!(Output::new(Some("YES"), false).color);
    assert!(Output::new(Some("1"), false).color);
    assert!(!Output::new(Some("no"), false).color);
    assert!(Output::new(None, true).color);
    assert!(!Output::new(None, false).color);
    assert_eq!(COLOUR.path("x"), "\u{1b}[36mx\u{1b}[0m");
    assert_eq!(COLOUR.label("x"), "\u{1b}[38;5;33mx\u{1b}[0m");
    assert_eq!(COLOUR.rev("x"), "\u{1b}[35mx\u{1b}[0m");
    assert_eq!(PLAIN.rev("x"), "x");
    assert_eq!(
        COLOUR.diff("--- a\n+b\n-c\n@@\n d"),
        "\u{1b}[36m--- a\u{1b}[0m\n\u{1b}[32m+b\u{1b}[0m\n\u{1b}[31m-c\u{1b}[0m\n\u{1b}[36m@@\u{1b}[0m\n d"
    );
    assert_eq!(PLAIN.diff("+b\n"), "+b\n");
}

#[test]
fn errors_end_with_a_line_feed() {
    assert_eq!(CliError::raw("gone", 2).emit(&PLAIN), "gone\n");
    assert_eq!(CliError::raw("gone\n", 2).emit(&PLAIN), "gone\n");
    assert_eq!(CliError::local("gone").emit(&PLAIN), "gone\n");
}

#[test]
fn the_first_argument_says_what_is_wanted() {
    for (flag, wanted) in [
        ("--help", Request::Help),
        ("-?", Request::Help),
        ("-h", Request::History),
        ("-history", Request::History),
        ("-w", Request::Where),
        ("-s", Request::Search),
        ("-dif", Request::Diff),
        ("-tag", Request::Tag),
        ("-goto", Request::Goto),
        ("-lsg", Request::List),
        ("-lsxyz", Request::List),
        ("-r", Request::Restore),
        ("-rdb", Request::Restore),
        ("-g", Request::Get),
        ("-gb", Request::Get),
        ("-gx", Request::Unknown),
        ("file", Request::Unknown),
    ] {
        assert_eq!(request(&words(&[flag])), wanted, "{flag}");
    }
    assert_eq!(request(&Vec::new()), Request::Nothing);
    assert!(valid_get_flag("-gd"));
    assert!(!valid_get_flag("-r"));
    assert!(valid_restore_flag("-rb"));
    assert_eq!(
        drop_separators(&words(&["--", "a", "--", "b"])),
        words(&["a", "b"])
    );
}

#[test]
fn a_program_starts_as_what_its_arguments_say() {
    assert_eq!(startup(&words(&["-h"]), true), Startup::Command);
    assert_eq!(startup(&Vec::new(), true), Startup::Browser);
    assert_eq!(startup(&Vec::new(), false), Startup::Command);
}

#[test]
fn revisions_are_chosen_by_number_or_are_the_latest() {
    let rows = vec![revision("/w/a", 1, 1), revision("/w/a", 7, 2)];
    assert_eq!(choose_revision(&words(&["a"]), &rows), Ok(1));
    assert_eq!(choose_revision(&words(&["a", "1"]), &rows), Ok(0));
    let error = choose_revision(&words(&["a", "x"]), &rows).unwrap_err();
    assert_eq!((error.message.as_str(), error.code), ("Revision not found\n", 255));
    let error = choose_revision(&words(&["a", "3"]), &rows).unwrap_err();
    assert_eq!((error.message.as_str(), error.code), ("Revision not found\n", 2));
}

#[test]
fn tags_are_given_to_a_revision() {
    let rows = vec![revision("/w/a", 1, 1), revision("/w/a", 7, 2)];
    assert_eq!(check_tag(&words(&["a"])).unwrap_err().message, TAG_USAGE);
    assert_eq!(
        choose_tag(&words(&["a", "good", "one"]), &rows),
        Ok((1, "good one".to_string()))
    );
    assert_eq!(
        choose_tag(&words(&["a", "1", " first\r "]), &rows),
        Ok((0, "first".to_string()))
    );
    assert_eq!(
        choose_tag(&words(&["a", "1"]), &rows),
        Ok((1, "1".to_string()))
    );
    let error = choose_tag(&words(&["a", " "]), &rows).unwrap_err();
    assert_eq!((error.message.as_str(), error.code), (TAG_USAGE, 25));
    let error = choose_tag(&words(&["a", "3", "x"]), &rows).unwrap_err();
    assert_eq!(error.code, 2);
    assert_eq!(tag_message("/w/a", 7, "x"), "bedit: tagged /w/a rev 7: x\n");
}

#[test]
fn goto_finds_a_tag() {
    let mut rows = vec![revision("/w/a", 1, 1), revision("/w/a", 2, 2)];
    rows[1].tag = Some("good one".into());
    assert_eq!(check_goto(&words(&["a"])).unwrap_err().code, 255);
    assert_eq!(
        choose_goto(&words(&["a", "good", "one"]), &rows),
        Ok((1, "good one".to_string()))
    );
    assert_eq!(
        choose_goto(&words(&["a", "bad"]), &rows).unwrap_err().message,
        "Tag not found\n"
    );
    assert_eq!(
        goto_message("/w/a", "t", 2, 3),
        "bedit: restored /w/a from tag 't' (rev 2) as new rev 3\n"
    );
}

#[test]
fn flags_say_which_part_of_a_revision_is_meant() {
    assert_eq!(flag_part("-g"), Part::Backup);
    assert_eq!(flag_part("-gb"), Part::Backup);
    assert_eq!(flag_part("-gd"), Part::Diff);
    assert_eq!(flag_part("-rdb"), Part::Rendered);
    assert_eq!(editor_of_restore(Part::Backup), "restore-backup");
    assert_eq!(editor_of_restore(Part::Rendered), "restore-rendered");
    assert_eq!(editor_of_restore(Part::Diff), "restore-diff");
    assert_eq!(unreadable_code(Part::Backup), 255);
    assert_eq!(unreadable_code(Part::Diff), 2);
    let mut one = revision("/w/a", 1, 1);
    assert_eq!(
        part_place(&one, Part::Backup),
        Ok(Some("/store/backups/a1".to_string()))
    );
    assert_eq!(part_place(&one, Part::Rendered), Ok(None));
    assert_eq!(
        part_place(&one, Part::Diff).unwrap_err().message,
        "Diff not found\n"
    );
    one.diff = Some("/store/edits/a1".into());
    assert_eq!(
        part_place(&one, Part::Diff),
        Ok(Some("/store/edits/a1".to_string()))
    );
    assert_eq!(check_get(&Vec::new()).unwrap_err().message, USAGE);
    assert!(check_restore(&words(&["a", "1", "2"])).is_err());
    assert!(check_restore(&words(&["a"])).is_ok());
    assert_eq!(
        restore_message("/w/a", 1, 2),
        "restored /w/a from rev 1 as new rev 2\n"
    );
}

#[test]
fn what_was_got_is_shown_with_its_revision() {
    assert_eq!(
        get_report(&PLAIN, "/w/a", 3, true, Part::Backup, "text\n"),
        "FILE: /w/a\nREV: 3 (latest)\nTYPE: backup\n\ntext\n"
    );
    assert_eq!(
        get_report(&PLAIN, "/w/a", 3, false, Part::Rendered, "text"),
        "FILE: /w/a\nREV: 3\nTYPE: rendered\n\ntext"
    );
    assert!(get_report(&COLOUR, "/w/a", 3, false, Part::Diff, "+x\n")
        .ends_with("\u{1b}[32m+x\u{1b}[0m\n"));
}

#[test]
fn creation_warnings_name_the_file() {
    let made = CreatedRevision {
        number: 4,
        backup_only_fallback: true,
        mirror_warning: Some("lost".into()),
    };
    assert_eq!(
        warn_created("/w/a", &made),
        "bedit: warning: diff generation failed; preserved /w/a as backup-only revision 4\nbedit: warning: /w/a: lost\n"
    );
}

#[test]
fn places_of_a_file_are_listed_once() {
    let rows = vec![
        revision("/w/a", 1, 1),
        revision("/v/a", 1, 1),
        revision("/w/a", 2, 1),
        revision("/w/b", 1, 1),
    ];
    assert_eq!(where_report(&PLAIN, &rows, "a", "/x/a"), "/v/a\n/w/a\n");
    assert_eq!(where_report(&PLAIN, &rows, "/w/a", "/w/a"), "/w/a\n");
    assert_eq!(select_meant(&rows, "a", "/x/a").len(), 3);
    assert_eq!(check_where(&Vec::new()).unwrap_err().code, 2);
}

fn failed(message: &str) -> Failure {
    Failure::new(FailureKind::Other, message)
}

#[test]
fn a_diff_is_applied_after_the_live_file_was_kept() {
    let mut one = revision("/w/a", 1, 1);
    let rows = vec![revision("/w/a", 1, 1), revision("/w/a", 2, 1)];
    let live = b"live".to_vec();
    match begin_diff_restore(&one, Some(&live), &live) {
        DiffStep::Failed(error) => assert_eq!(error.message, "Diff not found\n"),
        _ => panic!("a revision without a diff"),
    }
    one.diff = Some("/store/edits/a1".into());
    match begin_diff_restore(&one, None, &live) {
        DiffStep::Failed(error) => assert_eq!(error.message, "Revision not found\n"),
        _ => panic!("a revision without a backup"),
    }
    assert!(matches!(
        begin_diff_restore(&one, Some(&live), &live),
        DiffStep::Apply
    ));
    let asked = begin_diff_restore(&one, Some(&b"other".to_vec()), &live);
    match &asked {
        DiffStep::Ask(question) => assert_eq!(
            question,
            "WARNING: current file differs from revision 1 backup. Apply diff anyway? [y/N] "
        ),
        _ => panic!("no question"),
    }
    let refused = begin_diff_restore(&one, Some(&b"other".to_vec()), &live);
    match continue_diff_restore(refused, DiffEvent::Answer("n\n".into()), &rows, &live) {
        DiffStep::Failed(error) => assert_eq!(error.message, "Aborted\n"),
        _ => panic!("applied in spite of the answer"),
    }
    let step = continue_diff_restore(asked, DiffEvent::Answer(" YES \n".into()), &rows, &live);
    assert!(matches!(step, DiffStep::Apply));
    let step = continue_diff_restore(step, DiffEvent::Applied(true), &rows, &live);
    assert!(matches!(step, DiffStep::RenderLatest(1)));
    let step = continue_diff_restore(step, DiffEvent::Rendered(Some(b"held".to_vec())), &rows, &live);
    assert!(matches!(step, DiffStep::RecordLive));
    let same = DiffEvent::Rendered(Some(live.clone()));
    let known = continue_diff_restore(DiffStep::RenderLatest(1), same, &rows, &live);
    assert!(matches!(known, DiffStep::Replace));
    let step = continue_diff_restore(step, DiffEvent::Recorded(Ok(3)), &rows, &live);
    assert!(matches!(step, DiffStep::Replace));
    let step = continue_diff_restore(step, DiffEvent::Replaced(Ok(())), &rows, &live);
    assert!(matches!(step, DiffStep::Record));
    let step = continue_diff_restore(step, DiffEvent::Recorded(Ok(4)), &rows, &live);
    assert!(matches!(step, DiffStep::Done(4)));
}

#[test]
fn a_diff_that_cannot_be_recorded_is_taken_back() {
    let rows = vec![revision("/w/a", 1, 1)];
    let live = b"live".to_vec();
    let step = continue_diff_restore(
        DiffStep::Record,
        DiffEvent::Recorded(Err(failed("full"))),
        &rows,
        &live,
    );
    assert!(matches!(step, DiffStep::PutBack(_)));
    match continue_diff_restore(step, DiffEvent::Replaced(Ok(())), &rows, &live) {
        DiffStep::Failed(error) => assert_eq!(
            error.message,
            "cannot preserve restored state: full; restored prior live file\n"
        ),
        _ => panic!("no failure"),
    }
    let step = continue_diff_restore(
        DiffStep::PutBack(failed("full")),
        DiffEvent::Replaced(Err(failed("gone"))),
        &rows,
        &live,
    );
    match step {
        DiffStep::Failed(error) => assert_eq!(
            error.message,
            "cannot preserve restored state: full; cannot restore prior live file: gone\n"
        ),
        _ => panic!("no failure"),
    }
    match continue_diff_restore(DiffStep::Apply, DiffEvent::Applied(false), &rows, &live) {
        DiffStep::Failed(error) => assert_eq!(error.message, "cannot apply diff\n"),
        _ => panic!("no failure"),
    }
}

#[test]
fn history_lists_the_newest_first_and_other_files_last() {
    let mut rows = vec![
        revision("/w/a", 1, 10),
        revision("/w/a", 2, 20),
        revision("/v/a", 1, 30),
    ];
    rows[1].tag = Some("good".into());
    assert_eq!(history_rows(&rows, Some("a"), None).len(), 3);
    assert_eq!(history_rows(&rows, Some("/v/a"), Some("/v/a")).len(), 1);
    assert_eq!(history_rows(&rows, None, None).len(), 3);
    let rows = history_rows(&rows, Some("a"), Some("/w/a"));
    let stamps = words(&["s20", "s10", "s30"]);
    let synced = vec![true, false, false];
    let report = history_report(&PLAIN, &rows, Some("/w/a"), &stamps, &synced);
    let lines: Vec<&str> = report.lines().collect();
    assert_eq!(lines[0], "REV  FILE        WHEN  EDITOR  USER    TAG ");
    assert_eq!(lines[1], "  2  /w/a        s20   emac    tester  good");
    assert_eq!(lines[2], "  1  /w/a        s10   emac    tester      ");
    assert_eq!(lines[3], "");
    assert_eq!(lines[4], "  1  other /v/a  s30   emac    tester      ");
    assert_eq!(lines.len(), 5);
}

#[test]
fn the_state_of_a_file_is_painted() {
    let rows = vec![revision("/w/a", 1, 1), revision("/w/a", 2, 1)];
    assert!(latest_of_file(&rows, &rows[1]));
    assert!(!latest_of_file(&rows, &rows[0]));
    let (one, two) = (b"one".to_vec(), b"two".to_vec());
    assert!(is_synced(Some(&one), Some(&one.clone())));
    assert!(!is_synced(Some(&one), Some(&two)));
    assert!(!is_synced(None, Some(&two)));
    assert!(!is_synced(None, None));
    let paint = |i: usize, synced: bool| paint_sync(&COLOUR, &rows, &rows[i], synced, "x".into());
    assert_eq!(paint(0, true), "\u{1b}[2mx\u{1b}[0m");
    assert_eq!(paint(1, true), "\u{1b}[1m\u{1b}[32mx\u{1b}[0m\u{1b}[0m");
    assert_eq!(paint(1, false), "\u{1b}[1m\u{1b}[31mx\u{1b}[0m\u{1b}[0m");
    assert_eq!(
        paint_sync(&PLAIN, &rows, &rows[1], true, "x".into()),
        "x"
    );
    assert!(has_stamp(1));
    assert!(!has_stamp(0));
    assert_eq!(stamp_format("2024", "2024"), "+%b %e %H:%M");
    assert_eq!(stamp_format("2024", "2023"), "+%b %e  %Y");
}

fn entry(branch: &str, leaf: &str, revision: u64, kind: char) -> IndexEntry {
    IndexEntry {
        branch: branch.into(),
        leaf: leaf.into(),
        revision,
        kind,
        target: "/t".into(),
    }
}

#[test]
fn listings_hold_what_the_scope_says() {
    assert_eq!(listing_scope(&Vec::new()), Scope::Here);
    assert_eq!(listing_scope(&words(&["."])), Scope::Here);
    assert_eq!(listing_scope(&words(&["*"])), Scope::All);
    assert_eq!(listing_scope(&words(&["a", "b"])), Scope::All);
    assert_eq!(listing_scope(&words(&["d"])), Scope::Named);
    assert_eq!(list_order("-lsf"), ListOrder::File);
    assert_eq!(list_order("-lsu"), ListOrder::User);
    assert_eq!(list_order("-lsg"), ListOrder::Group);
    assert_eq!(list_order("-ls"), ListOrder::Time);
    let rows = vec![revision("/w/a", 1, 10), revision("/w/b", 1, 20)];
    let entries = vec![
        entry("/w", "a", 1, 'a'),
        entry("/w", "a", 1, 'b'),
        entry("/w", "b", 1, 'd'),
        entry("/v", "c", 1, 'b'),
    ];
    let here = list_items(&entries, &rows, false, "/w", true);
    assert_eq!(here.len(), 3);
    assert_eq!(here[0].display, "a");
    assert_eq!(here[0].editor, "emac");
    assert_eq!(
        here.iter().map(|i| i.kind.as_str()).collect::<Vec<&str>>(),
        vec!["access", "backup", "diff"]
    );
    assert_eq!(list_items(&entries, &rows, false, "/w/b", false).len(), 1);
    let all = list_items(&entries, &rows, true, "", false);
    assert_eq!(all.len(), 4);
    assert_eq!(all[3].display, "/v/c");
    assert_eq!((all[3].epoch, all[3].actor.as_str()), (0, ""));
    let mut newest = sort_items(&here, ListOrder::Time);
    assert_eq!(newest[0].display, "b");
    for item in &mut newest {
        item.stamp = "stamp".into();
    }
    assert_eq!(
        table_report(&PLAIN, &rows, &vec![false, false], &newest),
        "FILE  REV  TYPE     WHEN          EDIT  USER  \nb       1  diff     stamp         emac  tester\na       1  access   stamp         emac  tester\na       1  backup   stamp         emac  tester\n"
    );
    assert_eq!(
        group_report(&PLAIN, &rows, &vec![false, false], &newest),
        "FILE: a\n    1  access   stamp         emac  tester\n    1  backup   stamp         emac  tester\n\nFILE: b\n    1  diff     stamp         emac  tester\n\n"
    );
}

#[test]
fn searches_show_the_lines_that_match() {
    assert_eq!(
        search_terms(&words(&["x"])),
        Ok((None, "x".to_string()))
    );
    assert_eq!(
        search_terms(&words(&["f", "x"])),
        Ok((Some("f".to_string()), "x".to_string()))
    );
    assert_eq!(search_terms(&Vec::new()).unwrap_err().message, USAGE);
    assert!(search_terms(&words(&[""])).is_err());
    let rows = vec![revision("/w/b", 1, 1), revision("/w/a", 1, 1)];
    let rows = search_rows(&rows, None, "");
    assert_eq!(rows[0].access.path, "/w/a");
    let texts = vec![
        RevisionTexts {
            backup: "one\ntwo\n".into(),
            diff: Some("+two\n".into()),
        },
        RevisionTexts {
            backup: "three".into(),
            diff: None,
        },
    ];
    assert_eq!(
        search_report(&PLAIN, &rows, &texts, "two"),
        "FILE: /w/a\n  rev 1 backup:\n    2: two\n  rev 1 diff:\n    1: +two\n\n"
    );
    assert!(search_report(&COLOUR, &rows, &texts, "two").contains("\u{1b}[32mtwo\u{1b}[0m"));
}

#[test]
fn comparisons_name_their_sides() {
    assert_eq!(check_diff(&words(&["a"])).unwrap_err().message, DIFF_USAGE);
    let rows = vec![revision("/w/a", 1, 1), revision("/w/a", 2, 1)];
    assert_eq!(choose_compared("2", &rows), Ok(1));
    assert_eq!(choose_compared("x", &rows).unwrap_err().message, DIFF_USAGE);
    assert_eq!(
        choose_compared("9", &rows).unwrap_err().message,
        "Revision not found\n"
    );
    assert_eq!(comparison_file("left", 7, "a"), ".diff-left-7-a");
    let text = "--- l\n+++ r\n@@ -1 +1 @@\n-a\n+b\n";
    assert!(sides_can_be_named(text, "/w/a@1"));
    assert_eq!(
        name_sides(text, "/w/a@1", "/w/a@2"),
        "--- /w/a@1\n+++ /w/a@2\n@@ -1 +1 @@\n-a\n+b\n"
    );
    assert_eq!(
        comparison_report(&PLAIN, text, "/w/a", 1, None),
        "--- /w/a@1\n+++ /w/a@live\n@@ -1 +1 @@\n-a\n+b\n"
    );
    // The second line is looked for from where the first one ended before it was named.
    assert_eq!(
        name_sides("--- /tmp/left\n+++ /tmp/right\n-a\n", "/w/a@1", "/w/a@2"),
        "--- /w/a@1\n+++ /tmp/right\n-a\n"
    );
    assert!(comparison_failed(Some(2)));
    assert!(!comparison_failed(Some(1)));
    assert!(!comparison_failed(None));
}
