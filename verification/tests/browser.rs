use std::collections::BTreeMap;

use bedit::browse::{
    event_kind, list_files, list_history, make_timeline, make_tree, sort_newest_first, EventKind,
    MainTab, SelectedTarget,
};
use bedit::clock::format_timestamp;
use bedit::drawing::{
    compose, draw_at, outer_sizes, panel_sizes, Area, Border, Content, Limit, Widget, Wrapping,
};
use bedit::failure::{Failure, FailureKind};
use bedit::header::{layout_class, Colour, LayoutClass, PREFERRED_SLOGAN_GAP};
use bedit::mutation::CreatedRevision;
use bedit::screen::{
    active, activity_row, diff_title, footer, inspect_lines, overlay_text_with_width,
    render_search_row, search_results_text, style_diff_line, timeline_row, Style,
};
use bedit::store::{AccessRecord, Revision};
use bedit::tui::{
    before_label, compared_label, comparison_uses_backup, interrupts, keep_visible, restore_label,
    revision_label, search_contents, search_result_line, unified_diff, After, App, Key, Mode, Need, Panel, Reply,
    RevisionContent, Task,
};
use ratatui::layout::{Constraint, Layout, Rect};

const NOW: u64 = 1_700_000_000;
const CWD: &str = "/base/elsewhere";

/// A repository and the live files beside it, held in memory.
struct Fake {
    all: Vec<Revision>,
    backups: BTreeMap<(String, u64), Vec<u8>>,
    contents: BTreeMap<(String, u64), Vec<u8>>,
    live: BTreeMap<String, Vec<u8>>,
    actor: String,
    /// The number of revisions whose content cannot be read.
    unreadable: Option<u64>,
}

fn run_diff(left: &[u8], right: &[u8]) -> (Option<i32>, Vec<u8>) {
    if left == right {
        return (Some(0), Vec::new());
    }
    let mut out = "--- /tmp/a\n+++ /tmp/b\n@@ -1 +1 @@\n".to_string();
    for (sign, bytes) in [('-', left), ('+', right)] {
        for line in std::str::from_utf8(bytes).unwrap().lines() {
            out.push(sign);
            out.push_str(line);
            out.push('\n');
        }
    }
    (Some(1), out.into_bytes())
}

impl Fake {
    fn create(&mut self, path: &str, editor: &str, before: &[u8], after: &[u8]) -> u64 {
        let number = 1 + self
            .all
            .iter()
            .filter(|r| r.access.path == path)
            .map(|r| r.number)
            .max()
            .unwrap_or(0);
        let (directory, leaf) = path.rsplit_once('/').unwrap();
        let changed = before != after;
        self.all.push(Revision {
            key: directory[1..].replace('/', "_"),
            leaf: leaf.into(),
            number,
            access: AccessRecord {
                epoch: NOW - 5,
                stamp: "2023-11-14 22:13:15 +0000".into(),
                path: path.into(),
                editor: editor.into(),
            },
            backup: format!("/base/store/backups/{leaf}-{number}"),
            diff: if changed {
                Some(format!("/base/store/edits/{leaf}-{number}"))
            } else {
                None
            },
            tag: None,
            actor: self.actor.clone(),
        });
        self.all
            .sort_by(|a, b| (&a.access.path, a.number).cmp(&(&b.access.path, b.number)));
        let place = (path.to_string(), number);
        let kept = if changed { before } else { after };
        self.backups.insert(place.clone(), kept.to_vec());
        self.contents.insert(place, after.to_vec());
        number
    }

    fn place(revision: &Revision) -> (String, u64) {
        (revision.access.path.clone(), revision.number)
    }

    fn backup(&self, revision: &Revision) -> Vec<u8> {
        self.backups[&Self::place(revision)].clone()
    }

    fn render(&self, revision: &Revision) -> Vec<u8> {
        self.contents[&Self::place(revision)].clone()
    }

    fn kind(&self, revision: &Revision) -> EventKind {
        event_kind(revision.diff.is_some(), self.backup(revision).is_empty())
    }

    fn compare(&self, left: &[u8], right: &[u8], left_label: &str, right_label: &str) -> Reply {
        let (code, stdout) = run_diff(left, right);
        match unified_diff(code, &stdout, left_label, right_label) {
            Ok(text) => Reply::Diff(text),
            Err(failure) => Reply::Failed(failure),
        }
    }

    fn answer(&mut self, need: &Need) -> Reply {
        match need {
            Need::Nothing => panic!("nothing to answer"),
            Need::EventDiff(r) => self.compare(
                &self.backup(r),
                &self.render(r),
                &before_label(r.number),
                &revision_label(r.number),
            ),
            Need::Comparison {
                left,
                right,
                compare_current,
            } => {
                let new = if *compare_current {
                    self.live
                        .get(&right.access.path)
                        .cloned()
                        .unwrap_or_default()
                } else {
                    self.render(right)
                };
                let old = self.render(left);
                let stored =
                    comparison_uses_backup(*compare_current, &old, &new, left.diff.is_some());
                let old = if stored { self.backup(left) } else { old };
                self.compare(
                    &old,
                    &new,
                    &revision_label(left.number),
                    &compared_label(*compare_current, right.number),
                )
            }
            Need::ComparedKind(r) | Need::HitKind(r) => Reply::Kind(self.kind(r)),
            Need::FindHit | Need::SearchAll { .. } | Need::FilterActivity => {
                Reply::Revisions(self.all.clone())
            }
            Need::Rescan => Reply::Scan {
                all: self.all.clone(),
                kinds: Ok(self.all.iter().map(|r| self.kind(r)).collect()),
            },
            Need::Contents { revisions, .. } => Reply::Contents(
                revisions
                    .iter()
                    .map(|r| RevisionContent {
                        rendered: match self.unreadable == Some(r.number) {
                            true => Err(Failure::new(FailureKind::Other, "gone")),
                            false => Ok(self.render(r)),
                        },
                        kind: Ok(self.kind(r)),
                    })
                    .collect(),
            ),
            Need::Inspect(r) => Reply::Bytes(self.render(r)),
            Need::Tag { target, text } => {
                if let Some(target) = target {
                    let place = Self::place(target);
                    for revision in &mut self.all {
                        if Self::place(revision) == place {
                            revision.tag = Some(text.clone());
                        }
                    }
                }
                Reply::Done
            }
            Need::Restore { revision, rendered } => {
                let path = revision.access.path.clone();
                let live = self.live[&path].clone();
                let target = if *rendered {
                    self.render(revision)
                } else {
                    self.backup(revision)
                };
                self.live.insert(path.clone(), target.clone());
                let number = self.create(&path, restore_label(*rendered), &live, &target);
                Reply::Restored(CreatedRevision {
                    number,
                    backup_only_fallback: false,
                    mirror_warning: None,
                })
            }
        }
    }

    fn finish(&mut self, app: &mut App, task: Task) {
        let mut task = task;
        while task.need != Need::Nothing {
            let reply = self.answer(&task.need);
            task = app.resume(task, reply, NOW, CWD);
        }
    }

    fn settle(&mut self, app: &mut App, need: Need) {
        self.finish(
            app,
            Task {
                need,
                after: After::Done,
            },
        );
    }

    fn press(&mut self, app: &mut App, key: Key) {
        let task = app.handle_key(key, NOW, CWD);
        self.finish(app, task);
    }

    fn load(&mut self) -> App {
        let mut app = App::load(&self.all);
        self.settle(&mut app, Need::Rescan);
        app
    }
}

fn empty(actor: &str) -> Fake {
    Fake {
        all: Vec::new(),
        backups: BTreeMap::new(),
        contents: BTreeMap::new(),
        live: BTreeMap::new(),
        actor: actor.into(),
        unreadable: None,
    }
}

fn fixture() -> Fake {
    let mut store = empty("tester");
    let a = "/base/work/a.txt";
    let b = "/base/work/b.txt";
    store.live.insert(a.into(), b"three\n".to_vec());
    store.live.insert(b.into(), b"beta\n".to_vec());
    store.create(a, "vi", b"one\n", b"two\n");
    store.create(a, "vi", b"two\n", b"three\n");
    store.create(b, "nano", b"alpha\n", b"beta\n");
    store
}

fn overlay_text(app: &App) -> String {
    overlay_text_with_width(app, 110, NOW)
}

#[test]
fn the_selected_result_stands_on_its_line() {
    let mut store = fixture();
    store.create("/base/work/b.txt", "vi", b"beta\n", b"beta two\n");
    let mut app = store.load();
    app.input = "t".into();
    store.settle(&mut app, Need::SearchAll { incremental: false });
    assert!(app.search_results.len() >= 3);
    let mut previous = 2;
    for index in 0..app.search_results.len() {
        app.search_index = index;
        let line = search_result_line(&app.search_results, index);
        let text = search_results_text(&app, 60, NOW);
        let shown: Vec<&str> = text.split('\n').collect();
        assert!(shown[line].starts_with('▶'));
        assert!(shown[line].contains(&format!("rev {}", app.search_results[index].revision)));
        assert_eq!(shown.iter().filter(|l| l.starts_with('▶')).count(), 1);
        assert!(line > previous);
        previous = line;
    }
    assert_eq!(search_result_line(&app.search_results, 0), 3);
}

#[test]
fn a_refresh_shows_the_repository_and_keeps_what_is_selected() {
    let mut store = fixture();
    let mut app = store.load();
    app.file_index = 1;
    app.timeline_index = 9;
    store.create("/base/work/aa.txt", "vi", b"", b"new\n");
    store.create("/base/work/b.txt", "vi", b"beta\n", b"beta\n");
    store.settle(&mut app, Need::Rescan);
    assert_eq!(
        app.files,
        vec!["/base/work/a.txt", "/base/work/aa.txt", "/base/work/b.txt"]
    );
    assert_eq!(app.selected_file().map(String::as_str), Some("/base/work/b.txt"));
    let numbers: Vec<u64> = app.revisions.iter().map(|r| r.number).collect();
    assert_eq!(numbers, vec![2, 1]);
    assert_eq!(app.activity.len(), 5);
    let kinds: Vec<(String, u64, EventKind)> = app
        .timeline
        .iter()
        .map(|e| (e.revision.leaf.clone(), e.revision.number, e.kind))
        .collect();
    assert!(kinds.contains(&("aa.txt".to_string(), 1, EventKind::Create)));
    assert!(kinds.contains(&("b.txt".to_string(), 2, EventKind::Access)));
    assert!(kinds.contains(&("a.txt".to_string(), 2, EventKind::Edit)));
    assert!(app
        .timeline
        .windows(2)
        .all(|e| e[0].revision.number >= e[1].revision.number));
    assert_eq!(app.timeline_index, 4);
    store.all.retain(|r| r.access.path != "/base/work/b.txt");
    store.settle(&mut app, Need::Rescan);
    assert_eq!(app.selected_file().map(String::as_str), Some("/base/work/a.txt"));
}

#[test]
fn selecting_file_updates_history() {
    let mut store = fixture();
    let mut app = store.load();
    app.main_tab = MainTab::ReposFiles;
    assert_eq!(app.revisions.len(), 2);
    let need = app.move_down();
    store.settle(&mut app, need);
    assert!(app.selected_file().unwrap().ends_with("/b.txt"));
    assert_eq!(app.revisions.len(), 1);
}

#[test]
fn repository_tree_collapses_and_expands_without_exposing_store_files() {
    let mut store = fixture();
    let mut app = store.load();
    app.tree_index = 0;
    let directory = app.selected_tree().unwrap().path.clone();
    app.toggle_tree(false, NOW, CWD);
    assert_eq!(app.tree.iter().filter(|node| !node.directory).count(), 0);
    assert!(!app
        .tree
        .iter()
        .any(|node| node.path.starts_with("/base/store")));
    app.toggle_tree(true, NOW, CWD);
    assert!(app.tree.iter().any(|node| !node.directory));
    assert!(app.expanded.contains(&directory));
}

#[test]
fn revision_navigation_and_diff_marking_are_immediate() {
    let mut store = fixture();
    let mut app = store.load();
    app.main_tab = MainTab::ReposFiles;
    let need = app.update_diff();
    store.settle(&mut app, need);
    app.panel = Panel::History;
    assert!(app.diff.contains("current"));
    let need = app.mark_diff();
    store.settle(&mut app, need);
    let need = app.move_down();
    store.settle(&mut app, need);
    let need = app.mark_diff();
    store.settle(&mut app, need);
    assert!(!app.compare_current);
    assert!(app.diff.contains("rev 2"));
}

#[test]
fn search_activity_inspection_and_tag_use_store() {
    let mut store = fixture();
    let mut app = store.load();
    app.input = "two".into();
    let need = app.search();
    store.settle(&mut app, need);
    assert!(!app.search_results.is_empty());
    let task = app.jump_search();
    store.finish(&mut app, task);
    assert_eq!(app.mode, Mode::Inspect);
    app.mode = Mode::Main;
    app.input = "checkpoint".into();
    let need = app.tag();
    store.settle(&mut app, need);
    assert!(store
        .all
        .iter()
        .any(|r| r.tag.as_deref() == Some("checkpoint")));
    app.mode = Mode::Activity;
    let task = app.jump_activity();
    store.finish(&mut app, task);
    assert_eq!(app.panel, Panel::History);
}

#[test]
fn restore_confirmation_cancel_and_success_keep_app_usable() {
    let mut store = fixture();
    let mut app = store.load();
    let path = app.selected_file().unwrap().clone();
    let before = store.live[&path].clone();
    app.mode = Mode::ConfirmRestore;
    app.mode = Mode::Main;
    assert_eq!(store.live[&path], before);
    app.restore_rendered = true;
    app.mode = Mode::ConfirmRestore;
    let need = app.restore();
    store.settle(&mut app, need);
    assert_eq!(app.mode, Mode::Main);
    assert!(app.status.contains("Restored revision"));
    assert!(app.revisions.len() >= 3);
}

#[test]
fn action_failure_returns_to_main_with_status() {
    let mut store = fixture();
    let mut app = store.load();
    app.mode = Mode::ConfirmRestore;
    app.record_error(&Failure::new(FailureKind::Other, "permission denied"));
    assert_eq!(app.mode, Mode::Main);
    assert_eq!(app.status, "Error: permission denied");
    assert!(!app.quit);
}

#[test]
fn search_groups_rendered_content_and_applies_metadata_filters() {
    let mut store = fixture();
    let mut app = store.load();
    app.input = "three".into();
    app.filters.editor = "vi".into();
    app.filters.path = "a.txt".into();
    let need = app.search();
    store.settle(&mut app, need);
    assert_eq!(app.search_results.len(), 1);
    let hit = &app.search_results[0];
    assert_eq!(hit.matches, 1);
    assert_eq!(hit.editor, "vi");
    assert!(!hit.actor.is_empty());
    assert!(overlay_text(&app).contains("1 match"));
    assert!(overlay_text(&app).contains("⟦three⟧"));
    app.filters.editor = "nano".into();
    let need = app.search();
    store.settle(&mut app, need);
    assert!(app.search_results.is_empty());
    app.filters.editor.clear();
    app.filters.path.clear();
    app.filters.tag.clear();
    app.filters.date = store.all[0].access.stamp.chars().take(10).collect();
    let need = app.search();
    store.settle(&mut app, need);
    assert!(!app.search_results.is_empty());
    app.clear_search();
    assert!(app.search_results.is_empty());
    assert!(app.input.is_empty());
    assert_eq!(app.search_index, 0);
}

#[test]
fn search_navigation_jump_and_back_preserve_results_and_viewport() {
    let mut store = fixture();
    let mut app = store.load();
    app.input = "t".into();
    let need = app.search();
    store.settle(&mut app, need);
    assert!(app.search_results.len() >= 2);
    let need = app.move_down();
    store.settle(&mut app, need);
    let selected = app.search_results[app.search_index].revision;
    let index = app.search_index;
    let task = app.jump_search();
    store.finish(&mut app, task);
    assert_eq!(app.mode, Mode::Inspect);
    assert_eq!(app.selected_revision().unwrap().number, selected);
    app.back();
    assert_eq!(app.mode, Mode::SearchResults);
    assert_eq!(app.search_index, index);
}

#[test]
fn timestamps_and_metadata_rows_adapt_to_width() {
    let store = fixture();
    let revision = store.all[0].clone();
    let recent = format_timestamp(revision.access.epoch, revision.access.epoch + 1);
    assert_eq!(recent.len(), 8);
    let yesterday = format_timestamp(revision.access.epoch, revision.access.epoch + 86_400);
    assert!(yesterday.starts_with("Yesterday "));
    let wide = timeline_row(&revision, true, 100, NOW);
    assert!(wide.contains(&revision.access.editor));
    assert!(wide.contains(&revision.actor));
    let narrow = timeline_row(&revision, true, 32, NOW);
    assert!(narrow.len() <= 32);
}

#[test]
fn tags_are_prominent_searchable_and_refresh_immediately() {
    let mut store = fixture();
    let mut app = store.load();
    app.input = "parser working".into();
    let need = app.tag();
    store.settle(&mut app, need);
    assert!(
        timeline_row(app.selected_revision().unwrap(), true, 100, NOW).contains("★ parser working")
    );
    app.input = "parser working".into();
    let need = app.search();
    store.settle(&mut app, need);
    assert_eq!(app.search_results.len(), 1);
    assert!(app.search_results[0].preview.contains("⟦parser working⟧"));
    app.input = "three".into();
    app.filters.tag = "parser".into();
    let need = app.search();
    store.settle(&mut app, need);
    assert_eq!(app.search_results.len(), 1);
}

#[test]
fn activity_is_newest_first_includes_metadata_and_jumps() {
    let mut store = fixture();
    let mut app = store.load();
    assert!(app
        .activity
        .windows(2)
        .all(|pair| pair[0].access.epoch >= pair[1].access.epoch));
    let row = activity_row(&app.activity[0], 200, NOW);
    assert!(row.contains(&app.activity[0].access.editor));
    assert!(row.contains(&app.activity[0].actor));
    let task = app.jump_activity();
    store.finish(&mut app, task);
    assert_eq!(
        app.selected_revision().unwrap().number,
        app.activity[0].number
    );
    let actor = app.activity[0].actor.clone();
    app.filters.actor = actor;
    app.filter_activity(&store.all, NOW);
    assert!(app
        .activity
        .iter()
        .all(|revision| app.filters.matches(revision, NOW)));
}

#[test]
fn stored_sudo_actor_is_used_by_timeline_activity_search_and_inspection() {
    let mut store = empty("faf");
    let path = "/tmp/long-path-that-must-not-push-stored-actor-out-of-the-activity-row/work/a.txt";
    store.live.insert(path.into(), b"after\n".to_vec());
    store.create(path, "vi", b"before\n", b"after\n");

    let mut app = store.load();
    let revision = app.selected_revision().unwrap();
    assert_eq!(revision.actor, "faf");
    assert!(timeline_row(revision, true, 100, NOW).contains("faf"));
    assert!(activity_row(&app.activity[0], 100, NOW).contains("faf"));
    app.input = "after".into();
    let need = app.search();
    store.settle(&mut app, need);
    assert_eq!(app.search_results[0].actor, "faf");
    app.mode = Mode::Inspect;
    assert!(overlay_text(&app).contains("faf"));
}

#[test]
fn diff_hunks_pages_and_comparisons_preserve_state() {
    let mut store = fixture();
    let mut app = store.load();
    app.diff = "@@ -1 +1 @@\n-a\n+b\nctx\n@@ -20 +20 @@\n-c\n+d\n".into();
    app.next_hunk();
    assert_eq!(app.diff_scroll, 4);
    app.previous_hunk();
    assert_eq!(app.diff_scroll, 0);
    app.page_down();
    assert!(app.diff_scroll > 0);
    let need = app.mark_diff();
    store.settle(&mut app, need);
    let marked = app.marked_revision;
    let need = app.move_down();
    store.settle(&mut app, need);
    let need = app.mark_diff();
    store.settle(&mut app, need);
    assert_eq!(app.marked_revision, marked);
    assert!(!app.compare_current);
    assert!(app.diff_header().contains('→'));
    let need = app.compare_to_current();
    store.settle(&mut app, need);
    assert!(app.diff_header().ends_with("current"));
}

fn on_black(colour: Colour) -> Style {
    Style {
        fg: Some(colour),
        bg: Some(Colour::Black),
        bold: false,
    }
}

#[test]
fn diff_lines_use_semantic_foregrounds_on_black() {
    assert_eq!(style_diff_line(" context"), on_black(Colour::White));
    assert_eq!(style_diff_line("+added"), on_black(Colour::Green));
    assert_eq!(style_diff_line("-removed"), on_black(Colour::Red));
    assert_eq!(style_diff_line("@@ -1 +1 @@"), on_black(Colour::Cyan));
    assert_eq!(style_diff_line("--- before"), on_black(Colour::Yellow));
    assert_eq!(style_diff_line("+++ after"), on_black(Colour::Yellow));
    assert_eq!(
        style_diff_line("not + an addition"),
        on_black(Colour::White)
    );
}

#[test]
fn files_and_history_active_styles_remain_unchanged() {
    let mut store = fixture();
    let mut app = store.load();
    let cyan = Style {
        fg: Some(Colour::Cyan),
        bg: None,
        bold: false,
    };
    app.panel = Panel::Files;
    assert_eq!(active(&app, Panel::Files), cyan);
    app.panel = Panel::History;
    assert_eq!(active(&app, Panel::History), cyan);
}

#[test]
fn inspection_has_metadata_and_returns_to_preserved_viewport() {
    let mut store = fixture();
    let mut app = store.load();
    app.revision_index = 1;
    app.diff_scroll = 7;
    let need = app.inspect_selected();
    store.settle(&mut app, need);
    assert_eq!(app.inspect_scroll, 0);
    let text = overlay_text(&app);
    assert!(text.contains("Editor:"));
    assert!(text.contains("Actor:"));
    app.inspect_scroll = 9;
    app.back();
    assert_eq!(app.mode, Mode::Main);
    assert_eq!(app.revision_index, 1);
    assert_eq!(app.diff_scroll, 7);
}

#[test]
fn restore_and_goto_explain_safety_and_select_new_revision() {
    let mut store = fixture();
    let mut app = store.load();
    app.restore_rendered = true;
    app.mode = Mode::ConfirmRestore;
    let prompt = overlay_text(&app);
    assert!(prompt.contains("NEW revision"));
    assert!(prompt.contains("preserved automatically"));
    let before = app.revisions.len();
    let need = app.restore();
    store.settle(&mut app, need);
    assert_eq!(app.revisions.len(), before + 1);
    assert_eq!(app.revision_index, 0);
}

#[test]
fn tree_recent_counts_and_viewports_persist() {
    let mut store = fixture();
    let mut app = store.load();
    assert!(app
        .tree
        .iter()
        .any(|node| !node.directory && node.label.contains("today")));
    app.tree_offset = 3;
    app.panel = Panel::History;
    app.panel = Panel::Files;
    assert_eq!(app.tree_offset, 3);
    let expanded = app.expanded.clone();
    app.mode = Mode::Help;
    app.back();
    assert_eq!(app.expanded, expanded);
}

#[test]
fn main_tabs_default_to_timeline_and_cycle_without_losing_state() {
    let mut store = fixture();
    let mut app = store.load();
    assert_eq!(app.main_tab, MainTab::Timeline);
    app.activity_index = 1;
    let need = app.next_tab();
    store.settle(&mut app, need);
    assert_eq!(app.main_tab, MainTab::ReposFiles);
    app.tree_index = 2;
    let need = app.next_tab();
    store.settle(&mut app, need);
    assert_eq!(app.main_tab, MainTab::Search);
    app.input = "three".into();
    let need = app.previous_tab();
    store.settle(&mut app, need);
    let need = app.previous_tab();
    store.settle(&mut app, need);
    assert_eq!(app.main_tab, MainTab::Timeline);
    assert_eq!(app.activity_index, 1);
    let need = app.next_tab();
    store.settle(&mut app, need);
    assert_eq!(app.tree_index, 2);
    let need = app.next_tab();
    store.settle(&mut app, need);
    assert_eq!(app.input, "three");
}

#[test]
fn selected_current_revision_falls_back_to_actual_stored_change_body() {
    let mut store = fixture();
    let mut app = store.load();
    app.main_tab = MainTab::ReposFiles;
    app.revision_index = 0;
    let need = app.update_diff();
    store.settle(&mut app, need);
    assert!(app.diff.contains("@@"), "{}", app.diff);
    assert!(app.diff.contains("-two"), "{}", app.diff);
    assert!(app.diff.contains("+three"), "{}", app.diff);
}

#[test]
fn timeline_classifies_and_filters_events_and_drives_shared_diff() {
    let mut store = fixture();
    let mut app = store.load();
    assert!(app
        .timeline
        .iter()
        .all(|event| event.kind == EventKind::Edit));
    assert!(app
        .timeline
        .windows(2)
        .all(|pair| { pair[0].revision.access.epoch >= pair[1].revision.access.epoch }));
    app.timeline_changes_only = true;
    assert!(app
        .visible_timeline()
        .iter()
        .all(|event| event.kind.is_change()));
    let need = app.select_timeline();
    store.settle(&mut app, need);
    assert!(matches!(
        app.diff_context.target,
        SelectedTarget::Timeline { .. }
    ));
    assert!(app.diff.contains("@@"));
}

#[test]
fn timeline_truthfully_classifies_create_edit_and_access() {
    let mut store = fixture();
    store.create("/base/work/b.txt", "nano", b"beta\n", b"beta\n");
    store.create("/base/work/created.txt", "vi", b"", b"born\n");
    let mut app = store.load();
    assert!(app
        .timeline
        .iter()
        .any(|event| event.kind == EventKind::Create));
    assert!(app
        .timeline
        .iter()
        .any(|event| event.kind == EventKind::Edit));
    let access_index = app
        .visible_timeline()
        .iter()
        .position(|event| event.kind == EventKind::Access)
        .unwrap();
    app.timeline_index = access_index;
    let need = app.select_timeline();
    store.settle(&mut app, need);
    assert_eq!(app.diff, "No content change — file accessed only");
}

#[test]
fn search_is_a_tab_and_selection_drives_diff_without_popup() {
    let mut store = fixture();
    let mut app = store.load();
    app.main_tab = MainTab::Search;
    app.input = "three".into();
    let need = app.search();
    store.settle(&mut app, need);
    assert_eq!(app.main_tab, MainTab::Search);
    assert_eq!(app.mode, Mode::SearchResults);
    assert!(!app.search_results.is_empty());
    let need = app.select_search_result();
    store.settle(&mut app, need);
    assert!(matches!(
        app.diff_context.target,
        SelectedTarget::Search { .. }
    ));
    assert!(app.diff.contains("@@"));
}

#[test]
fn search_matches_filename_metadata_and_handles_no_results() {
    let mut store = fixture();
    let mut app = store.load();
    app.input = "b.txt".into();
    let need = app.search();
    store.settle(&mut app, need);
    assert!(!app.search_results.is_empty());
    assert!(app
        .search_results
        .iter()
        .all(|result| result.path.ends_with("/b.txt")));
    assert!(app.search_results[0].preview.starts_with("filename:"));
    app.input = "definitely-not-present".into();
    let need = app.search();
    store.settle(&mut app, need);
    assert!(app.search_results.is_empty());
    assert_eq!(app.diff, "No search results");
}

#[test]
fn search_folds_letters_beyond_ascii() {
    let mut store = empty("ÉMILE");
    store.live.insert("/base/work/x".into(), b"x\n".to_vec());
    store.create("/base/work/x", "vi", b"", b"x\n");
    let mut app = store.load();
    app.input = "émile".into();
    let need = app.search();
    store.settle(&mut app, need);
    assert_eq!(app.search_results.len(), 1);
    assert_eq!(app.search_results[0].preview, "actor: ÉMILE");
}

#[test]
fn common_inspect_from_every_tab_contains_content_and_the_shared_real_diff() {
    let mut store = fixture();
    let mut app = store.load();
    for tab in [MainTab::Timeline, MainTab::ReposFiles] {
        app.main_tab = tab;
        if tab == MainTab::ReposFiles {
            app.file_index = app
                .files
                .iter()
                .position(|path| path.ends_with("/a.txt"))
                .unwrap();
            app.revision_index = 0;
            store.settle(&mut app, Need::Rescan);
        } else {
            app.timeline_index = app
                .timeline
                .iter()
                .position(|event| event.revision.leaf == "a.txt" && event.revision.number == 2)
                .unwrap();
            let need = app.select_timeline();
            store.settle(&mut app, need);
        }
        let shared_diff = app.diff.clone();
        let need = app.inspect_selected();
        store.settle(&mut app, need);
        let inspect = overlay_text(&app);
        assert_eq!(app.mode, Mode::Inspect);
        assert!(inspect.contains("Editor:"));
        assert!(inspect.contains("Actor:"));
        assert!(inspect.contains("DIFF"));
        assert!(inspect.contains("@@"));
        assert!(inspect.contains("-two"));
        assert!(inspect.contains("+three"));
        assert!(inspect.ends_with(&shared_diff));
        app.back();
    }
    app.input = "three".into();
    let need = app.search();
    store.settle(&mut app, need);
    let shared_diff = app.diff.clone();
    let need = app.inspect_selected();
    store.settle(&mut app, need);
    assert_eq!(app.mode, Mode::Inspect);
    assert!(overlay_text(&app).ends_with(&shared_diff));
    let need = app.move_down();
    store.settle(&mut app, need);
    assert_eq!(app.inspect_scroll, 1);
}

#[test]
fn search_printable_keys_are_incremental_and_enter_is_the_only_activation() {
    let mut store = fixture();
    let mut app = store.load();
    app.main_tab = MainTab::Search;
    app.mode = Mode::SearchInput;
    for key in ['o', 'n', 'e'] {
        store.press(&mut app, Key::Char(key));
        assert_eq!(app.mode, Mode::SearchInput);
    }
    assert_eq!(app.input, "one");
    assert_ne!(app.mode, Mode::Inspect);
    assert_eq!(app.diff_scroll, 0);

    app.input.clear();
    store.press(&mut app, Key::Char('t'));
    let broad = app.search_results.len();
    store.press(&mut app, Key::Char('w'));
    assert!(app.search_results.len() <= broad);
    assert!(render_search_row(&app.search_results[0], 100, NOW).contains("EDIT"));
    store.press(&mut app, Key::Enter);
    assert_eq!(app.mode, Mode::Inspect);
}

#[test]
fn inspect_has_no_editor_or_live_file_mutation_key() {
    let mut store = fixture();
    let mut app = store.load();
    let need = app.inspect_selected();
    store.settle(&mut app, need);
    let path = app.selected_item.as_ref().unwrap().revision.access.path.clone();
    let before = store.live[&path].clone();
    for key in ['o', 'e'] {
        store.press(&mut app, Key::Char(key));
    }
    assert_eq!(app.mode, Mode::Inspect);
    assert_eq!(store.live[&path], before);
    assert!(!overlay_text(&app).contains("open protected editor"));
}

#[test]
fn inspect_access_message_and_diff_semantic_colours_are_shared() {
    let mut store = fixture();
    store.create("/base/work/access.txt", "vi", b"same\n", b"same\n");
    let mut app = store.load();
    let index = app
        .visible_timeline()
        .iter()
        .position(|event| event.kind == EventKind::Access)
        .unwrap();
    app.timeline_index = index;
    let need = app.select_timeline();
    store.settle(&mut app, need);
    let need = app.inspect_selected();
    store.settle(&mut app, need);
    assert!(overlay_text(&app).contains("No content change — file accessed only"));
    app.diff = "--- old\n+++ new\n@@ -1 +1 @@\n-removed\n+added".into();
    let lines = inspect_lines(&app, NOW);
    let colour = |text: &str| lines.iter().find(|line| line.text == text).unwrap().style.fg;
    assert_eq!(colour("--- old"), Some(Colour::Yellow));
    assert_eq!(colour("@@ -1 +1 @@"), Some(Colour::Cyan));
    assert_eq!(colour("-removed"), Some(Colour::Red));
    assert_eq!(colour("+added"), Some(Colour::Green));
}

fn screen(width: u16, height: u16) -> Area {
    Area {
        x: 0,
        y: 0,
        width,
        height,
    }
}

#[test]
fn small_terminal_renders_recovery_message_without_panicking() {
    let mut store = fixture();
    let app = store.load();
    for (width, height) in [(37, 12), (40, 8)] {
        let widgets = draw_at(&app, screen(width, height), 0, NOW);
        assert_eq!(widgets.len(), 1);
        match &widgets[0] {
            Widget::Paragraph {
                content: Content::Text(text),
                wrapping: Wrapping::WrapTrimmed,
                ..
            } => assert!(text.contains("Terminal too small")),
            _ => panic!("no recovery message"),
        }
    }
}

fn area_of(widget: &Widget) -> Area {
    match widget {
        Widget::Clear(area) => *area,
        Widget::Paragraph { area, .. } => *area,
        Widget::List { area, .. } => *area,
    }
}

#[test]
fn responsive_layout_has_wide_medium_minimum_and_recovery_classes() {
    assert_eq!(layout_class(100, 30), LayoutClass::Wide);
    assert_eq!(layout_class(60, 18), LayoutClass::Medium);
    assert_eq!(layout_class(42, 12), LayoutClass::Minimum);
    assert_eq!(layout_class(30, 7), LayoutClass::TooSmall);
    let mut store = fixture();
    let mut app = store.load();
    for tab in [MainTab::Timeline, MainTab::ReposFiles, MainTab::Search] {
        app.main_tab = tab;
        for (width, height) in [(100, 30), (60, 18), (42, 12), (30, 7)] {
            for widget in draw_at(&app, screen(width, height), 0, NOW) {
                let area = area_of(&widget);
                assert!(area.x + area.width <= width);
                assert!(area.y + area.height <= height);
            }
        }
    }
}

fn title_of(widget: &Widget) -> Option<&Border> {
    match widget {
        Widget::Clear(_) => None,
        Widget::Paragraph { border, .. } => border.as_ref(),
        Widget::List { border, .. } => border.as_ref(),
    }
}

#[test]
fn tab_row_and_fixed_header_render_without_layout_jump() {
    let mut store = fixture();
    let app = store.load();
    let mut places = Vec::new();
    for elapsed in [0, 2_000_000_000, 6_000_000_000] {
        let widgets = draw_at(&app, screen(110, 30), elapsed, NOW);
        let tabs: String = widgets
            .iter()
            .filter_map(|widget| match widget {
                Widget::Paragraph {
                    content: Content::Pieces(pieces),
                    ..
                } => Some(pieces.iter().map(|p| p.text.clone()).collect::<String>()),
                _ => None,
            })
            .collect();
        assert!(tabs.contains("Timeline"));
        assert!(tabs.contains("Repos/Files"));
        assert!(tabs.contains("Search"));
        assert!(widgets
            .iter()
            .filter_map(title_of)
            .any(|border| border.title.contains("DIFF")));
        places.push(widgets.iter().map(area_of).collect::<Vec<Area>>());
    }
    assert_eq!(places[0], places[1]);
    assert_eq!(places[1], places[2]);
}

#[test]
fn header_slogan_blank_separator_and_black_tabs_render_as_specified() {
    let mut store = fixture();
    let app = store.load();
    for (width, height) in [(110, 30), (60, 20), (42, 16)] {
        let widgets = draw_at(&app, screen(width, height), 8_000_000_000, NOW);
        assert!(widgets
            .iter()
            .map(area_of)
            .all(|area| area.y > 5 || area.y + area.height <= 5));
        assert!(widgets.iter().any(|widget| match widget {
            Widget::Paragraph {
                content: Content::Pieces(pieces),
                area,
                ..
            } =>
                area.y == 6
                    && pieces
                        .iter()
                        .any(|piece| piece.style.fg == Some(Colour::Black)),
            _ => false,
        }));
    }
    let slogan = |elapsed: u64| {
        let widgets = draw_at(&app, screen(110, 30), elapsed, NOW);
        match widgets.into_iter().next() {
            Some(Widget::Paragraph {
                content: Content::Header(rows),
                ..
            }) => {
                let row = &rows[2];
                let text: String = row.iter().map(|glyph| glyph.character).collect();
                let start = text.find("BACKUPS SAVE LIVES").unwrap();
                let column = text[..start].chars().count();
                assert_eq!(column, 36 + PREFERRED_SLOGAN_GAP);
                row[column..column + 18]
                    .iter()
                    .map(|glyph| glyph.colour)
                    .collect::<Vec<Option<Colour>>>()
            }
            _ => panic!("no header"),
        }
    };
    assert!(slogan(8_000_000_000)
        .iter()
        .all(|colour| *colour == Some(Colour::Black)));
    assert!(slogan(6_900_000_000)
        .iter()
        .any(|colour| *colour != Some(Colour::Black)));
}

#[test]
fn inspect_popup_file_body_renders_white() {
    let mut store = fixture();
    let mut app = store.load();
    app.mode = Mode::Inspect;
    app.inspect = "popup-white-body".into();
    let widgets = draw_at(&app, screen(100, 30), 0, NOW);
    match widgets.last() {
        Some(Widget::Paragraph {
            content: Content::Lines(lines),
            area,
            ..
        }) => {
            assert_eq!((area.x, area.y, area.width, area.height), (5, 3, 90, 24));
            let body = lines
                .iter()
                .find(|line| line.text.contains("popup-white-body"))
                .unwrap();
            assert_eq!(body.style.fg, Some(Colour::White));
        }
        _ => panic!("no popup"),
    }
}

#[test]
fn widgets_stand_where_the_areas_say() {
    let mut store = fixture();
    let app = store.load();
    let strip = |y: u16, height: u16| Area {
        x: 0,
        y,
        width: 100,
        height,
    };
    let outer = vec![
        strip(0, 5),
        strip(5, 1),
        strip(6, 1),
        strip(7, 12),
        strip(19, 9),
        strip(28, 2),
    ];
    let widgets = compose(&app, screen(100, 30), &outer, &Vec::new(), 0, NOW);
    let areas: Vec<Area> = widgets.iter().map(area_of).collect();
    assert_eq!(areas, vec![outer[0], outer[2], outer[3], outer[4], outer[5]]);
    match &widgets[2] {
        Widget::List {
            rows, selected, ..
        } => {
            assert_eq!(rows.len(), 3);
            assert_eq!(*selected, Some(0));
        }
        _ => panic!("no timeline"),
    }
    assert_eq!(
        title_of(&widgets[3]).unwrap().title,
        diff_title(&app)
    );
    assert!(footer(&app, LayoutClass::Wide).starts_with("Ready | Tab tabs"));
}

#[test]
fn keys_go_where_the_mode_says() {
    let mut store = fixture();
    let mut app = store.load();
    assert!(interrupts(Key::Char('c'), true));
    assert!(!interrupts(Key::Char('c'), false));
    assert!(!interrupts(Key::Char('d'), true));
    store.press(&mut app, Key::Char('?'));
    assert_eq!(app.mode, Mode::Help);
    store.press(&mut app, Key::Esc);
    assert_eq!(app.mode, Mode::Main);
    store.press(&mut app, Key::Tab);
    assert_eq!(app.main_tab, MainTab::ReposFiles);
    store.press(&mut app, Key::BackTab);
    assert_eq!(app.main_tab, MainTab::Timeline);
    store.press(&mut app, Key::Char('q'));
    assert!(app.quit);
}

#[test]
fn a_failure_outside_is_shown_and_survived() {
    let mut store = fixture();
    let mut app = store.load();
    app.main_tab = MainTab::ReposFiles;
    let need = app.update_diff();
    let task = app.resume(
        Task {
            need,
            after: After::Done,
        },
        Reply::Failed(Failure::new(FailureKind::Other, "diff failed")),
        NOW,
        CWD,
    );
    assert_eq!(task.need, Need::Nothing);
    assert_eq!(app.status, "Error: diff failed");
    assert_eq!(app.files.len(), 2);
    assert_eq!(
        unified_diff(Some(2), &Vec::new(), "a", "b").unwrap_err().message,
        "diff failed"
    );
}

#[test]
fn lists_are_scrolled_to_what_is_selected() {
    assert_eq!(keep_visible(3, 0, 8), 0);
    assert_eq!(keep_visible(9, 0, 8), 2);
    assert_eq!(keep_visible(1, 5, 8), 1);
    assert_eq!(keep_visible(3, 2, 0), 4);
    let mut app = fixture().load();
    app.page_down();
    app.page_down();
    assert_eq!(app.diff_scroll, 20);
    app.page_up();
    assert_eq!(app.diff_scroll, 10);
    app.page_up();
    app.page_up();
    assert_eq!(app.diff_scroll, 0);
}

#[test]
fn screens_with_room_are_divided_exactly() {
    let mut store = fixture();
    let mut app = store.load();
    for width in [80, 81, 99, 110, 137] {
        for height in [23, 24, 30, 57] {
            app.main_tab = MainTab::ReposFiles;
            let areas: Vec<Area> = draw_at(&app, screen(width, height), 0, NOW)
                .iter()
                .map(area_of)
                .collect();
            let panel = height - 5 - 1 - 1 - 9 - 2;
            let left = (width * 35 + 50) / 100;
            let strip = |x: u16, y: u16, width: u16, height: u16| Area {
                x,
                y,
                width,
                height,
            };
            assert_eq!(
                areas,
                vec![
                    strip(0, 0, width, 5),
                    strip(0, 6, width, 1),
                    strip(0, 7, left, panel),
                    strip(left, 7, width - left, panel),
                    strip(0, 7 + panel, width, 9),
                    strip(0, 16 + panel, width, 2),
                ]
            );
            app.main_tab = MainTab::Search;
            let areas: Vec<Area> = draw_at(&app, screen(width, height + 5), 0, NOW)
                .iter()
                .map(area_of)
                .collect();
            assert_eq!(areas[2], strip(0, 7, width, 3));
            assert_eq!(areas[3], strip(0, 10, width, panel + 5 - 3));
        }
    }
}

fn revision(path: &str, number: u64, epoch: u64) -> Revision {
    Revision {
        key: "w".into(),
        leaf: "f".into(),
        number,
        access: AccessRecord {
            epoch,
            stamp: String::new(),
            path: path.into(),
            editor: "vi".into(),
        },
        backup: String::new(),
        diff: None,
        tag: None,
        actor: "me".into(),
    }
}

#[test]
fn revisions_are_ordered_and_none_is_lost() {
    let all = vec![
        revision("/w/b", 1, 10),
        revision("/w/a", 1, 30),
        revision("/w/b", 2, 30),
        revision("/w//b", 3, 20),
        revision("/v/c", 1, 5),
    ];
    let shown = |list: &[Revision]| -> Vec<(String, u64)> {
        list.iter()
            .map(|r| (r.access.path.clone(), r.number))
            .collect()
    };
    assert_eq!(
        shown(&sort_newest_first(&all)),
        [
            ("/w/b".to_string(), 2),
            ("/w/a".to_string(), 1),
            ("/w//b".to_string(), 3),
            ("/w/b".to_string(), 1),
            ("/v/c".to_string(), 1),
        ]
    );
    let kinds = vec![
        EventKind::Create,
        EventKind::Access,
        EventKind::Edit,
        EventKind::Edit,
        EventKind::Access,
    ];
    let timeline = make_timeline(&all, &kinds);
    assert_eq!(
        timeline.iter().map(|e| e.kind).collect::<Vec<_>>(),
        [
            EventKind::Edit,
            EventKind::Access,
            EventKind::Edit,
            EventKind::Create,
            EventKind::Access,
        ]
    );
    assert_eq!(
        shown(&list_history(&all, "/w/b/")),
        [
            ("/w//b".to_string(), 3),
            ("/w/b".to_string(), 2),
            ("/w/b".to_string(), 1),
        ]
    );
    assert_eq!(list_files(&all), ["/v/c", "/w/a", "/w/b"]);
}

#[test]
fn the_tree_holds_directories_and_the_files_of_open_ones() {
    let files: Vec<String> = ["/v/c", "/w/a", "/w/b"].map(String::from).to_vec();
    let lines = make_tree(&files, &vec!["/w".to_string()], &Vec::new(), NOW, "/");
    assert_eq!(
        lines
            .iter()
            .map(|line| (line.path.as_str(), line.label.as_str(), line.directory))
            .collect::<Vec<_>>(),
        [
            ("/v", "v/", true),
            ("/w", "w/", true),
            ("/w/a", "a", false),
            ("/w/b", "b", false),
        ]
    );
}

#[test]
fn a_search_that_cannot_go_on_leaves_what_it_found() {
    let mut store = fixture();
    let mut app = store.load();
    app.input = "t".into();
    let need = app.search();
    store.settle(&mut app, need);
    assert_eq!(app.search_results.len(), 3);
    assert_eq!(app.main_tab, MainTab::Search);

    let mut app = store.load();
    store.unreadable = Some(2);
    app.input = "t".into();
    let need = app.search();
    store.settle(&mut app, need);
    let found: Vec<(&str, u64)> = app
        .search_results
        .iter()
        .map(|result| (result.path.as_str(), result.revision))
        .collect();
    assert_eq!(found, [("/base/work/a.txt", 1)]);
    assert_eq!(app.status, "Error: gone");
    assert_eq!(app.mode, Mode::Main);
    assert_eq!(app.main_tab, MainTab::Timeline);
}

#[test]
fn a_search_fails_on_what_a_match_did_but_not_on_what_another_did() {
    let all = vec![revision("/w/one", 1, 1), revision("/w/two", 1, 2)];
    let unknown = |text: &str| RevisionContent {
        rendered: Ok(text.as_bytes().to_vec()),
        kind: Err(Failure::new(FailureKind::Other, "no backup")),
    };
    let (found, failure) =
        search_contents("needle", &all, &vec![unknown("hay"), unknown("straw")]);
    assert!(found.is_empty() && failure.is_none());
    let (found, failure) =
        search_contents("needle", &all, &vec![unknown("hay"), unknown("a needle")]);
    assert!(found.is_empty());
    assert_eq!(failure.unwrap().message, "no backup");
}

/// The heights of the rows of a screen.
fn heights(width: u16, height: u16) -> [u16; 6] {
    let mut store = fixture();
    let mut app = store.load();
    app.main_tab = MainTab::Timeline;
    let areas: Vec<Area> = draw_at(&app, screen(width, height), 0, NOW)
        .iter()
        .map(area_of)
        .collect();
    assert_eq!(areas.len(), 5);
    let (header, tabs, panel, diff, foot) = (areas[0], areas[1], areas[2], areas[3], areas[4]);
    assert!(areas.iter().all(|a| a.x == 0 && a.width == width));
    assert_eq!(header.y, 0);
    assert_eq!(tabs.y + tabs.height, panel.y);
    assert_eq!(panel.y + panel.height, diff.y);
    assert_eq!(diff.y + diff.height, foot.y);
    assert_eq!(foot.y + foot.height, height);
    [
        header.height,
        tabs.y - header.height,
        tabs.height,
        panel.height,
        diff.height,
        foot.height,
    ]
}

#[test]
fn short_screens_are_divided_exactly() {
    for (width, height, rows) in [
        (42, 10, [1, 1, 1, 5, 1, 1]),
        (42, 11, [1, 1, 1, 5, 2, 1]),
        (42, 12, [1, 1, 1, 5, 3, 1]),
        (42, 13, [2, 1, 1, 5, 3, 1]),
        (42, 14, [3, 1, 1, 5, 3, 1]),
        (42, 15, [4, 1, 1, 5, 3, 1]),
        (42, 16, [5, 1, 1, 5, 3, 1]),
        (60, 13, [2, 1, 1, 5, 3, 1]),
        (60, 14, [3, 1, 1, 5, 3, 1]),
        (60, 15, [2, 1, 1, 5, 5, 1]),
        (60, 16, [3, 1, 1, 5, 5, 1]),
        (60, 17, [4, 1, 1, 5, 5, 1]),
        (60, 18, [5, 1, 1, 5, 5, 1]),
        (60, 19, [5, 1, 1, 5, 6, 1]),
        (60, 20, [5, 1, 1, 5, 7, 1]),
        (60, 21, [5, 1, 1, 5, 8, 1]),
        (60, 22, [5, 1, 1, 5, 9, 1]),
        (90, 14, [2, 1, 1, 5, 3, 2]),
        (90, 15, [1, 1, 1, 5, 5, 2]),
        (90, 16, [2, 1, 1, 5, 5, 2]),
        (90, 17, [3, 1, 1, 5, 5, 2]),
        (90, 18, [4, 1, 1, 5, 5, 2]),
        (90, 19, [5, 1, 1, 5, 5, 2]),
        (90, 20, [5, 1, 1, 5, 6, 2]),
        (90, 21, [5, 1, 1, 5, 7, 2]),
        (90, 22, [5, 1, 1, 5, 8, 2]),
        (90, 23, [5, 1, 1, 5, 9, 2]),
        (90, 40, [5, 1, 1, 22, 9, 2]),
    ] {
        assert_eq!(heights(width, height), rows, "{width} by {height}");
    }
    assert_eq!(
        outer_sizes(LayoutClass::Medium, 20),
        [
            Limit::Length(5),
            Limit::Length(1),
            Limit::Length(1),
            Limit::Least(5),
            Limit::Length(9),
            Limit::Length(1),
        ]
    );
    assert_eq!(panel_sizes(MainTab::Search), [Limit::Length(3), Limit::Least(2)]);
    assert!(panel_sizes(MainTab::Timeline).is_empty());
}

/// The sizes that the layout gives to lengths around a least size.
fn divided(lengths: &[u16], least_at: usize, least: u16, size: u16) -> Vec<u16> {
    let limits = (0..=lengths.len()).map(|i| {
        if i == least_at {
            Constraint::Min(least)
        } else {
            Constraint::Length(lengths[if i < least_at { i } else { i - 1 }])
        }
    });
    let area = Rect::new(3, 2, 7, size);
    let parts = Layout::vertical(limits).split(area);
    let mut at = 2;
    for part in parts.iter() {
        assert_eq!((part.x, part.width), (3, 7));
        assert_eq!(part.y, at, "{lengths:?} {least_at} {least} {size}");
        at += part.height;
    }
    assert_eq!(at, 2 + size, "{lengths:?} {least_at} {least} {size}");
    parts.iter().map(|part| part.height).collect()
}

/// The most even sizes, in twelfths, that fill an area without exceeding a length.
fn most_even(bounds: &[u16], fixed: usize, size: u16) -> Vec<Vec<u16>> {
    let mut all: Vec<Vec<u16>> = vec![Vec::new()];
    for (i, bound) in bounds.iter().enumerate() {
        all = all
            .iter()
            .flat_map(|sizes| {
                let from = if i == fixed { bound * 12 } else { 0 };
                (from..=bound * 12).filter(move |n| i == fixed || n % 4 == 0 || n % 6 == 0).map(
                    move |n| {
                        let mut more = sizes.clone();
                        more.push(n);
                        more
                    },
                )
            })
            .collect();
    }
    all.retain(|sizes| sizes.iter().sum::<u16>() == size * 12);
    let uneven =
        |sizes: &Vec<u16>| -> u16 { sizes.windows(2).map(|pair| pair[0].abs_diff(pair[1])).sum() };
    let least = all.iter().map(uneven).min().unwrap();
    all.retain(|sizes| uneven(sizes) == least);
    all
}

#[test]
fn without_room_the_most_even_division_is_taken() {
    let mut decided = 0;
    for first in 0..4 {
        for second in 0..4 {
            for third in 0..4 {
                for least_at in 0..4 {
                    for least in [0, 1, 3] {
                        let lengths = [first, second, third];
                        let needed: u16 = lengths.iter().sum::<u16>() + least;
                        for size in 0..needed {
                            let sizes = divided(&lengths, least_at, least, size);
                            let mut bounds = lengths.to_vec();
                            bounds.insert(least_at, least.min(size));
                            assert_eq!(sizes[least_at], least.min(size));
                            assert!(sizes.iter().zip(&bounds).all(|(size, bound)| size <= bound));
                            let best = most_even(&bounds, least_at, size);
                            if best.len() == 1 && best[0].iter().all(|n| n % 12 == 0) {
                                let cells: Vec<u16> = best[0].iter().map(|n| n / 12).collect();
                                assert_eq!(sizes, cells, "{lengths:?} {least_at} {least} {size}");
                                decided += 1;
                            }
                        }
                    }
                }
            }
        }
    }
    assert!(decided > 500, "{decided}");
}
