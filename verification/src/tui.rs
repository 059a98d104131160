//! The browser: its state, and what each key and each reply does to it.
//!
//! A key, or the reply to a request, changes the state at once and may leave a task: something to
//! be read, written or compared outside, whose reply is handed back.

use crate::browse::{
    contains_fold, find_number, find_path, find_path_or_first, insert_path, list_files,
    list_history, make_timeline, make_tree, remove_path, sort_newest_first, DiffContext, EventKind,
    FilterField, MainTab, SearchFilters, SearchResult, SelectedHistoryItem, SelectedTarget,
    TimelineEvent, TreeNode,
};
use crate::encoding::{lossy, same_bytes};
use crate::failure::{Failure, FailureKind};
use crate::mutation::CreatedRevision;
use crate::order::{arrange, push_number_key, sort_order, Replicate};
use crate::path::{parent, parent_or_root, push_path_key, same_path};
use crate::store::Revision;
use crate::text::{
    chars_of, contains, count_matches, join, lines, replace, starts_with, text_of, to_decimal, trim,
};
#[allow(unused_imports)]
use crate::{
    browse::{
        event_keys, event_of, events_of, field_behind, field_text, files_of, history_of, holds_fold,
        holds_path, kind_of, law_each_file_is_listed_once, law_history_is_its_own,
        law_newest_come_first, law_paths_are_put_in_and_taken_out, law_place_of_a_number,
        law_place_of_a_path, law_timeline_runs_backwards, lemma_place_of_number,
        lemma_place_of_path, lets_through, lower_case, names_path, newest_first, no_filters,
        no_older, or_first, paths_ascend, place_of_number, place_of_path, recent_keys,
        revision_paths, tab_before, tab_behind, tag_text, timeline_of, tree_of, with_field,
        with_path, without_path, EventView, FiltersView, NodeView, ResultView, TargetView,
    },
    encoding::lossy_text,
    failure::{fails, opt_failure, FailureView},
    mutation::CreatedView,
    order::{
        comes_before, key_at_most, key_begins, key_less, key_views, law_sorting_keeps_items,
        law_stable_order, lemma_joined_keys, smaller_at, sorted_by_key, stable_order,
    },
    path::{
        directory_of, law_path_keys_are_faithful, law_path_keys_are_separate,
        law_path_keys_order_paths, parent_of, path_key, path_less, same_path_text,
    },
    store::RevisionView,
    text::{
        all_views, begins_with, decimal, ends_cleanly, finishes_with, joined,
        law_every_occurrence_is_replaced, law_joining_undoes_splitting,
        law_splitting_undoes_joining, lemma_one_line, lemma_pieces_last, line_seq, occurrences,
        occurs, one_line, pieces, replaced, trimmed, views,
    },
};
use vstd::prelude::*;

verus! {

/// The panels of the browser.
#[derive(Clone, Copy, Debug, PartialEq, Eq, Structural)]
pub enum Panel {
    Files,
    History,
    Diff,
}

/// What the keys mean.
#[derive(Clone, Copy, Debug, PartialEq, Eq, Structural)]
pub enum Mode {
    Main,
    Help,
    SearchInput,
    SearchResults,
    Inspect,
    TagInput,
    ConfirmRestore,
    Activity,
    Filters,
}

/// The state of the browser.
pub struct App {
    pub main_tab: MainTab,
    pub files: Vec<String>,
    pub revisions: Vec<Revision>,
    pub file_index: usize,
    pub tree: Vec<TreeNode>,
    pub tree_index: usize,
    /// The directories that show their files, none of them twice.
    pub expanded: Vec<String>,
    pub revision_index: usize,
    pub panel: Panel,
    pub mode: Mode,
    pub marked_revision: Option<u64>,
    pub compare_current: bool,
    pub diff: String,
    pub diff_scroll: u16,
    pub inspect: String,
    pub inspect_scroll: u16,
    pub input: String,
    pub search_results: Vec<SearchResult>,
    pub search_index: usize,
    pub activity: Vec<Revision>,
    pub activity_index: usize,
    pub status: String,
    pub quit: bool,
    pub restore_rendered: bool,
    pub filters: SearchFilters,
    pub filter_field: FilterField,
    pub back_mode: Mode,
    pub filter_origin: Mode,
    pub tree_offset: usize,
    pub history_offset: usize,
    pub search_offset: usize,
    pub activity_offset: usize,
    pub timeline: Vec<TimelineEvent>,
    pub timeline_index: usize,
    pub timeline_changes_only: bool,
    pub diff_context: DiffContext,
    pub selected_item: Option<SelectedHistoryItem>,
}

/// The model of the state of the browser.
pub struct AppView {
    pub main_tab: MainTab,
    pub files: Seq<Seq<char>>,
    pub revisions: Seq<RevisionView>,
    pub file_index: usize,
    pub tree: Seq<NodeView>,
    pub tree_index: usize,
    pub expanded: Seq<Seq<char>>,
    pub revision_index: usize,
    pub panel: Panel,
    pub mode: Mode,
    pub marked_revision: Option<u64>,
    pub compare_current: bool,
    pub diff: Seq<char>,
    pub diff_scroll: u16,
    pub inspect: Seq<char>,
    pub inspect_scroll: u16,
    pub input: Seq<char>,
    pub search_results: Seq<ResultView>,
    pub search_index: usize,
    pub activity: Seq<RevisionView>,
    pub activity_index: usize,
    pub status: Seq<char>,
    pub quit: bool,
    pub restore_rendered: bool,
    pub filters: FiltersView,
    pub filter_field: FilterField,
    pub back_mode: Mode,
    pub filter_origin: Mode,
    pub tree_offset: usize,
    pub history_offset: usize,
    pub search_offset: usize,
    pub activity_offset: usize,
    pub timeline: Seq<EventView>,
    pub timeline_index: usize,
    pub timeline_changes_only: bool,
    pub diff_context: TargetView,
    pub selected_item: Option<EventView>,
}

/// The model of an optional item.
pub open spec fn opt_item(item: Option<SelectedHistoryItem>) -> Option<EventView> {
    match item {
        Some(i) => Some(i@),
        None => None,
    }
}

impl View for App {
    type V = AppView;

    open spec fn view(&self) -> AppView {
        AppView {
            main_tab: self.main_tab,
            files: views(self.files@),
            revisions: all_views(self.revisions@),
            file_index: self.file_index,
            tree: all_views(self.tree@),
            tree_index: self.tree_index,
            expanded: views(self.expanded@),
            revision_index: self.revision_index,
            panel: self.panel,
            mode: self.mode,
            marked_revision: self.marked_revision,
            compare_current: self.compare_current,
            diff: self.diff@,
            diff_scroll: self.diff_scroll,
            inspect: self.inspect@,
            inspect_scroll: self.inspect_scroll,
            input: self.input@,
            search_results: all_views(self.search_results@),
            search_index: self.search_index,
            activity: all_views(self.activity@),
            activity_index: self.activity_index,
            status: self.status@,
            quit: self.quit,
            restore_rendered: self.restore_rendered,
            filters: self.filters@,
            filter_field: self.filter_field,
            back_mode: self.back_mode,
            filter_origin: self.filter_origin,
            tree_offset: self.tree_offset,
            history_offset: self.history_offset,
            search_offset: self.search_offset,
            activity_offset: self.activity_offset,
            timeline: all_views(self.timeline@),
            timeline_index: self.timeline_index,
            timeline_changes_only: self.timeline_changes_only,
            diff_context: self.diff_context@,
            selected_item: opt_item(self.selected_item),
        }
    }
}

/// Something to be done outside.
#[derive(Debug, PartialEq, Eq)]
pub enum Need {
    /// Nothing.
    Nothing,
    /// The diff from the backup of a revision to its content.
    EventDiff(Revision),
    /// The diff from one revision to another, or to the live file.
    Comparison { left: Revision, right: Revision, compare_current: bool },
    /// What the right revision of a comparison did.
    ComparedKind(Revision),
    /// All revisions, to find a search result.
    FindHit,
    /// What a revision that was found did.
    HitKind(Revision),
    /// All revisions, each with what it did.
    Rescan,
    /// All revisions, to search them; while the text is typed or when it is complete.
    SearchAll { incremental: bool },
    /// The contents of revisions, each with what it did.
    Contents { revisions: Vec<Revision>, incremental: bool },
    /// All revisions, to list the activity.
    FilterActivity,
    /// The content of a revision.
    Inspect(Revision),
    /// A tag to be written.
    Tag { target: Option<Revision>, text: String },
    /// A revision to be restored.
    Restore { revision: Revision, rendered: bool },
}

/// The model of something to be done outside.
pub enum NeedView {
    Nothing,
    EventDiff(RevisionView),
    Comparison { left: RevisionView, right: RevisionView, compare_current: bool },
    ComparedKind(RevisionView),
    FindHit,
    HitKind(RevisionView),
    Rescan,
    SearchAll { incremental: bool },
    Contents { revisions: Seq<RevisionView>, incremental: bool },
    FilterActivity,
    Inspect(RevisionView),
    Tag { target: Option<RevisionView>, text: Seq<char> },
    Restore { revision: RevisionView, rendered: bool },
}

/// The model of an optional revision.
pub open spec fn opt_revision(r: Option<Revision>) -> Option<RevisionView> {
    match r {
        Some(x) => Some(x@),
        None => None,
    }
}

impl View for Need {
    type V = NeedView;

    open spec fn view(&self) -> NeedView {
        match self {
            Need::Nothing => NeedView::Nothing,
            Need::EventDiff(r) => NeedView::EventDiff(r@),
            Need::Comparison { left, right, compare_current } => NeedView::Comparison {
                left: left@,
                right: right@,
                compare_current: *compare_current,
            },
            Need::ComparedKind(r) => NeedView::ComparedKind(r@),
            Need::FindHit => NeedView::FindHit,
            Need::HitKind(r) => NeedView::HitKind(r@),
            Need::Rescan => NeedView::Rescan,
            Need::SearchAll { incremental } => NeedView::SearchAll { incremental: *incremental },
            Need::Contents { revisions, incremental } => NeedView::Contents {
                revisions: all_views(revisions@),
                incremental: *incremental,
            },
            Need::FilterActivity => NeedView::FilterActivity,
            Need::Inspect(r) => NeedView::Inspect(r@),
            Need::Tag { target, text } => NeedView::Tag {
                target: opt_revision(*target),
                text: text@,
            },
            Need::Restore { revision, rendered } => NeedView::Restore {
                revision: revision@,
                rendered: *rendered,
            },
        }
    }
}

/// Where the browser goes when it has nothing more to wait for.
#[derive(Clone, Copy, Debug, PartialEq, Eq, Structural)]
pub enum After {
    /// Nowhere.
    Done,
    /// To a revision that a search found, to inspect it.
    LandSearch(u64),
    /// To a revision in the activity.
    LandActivity(u64),
    /// To a revision that a restore made.
    LandRestore(u64),
}

/// Something to be done outside, and where the browser goes then.
#[derive(Debug, PartialEq, Eq)]
pub struct Task {
    pub need: Need,
    pub after: After,
}

/// The model of a task.
pub struct TaskView {
    pub need: NeedView,
    pub after: After,
}

impl View for Task {
    type V = TaskView;

    open spec fn view(&self) -> TaskView {
        TaskView { need: self.need@, after: self.after }
    }
}

/// A state and what it waits for.
pub type Step = (AppView, TaskView);

/// A revision's content and what the revision did, as far as they could be read.
pub struct RevisionContent {
    pub rendered: Result<Vec<u8>, Failure>,
    pub kind: Result<EventKind, Failure>,
}

/// What came of something done outside.
pub enum Reply {
    Failed(Failure),
    Diff(String),
    Kind(EventKind),
    Revisions(Vec<Revision>),
    Scan { all: Vec<Revision>, kinds: Result<Vec<EventKind>, Failure> },
    Contents(Vec<RevisionContent>),
    Bytes(Vec<u8>),
    Done,
    Restored(CreatedRevision),
}

/// Whether a reply answers a need.
pub open spec fn answers_need(need: NeedView, reply: Reply) -> bool {
    match (need, reply) {
        (NeedView::Nothing, _) => false,
        (_, Reply::Failed(_)) => true,
        (NeedView::EventDiff(_), Reply::Diff(_)) => true,
        (NeedView::Comparison { .. }, Reply::Diff(_)) => true,
        (NeedView::ComparedKind(_), Reply::Kind(_)) => true,
        (NeedView::FindHit, Reply::Revisions(_)) => true,
        (NeedView::HitKind(_), Reply::Kind(_)) => true,
        (NeedView::Rescan, Reply::Scan { all, kinds }) => kinds matches Ok(k) ==> k@.len()
            == all@.len(),
        (NeedView::SearchAll { .. }, Reply::Revisions(_)) => true,
        (NeedView::Contents { revisions, .. }, Reply::Contents(list)) => list@.len()
            == revisions.len(),
        (NeedView::FilterActivity, Reply::Revisions(_)) => true,
        (NeedView::Inspect(_), Reply::Bytes(_)) => true,
        (NeedView::Tag { .. }, Reply::Done) => true,
        (NeedView::Restore { .. }, Reply::Restored(_)) => true,
        _ => false,
    }
}

/// A state that waits for nothing.
pub open spec fn idle(a: AppView) -> Step {
    (a, TaskView { need: NeedView::Nothing, after: After::Done })
}

/// A state that waits for one thing.
pub open spec fn waits(a: AppView, need: NeedView, after: After) -> Step {
    (a, TaskView { need, after })
}

/// The events that the timeline shows, among the first `n`.
pub open spec fn visible_part(a: AppView, n: int) -> Seq<EventView>
    decreases n,
{
    if n <= 0 {
        Seq::empty()
    } else if !a.timeline_changes_only || a.timeline[n - 1].kind != EventKind::Access {
        visible_part(a, n - 1).push(a.timeline[n - 1])
    } else {
        visible_part(a, n - 1)
    }
}

/// The events that the timeline shows.
pub open spec fn visible(a: AppView) -> Seq<EventView> {
    visible_part(a, a.timeline.len() as int)
}

proof fn lemma_visible_part(a: AppView, n: int)
    requires
        0 <= n <= a.timeline.len(),
    ensures
        forall|e: EventView| #[trigger]
            visible_part(a, n).contains(e) <==> a.timeline.take(n).contains(e) && (
            !a.timeline_changes_only || e.kind != EventKind::Access),
        !a.timeline_changes_only ==> visible_part(a, n) == a.timeline.take(n),
    decreases n,
{
    if n > 0 {
        lemma_visible_part(a, n - 1);
        let before = visible_part(a, n - 1);
        let shown = visible_part(a, n);
        assert(a.timeline.take(n) =~= a.timeline.take(n - 1).push(a.timeline[n - 1]));
        assert forall|e: EventView| #[trigger]
            shown.contains(e) <==> a.timeline.take(n).contains(e) && (!a.timeline_changes_only
                || e.kind != EventKind::Access) by {
            broadcast use vstd::seq_lib::group_seq_properties;

            assert(before.contains(e) <==> a.timeline.take(n - 1).contains(e) && (
            !a.timeline_changes_only || e.kind != EventKind::Access));
        }
    }
}

/// The timeline shows every event; where it is to show changes only, every event that changed
/// something and no other.
pub proof fn law_timeline_shows_changes(a: AppView)
    ensures
        !a.timeline_changes_only ==> visible(a) == a.timeline,
        forall|e: EventView| #[trigger]
            visible(a).contains(e) <==> a.timeline.contains(e) && (!a.timeline_changes_only
                || e.kind != EventKind::Access),
{
    let n = a.timeline.len() as int;
    lemma_visible_part(a, n);
    assert(a.timeline.take(n) =~= a.timeline);
    assert forall|e: EventView| #[trigger]
        visible(a).contains(e) <==> a.timeline.contains(e) && (!a.timeline_changes_only || e.kind
            != EventKind::Access) by {
        assert(visible_part(a, n).contains(e) <==> a.timeline.take(n).contains(e) && (
        !a.timeline_changes_only || e.kind != EventKind::Access));
    }
}

/// An index that is not beyond the last of `len` items.
pub open spec fn at_most_last(index: int, len: nat) -> usize {
    if len == 0 {
        0
    } else if index < len {
        index as usize
    } else {
        (len - 1) as usize
    }
}

/// The index behind an index.
pub open spec fn index_behind(index: usize, len: nat) -> usize {
    at_most_last(index + 1, len)
}

/// The index some places before an index.
pub open spec fn index_before(index: usize, by: int) -> usize {
    if index >= by {
        (index - by) as usize
    } else {
        0
    }
}

/// The first line of a window that shows a line.
pub open spec fn kept_visible(index: usize, offset: usize, height: int) -> usize {
    if index < offset {
        index
    } else if index >= offset + height {
        (index - height + 1) as usize
    } else {
        offset
    }
}

/// The line stays in the window, and a window that shows it stays where it is.
pub proof fn law_line_stays_visible(index: usize, offset: usize, height: int)
    requires
        0 < height <= usize::MAX,
    ensures
        kept_visible(index, offset, height) <= index < kept_visible(index, offset, height) + height,
        offset <= index < offset + height ==> kept_visible(index, offset, height) == offset,
{
}

/// The first line of a window that shows a line.
pub fn keep_visible(index: usize, offset: usize, height: usize) -> (r: usize)
    requires
        height == 0 ==> index < usize::MAX,
    ensures
        r == kept_visible(index, offset, height as int),
{
    if index < offset {
        index
    } else if index - offset >= height {
        if height == 0 {
            index + 1
        } else {
            index - (height - 1)
        }
    } else {
        offset
    }
}

/// The index behind an index.
pub fn next(index: usize, len: usize) -> (r: usize)
    ensures
        r == index_behind(index, len as nat),
{
    if len == 0 {
        0
    } else if index < len - 1 {
        index + 1
    } else {
        len - 1
    }
}

fn last_at_most(index: usize, by: usize, len: usize) -> (r: usize)
    ensures
        r == at_most_last(index + by, len as nat),
{
    if len == 0 {
        0
    } else if index < len && by < len - index {
        index + by
    } else {
        len - 1
    }
}

fn minus(index: usize, by: usize) -> (r: usize)
    ensures
        r == index_before(index, by as int),
{
    if index >= by {
        index - by
    } else {
        0
    }
}

/// A number that is no greater than a machine can count.
pub open spec fn capped(n: int) -> usize {
    if n > usize::MAX {
        usize::MAX
    } else {
        n as usize
    }
}

/// The line of the list of results before the result at `n`, headings counted: each path has a
/// blank line and a heading, each result a line and one more where it has a preview.
pub open spec fn lines_before(results: Seq<ResultView>, n: int) -> int
    decreases n,
{
    if n <= 0 {
        1
    } else {
        lines_before(results, n - 1) + heading_lines(results, n - 1) + 1 + (if results[n
            - 1].preview.len() > 0 {
            1int
        } else {
            0
        })
    }
}

/// The lines of the heading before a result.
pub open spec fn heading_lines(results: Seq<ResultView>, n: int) -> int {
    if n == 0 || !same_path_text(results[n - 1].path, results[n].path) {
        2
    } else {
        0
    }
}

/// The line of a result in the list of results.
pub open spec fn line_of_result(results: Seq<ResultView>, selected: usize) -> usize {
    if selected < results.len() {
        capped(lines_before(results, selected as int) + heading_lines(results, selected as int))
    } else {
        capped(lines_before(results, results.len() as int))
    }
}

fn plus(a: usize, b: usize) -> (r: usize)
    ensures
        r == capped(a + b),
{
    if a > usize::MAX - b {
        usize::MAX
    } else {
        a + b
    }
}

proof fn lemma_lines_before(results: Seq<ResultView>, n: int)
    requires
        0 <= n,
    ensures
        lines_before(results, n) >= 1,
    decreases n,
{
    if n > 0 {
        lemma_lines_before(results, n - 1);
    }
}

/// Each result is on a line of its own, below the lines of the results before it; the first is on
/// the fourth line.
pub proof fn law_result_lines_ascend(results: Seq<ResultView>, i: int, j: int)
    requires
        0 <= i <= j < results.len(),
    ensures
        lines_before(results, 0) + heading_lines(results, 0) == 3,
        lines_before(results, i) + heading_lines(results, i) >= 3,
        i < j ==> lines_before(results, i) + heading_lines(results, i) < lines_before(results, j)
            + heading_lines(results, j),
    decreases j,
{
    if i < j {
        law_result_lines_ascend(results, i, j - 1);
    } else if i > 0 {
        law_result_lines_ascend(results, i - 1, i - 1);
    }
}

/// The line of a result in the list of results.
pub fn search_result_line(results: &Vec<SearchResult>, selected: usize) -> (r: usize)
    ensures
        r == line_of_result(all_views(results@), selected),
{
    let ghost all = all_views(results@);
    let mut line: usize = 1;
    let mut i: usize = 0;
    while i < results.len()
        invariant
            i <= results.len(),
            i <= selected || selected >= results.len(),
            all == all_views(results@),
            line == capped(lines_before(all, i as int)),
        decreases results.len() - i,
    {
        assert(all[i as int] == results@[i as int]@);
        proof {
            lemma_lines_before(all, i as int);
        }
        let headed: bool = if i == 0 {
            true
        } else {
            assert(all[i - 1] == results@[i - 1]@);
            !same_path(results[i - 1].path.as_str(), results[i].path.as_str())
        };
        if headed {
            line = plus(line, 2);
        }
        if i == selected {
            return line;
        }
        line = plus(line, 1);
        if chars_of(results[i].preview.as_str()).len() > 0 {
            line = plus(line, 1);
        }
        i += 1;
    }
    line
}

/// The diff of an event, once it is known: an access has none.
pub open spec fn event_diff_wanted(a: AppView, e: EventView) -> (AppView, NeedView) {
    let b = AppView { diff_scroll: 0, ..a };
    if e.kind == EventKind::Access {
        (AppView { diff: "No content change — file accessed only"@, ..b }, NeedView::Nothing)
    } else {
        (b, NeedView::EventDiff(e.revision))
    }
}

/// The selection of an event of the timeline.
pub open spec fn timeline_selected(a: AppView) -> (AppView, NeedView) {
    let v = visible(a);
    if a.timeline_index < v.len() {
        let e = v[a.timeline_index as int];
        event_diff_wanted(
            AppView {
                diff_context: TargetView::Timeline {
                    path: e.revision.access.path,
                    revision: e.revision.number,
                },
                selected_item: Some(e),
                ..a
            },
            e,
        )
    } else {
        (
            AppView { diff: "No event selected"@, diff_context: TargetView::Nothing, ..a },
            NeedView::Nothing,
        )
    }
}

/// The selected revision of the selected file.
pub open spec fn revision_selected(a: AppView) -> Option<RevisionView> {
    if a.revision_index < a.revisions.len() {
        Some(a.revisions[a.revision_index as int])
    } else {
        None
    }
}

/// The number of the left revision of the comparison.
pub open spec fn left_number(a: AppView, right: RevisionView) -> u64 {
    match a.marked_revision {
        Some(n) => n,
        None => right.number,
    }
}

/// The comparison for the selected revision.
pub open spec fn comparison_wanted(a: AppView) -> (AppView, NeedView) {
    let b = AppView { diff_scroll: 0, ..a };
    match revision_selected(a) {
        None => (
            AppView { diff: Seq::empty(), diff_context: TargetView::Nothing, ..b },
            NeedView::Nothing,
        ),
        Some(right) => match place_of_number(a.revisions, left_number(a, right), 0) {
            None => (AppView { diff: Seq::empty(), ..b }, NeedView::Nothing),
            Some(i) => (
                b,
                NeedView::Comparison {
                    left: a.revisions[i],
                    right,
                    compare_current: a.compare_current,
                },
            ),
        },
    }
}

/// The selection of a search result.
pub open spec fn result_selected(a: AppView) -> (AppView, NeedView) {
    if a.search_index < a.search_results.len() {
        (a, NeedView::FindHit)
    } else {
        (
            AppView {
                diff: if a.input.len() == 0 {
                    "Enter a search query"@
                } else {
                    "No search results"@
                },
                diff_context: TargetView::Nothing,
                ..a
            },
            NeedView::Nothing,
        )
    }
}

/// The selection of the current tab.
pub open spec fn tab_selected(a: AppView) -> (AppView, NeedView) {
    match a.main_tab {
        MainTab::Timeline => timeline_selected(a),
        MainTab::ReposFiles => comparison_wanted(a),
        MainTab::Search => result_selected(a),
    }
}

/// Another tab.
pub open spec fn tab_activated(a: AppView, tab: MainTab) -> (AppView, NeedView) {
    tab_selected(
        AppView {
            main_tab: tab,
            mode: if tab == MainTab::Search {
                Mode::SearchInput
            } else {
                Mode::Main
            },
            ..a
        },
    )
}

/// A search result that was found, with what it did.
pub open spec fn hit_shown(a: AppView, r: RevisionView, kind: EventKind) -> (AppView, NeedView) {
    let e = event_of(r, kind);
    event_diff_wanted(
        AppView {
            diff_context: TargetView::Search { path: r.access.path, revision: r.number },
            selected_item: Some(e),
            ..a
        },
        e,
    )
}

/// The place of a revision of a path with a number, from `from` on.
pub open spec fn place_of_hit(rs: Seq<RevisionView>, path: Seq<char>, number: u64, from: int) -> Option<
    int,
>
    decreases rs.len() - from,
{
    if from < 0 || from >= rs.len() {
        None
    } else if rs[from].number == number && same_path_text(rs[from].access.path, path) {
        Some(from)
    } else {
        place_of_hit(rs, path, number, from + 1)
    }
}

/// All revisions are known, and the selected search result is looked up in them.
pub open spec fn hit_looked_up(a: AppView, all: Seq<RevisionView>) -> (AppView, NeedView) {
    if a.search_index < a.search_results.len() {
        let hit = a.search_results[a.search_index as int];
        match place_of_hit(all, hit.path, hit.revision, 0) {
            None => (
                AppView { diff: "Selected search result is unavailable"@, ..a },
                NeedView::Nothing,
            ),
            Some(i) => if all[i].diff is None {
                hit_shown(a, all[i], EventKind::Access)
            } else {
                (a, NeedView::HitKind(all[i]))
            },
        }
    } else {
        result_selected(a)
    }
}

/// The comparison is known.
pub open spec fn compared(a: AppView, right: RevisionView, diff: Seq<char>) -> (AppView, NeedView) {
    let b = AppView {
        diff,
        diff_context: TargetView::ReposFiles {
            path: right.access.path,
            revision: right.number,
        },
        ..a
    };
    if right.diff is None {
        (AppView { selected_item: Some(event_of(right, EventKind::Access)), ..b }, NeedView::Nothing)
    } else {
        (b, NeedView::ComparedKind(right))
    }
}

/// The inspection of the selected item.
pub open spec fn inspection_wanted(a: AppView) -> NeedView {
    match a.selected_item {
        Some(e) => NeedView::Inspect(e.revision),
        None => NeedView::Nothing,
    }
}

/// The content of the inspected revision is known.
pub open spec fn inspected(a: AppView, content: Seq<char>) -> AppView {
    AppView { inspect: content, back_mode: a.mode, inspect_scroll: 0, mode: Mode::Inspect, ..a }
}

/// The browser goes where it was headed.
pub open spec fn landed(a: AppView, after: After) -> Step {
    match after {
        After::Done => idle(a),
        After::LandSearch(n) => {
            let b = AppView { revision_index: or_first(place_of_number(a.revisions, n, 0)), ..a };
            waits(b, inspection_wanted(b), After::Done)
        },
        After::LandActivity(n) => {
            let b = AppView {
                revision_index: or_first(place_of_number(a.revisions, n, 0)),
                mode: Mode::Main,
                panel: Panel::History,
                ..a
            };
            waits(comparison_wanted(b).0, comparison_wanted(b).1, After::Done)
        },
        After::LandRestore(n) => {
            let b = AppView { revision_index: or_first(place_of_number(a.revisions, n, 0)), ..a };
            waits(comparison_wanted(b).0, comparison_wanted(b).1, After::Done)
        },
    }
}

/// A state that waits for what it needs, or goes where it was headed.
pub open spec fn settled(s: (AppView, NeedView), after: After) -> Step {
    if s.1 is Nothing {
        landed(s.0, after)
    } else {
        waits(s.0, s.1, after)
    }
}

/// A failure leads back to the main view and is shown.
pub open spec fn error_recorded(a: AppView, f: FailureView) -> AppView {
    AppView { status: "Error: "@ + f.message, mode: Mode::Main, ..a }
}

/// The place of the line of a file in the tree, from `from` on.
pub open spec fn place_of_file_node(tree: Seq<NodeView>, path: Seq<char>, from: int) -> Option<int>
    decreases tree.len() - from,
{
    if from < 0 || from >= tree.len() {
        None
    } else if !tree[from].directory && same_path_text(tree[from].path, path) {
        Some(from)
    } else {
        place_of_file_node(tree, path, from + 1)
    }
}

/// The selected file.
pub open spec fn file_selected(a: AppView) -> Option<Seq<char>> {
    if a.file_index < a.files.len() {
        Some(a.files[a.file_index as int])
    } else {
        None
    }
}

/// The state with the files and the activity of a repository; the selected file stays selected.
pub open spec fn files_refreshed(a: AppView, all: Seq<RevisionView>) -> AppView {
    AppView {
        files: files_of(all),
        file_index: match file_selected(a) {
            Some(path) => or_first(place_of_path(files_of(all), path, 0)),
            None => a.file_index,
        },
        activity: newest_first(all),
        ..a
    }
}

/// The state with the timeline of a repository; the selection stays within it.
pub open spec fn timeline_refreshed(a: AppView, all: Seq<RevisionView>, kinds: Seq<EventKind>) -> AppView {
    let b = AppView { timeline: timeline_of(all, kinds), ..a };
    AppView { timeline_index: at_most_last(a.timeline_index as int, visible(b).len()), ..b }
}

/// The state with the tree of a repository; the selected file is selected in it.
pub open spec fn tree_refreshed(a: AppView, now: u64, cwd: Seq<char>) -> AppView {
    let tree = tree_of(a.files, a.expanded, a.activity, now, cwd);
    let b = AppView { tree, ..a };
    match file_selected(a) {
        Some(path) => {
            let index = or_first(place_of_file_node(tree, path, 0));
            AppView {
                tree_index: index,
                tree_offset: kept_visible(index, a.tree_offset, 8),
                ..b
            }
        },
        None => b,
    }
}

/// The state with the history of the selected file; a revision that was selected stays selected.
pub open spec fn history_refreshed(a: AppView, all: Seq<RevisionView>, number: Option<u64>) -> AppView {
    let revisions = match file_selected(a) {
        Some(path) => history_of(all, path),
        None => Seq::empty(),
    };
    let index = match number {
        Some(n) => or_first(place_of_number(revisions, n, 0)),
        None => a.revision_index,
    };
    AppView {
        revisions,
        revision_index: index,
        history_offset: kept_visible(index, a.history_offset, 8),
        ..a
    }
}

/// The number of the selected revision.
pub open spec fn number_selected(a: AppView) -> Option<u64> {
    match revision_selected(a) {
        Some(r) => Some(r.number),
        None => None,
    }
}

/// The state after all revisions were read, with the selection of the current tab.
pub open spec fn refreshed(
    a: AppView,
    all: Seq<RevisionView>,
    kinds: Seq<EventKind>,
    now: u64,
    cwd: Seq<char>,
) -> (AppView, NeedView) {
    let b = timeline_refreshed(files_refreshed(a, all), all, kinds);
    tab_selected(history_refreshed(tree_refreshed(b, now, cwd), all, number_selected(a)))
}

proof fn lemma_visible_alike(a: AppView, b: AppView, n: int)
    requires
        a.timeline == b.timeline,
        a.timeline_changes_only == b.timeline_changes_only,
    ensures
        visible_part(a, n) == visible_part(b, n),
    decreases n,
{
    if n > 0 {
        lemma_visible_alike(a, b, n - 1);
    }
}

/// After a refresh the browser shows the repository: its files in order, each once; its activity
/// and its timeline, each revision once with the newest first, and with what each one did; and of
/// the selected file its own revisions with the greatest number first. A file and a revision that
/// were selected stay selected where they are still there, and else the first is; the selection of
/// the timeline stays within what it shows.
pub proof fn law_refresh_shows_the_repository(
    a: AppView,
    all: Seq<RevisionView>,
    empty: Seq<bool>,
    kinds: Seq<EventKind>,
    now: u64,
    cwd: Seq<char>,
)
    requires
        all.len() <= usize::MAX,
        empty.len() == all.len(),
        kinds.len() == all.len(),
        forall|i: int|
            0 <= i < kinds.len() ==> #[trigger] kinds[i] == kind_of(all[i].diff is Some, empty[i]),
    ensures
        ({
            let b = refreshed(a, all, kinds, now, cwd).0;
            &&& paths_ascend(b.files)
            &&& forall|i: int, j: int|
                0 <= i < j < b.files.len() ==> !same_path_text(
                    #[trigger] b.files[i],
                    #[trigger] b.files[j],
                )
            &&& forall|k: int|
                0 <= k < all.len() ==> names_path(b.files, (#[trigger] all[k]).access.path)
            &&& forall|i: int|
                0 <= i < b.files.len() ==> revision_paths(all).contains(#[trigger] b.files[i])
            &&& file_selected(a) matches Some(path) ==> if names_path(b.files, path) {
                file_selected(b) matches Some(same) && same_path_text(same, path)
            } else {
                b.file_index == 0
            }
            &&& b.activity.to_multiset() == all.to_multiset()
            &&& forall|i: int, j: int|
                0 <= i < j < b.activity.len() ==> no_older(
                    #[trigger] b.activity[i],
                    #[trigger] b.activity[j],
                )
            &&& b.timeline.to_multiset() == events_of(all, kinds).to_multiset()
            &&& forall|i: int, j: int|
                0 <= i < j < b.timeline.len() ==> no_older(
                    (#[trigger] b.timeline[i]).revision,
                    (#[trigger] b.timeline[j]).revision,
                )
            &&& forall|e: EventView| #[trigger]
                b.timeline.contains(e) ==> exists|i: int|
                    0 <= i < all.len() && e.revision == #[trigger] all[i] && e.kind == kind_of(
                        all[i].diff is Some,
                        empty[i],
                    )
            &&& match file_selected(b) {
                Some(path) => forall|r: RevisionView| #[trigger]
                    b.revisions.contains(r) <==> all.contains(r) && same_path_text(
                        r.access.path,
                        path,
                    ),
                None => b.revisions.len() == 0,
            }
            &&& forall|i: int, j: int|
                0 <= i < j < b.revisions.len() ==> (#[trigger] b.revisions[i]).number >= (
                #[trigger] b.revisions[j]).number
            &&& number_selected(a) matches Some(n) ==> if exists|i: int|
                0 <= i < b.revisions.len() && (#[trigger] b.revisions[i]).number == n {
                number_selected(b) == Some(n)
            } else {
                b.revision_index == 0
            }
            &&& b.timeline_index < visible(b).len() || b.timeline_index == 0
        }),
{
    let b = refreshed(a, all, kinds, now, cwd).0;
    let files = files_of(all);
    let timed = timeline_refreshed(files_refreshed(a, all), all, kinds);
    law_each_file_is_listed_once(all);
    law_newest_come_first(all);
    law_timeline_runs_backwards(all, kinds);
    lemma_visible_alike(timed, b, b.timeline.len() as int);
    lemma_visible_alike(
        AppView { timeline: timeline_of(all, kinds), ..files_refreshed(a, all) },
        b,
        b.timeline.len() as int,
    );
    match file_selected(a) {
        Some(path) => {
            lemma_place_of_path(files, path, 0);
            if names_path(files, path) {
                assert(place_of_path(files, path, 0) is Some);
            }
        },
        None => {},
    }
    match file_selected(b) {
        Some(path) => {
            law_history_is_its_own(all, path);
        },
        None => {},
    }
    match number_selected(a) {
        Some(n) => {
            lemma_place_of_number(b.revisions, n, 0);
        },
        None => {},
    }
    let es = events_of(all, kinds);
    let keys = event_keys(es);
    law_sorting_keeps_items(es, keys);
    assert forall|e: EventView| #[trigger] b.timeline.contains(e) implies exists|i: int|
        0 <= i < all.len() && e.revision == #[trigger] all[i] && e.kind == kind_of(
            all[i].diff is Some,
            empty[i],
        ) by {
        assert(es.contains(e));
        let i = choose|i: int| 0 <= i < es.len() && es[i] == e;
        assert(all[i] == e.revision && kinds[i] == e.kind);
    }
}

/// The text with each occurrence of another marked.
pub open spec fn marked(text: Seq<char>, needle: Seq<char>) -> Seq<char> {
    replaced(text, needle, "⟦"@ + needle + "⟧"@)
}

/// The first line from `from` on that holds a text, with the occurrences marked.
pub open spec fn first_marked_line(lines: Seq<Seq<char>>, needle: Seq<char>, from: int) -> Seq<char>
    decreases lines.len() - from,
{
    if from < 0 || from >= lines.len() {
        Seq::empty()
    } else if occurs(lines[from], needle) {
        marked(lines[from], needle)
    } else {
        first_marked_line(lines, needle, from + 1)
    }
}

/// One for a fact that holds.
pub open spec fn one_if(b: bool) -> int {
    if b {
        1
    } else {
        0
    }
}

/// How often a revision matches a search: in its content, and once each in its tag, path, editor
/// and actor.
pub open spec fn match_count(needle: Seq<char>, r: RevisionView, content: Seq<char>) -> int {
    occurrences(content, needle) + one_if(r.tag matches Some(t) && occurs(t, needle)) + one_if(
        holds_fold(r.access.path, needle),
    ) + one_if(holds_fold(r.access.editor, needle)) + one_if(holds_fold(r.actor, needle))
}

/// What of a revision is shown for a search: its first matching line, else its tag, path, editor
/// or actor.
pub open spec fn preview_of(needle: Seq<char>, r: RevisionView, content: Seq<char>) -> Seq<char> {
    let line = first_marked_line(line_seq(content), needle, 0);
    if line.len() > 0 {
        line
    } else if r.tag matches Some(t) && occurs(t, needle) {
        "tag: "@ + marked(tag_text(r.tag), needle)
    } else if holds_fold(r.access.path, needle) {
        "filename: "@ + r.access.path
    } else if holds_fold(r.access.editor, needle) {
        "editor: "@ + r.access.editor
    } else {
        "actor: "@ + r.actor
    }
}

/// A revision as a search result.
pub open spec fn result_of(needle: Seq<char>, r: RevisionView, content: Seq<char>, kind: EventKind) -> ResultView {
    ResultView {
        path: r.access.path,
        revision: r.number,
        matches: capped(match_count(needle, r, content)),
        epoch: r.access.epoch,
        editor: r.access.editor,
        actor: r.actor,
        tag: r.tag,
        preview: preview_of(needle, r, content),
        kind,
    }
}

/// What a search has come to: the results so far, and why it could not go on.
pub struct Found {
    pub results: Seq<ResultView>,
    pub failure: Option<FailureView>,
}

/// A search that has come to one more revision. One whose content cannot be read ends it, and so
/// does one that matches where it cannot be told what it did.
pub open spec fn search_goes_on(
    needle: Seq<char>,
    before: Found,
    r: RevisionView,
    content: RevisionContent,
) -> Found {
    if before.failure is Some {
        before
    } else {
        match content.rendered {
            Err(f) => Found { failure: Some(f@), ..before },
            Ok(bytes) => {
                let text = lossy_text(bytes@);
                if match_count(needle, r, text) > 0 {
                    match content.kind {
                        Err(f) => Found { failure: Some(f@), ..before },
                        Ok(kind) => Found {
                            results: before.results.push(result_of(needle, r, text, kind)),
                            failure: None,
                        },
                    }
                } else {
                    before
                }
            },
        }
    }
}

/// What a search comes to in the first `n` revisions.
pub open spec fn results_part(
    needle: Seq<char>,
    rs: Seq<RevisionView>,
    contents: Seq<RevisionContent>,
    n: int,
) -> Found
    decreases n,
{
    if n <= 0 {
        Found { results: Seq::empty(), failure: None }
    } else {
        search_goes_on(
            needle,
            results_part(needle, rs, contents, n - 1),
            rs[n - 1],
            contents[n - 1],
        )
    }
}

/// Results are ordered by path, the newest first, and the greater number first at the same time.
pub open spec fn result_key(r: ResultView) -> Seq<u64> {
    path_key(r.path).push((u64::MAX - r.epoch) as u64).push((u64::MAX - r.revision) as u64)
}

/// The keys of results.
pub open spec fn result_keys(rs: Seq<ResultView>) -> Seq<Seq<u64>> {
    Seq::new(rs.len(), |i: int| result_key(rs[i]))
}

/// The results of a search, in order.
pub open spec fn results_in_order(found: Seq<ResultView>) -> Seq<ResultView> {
    sorted_by_key(found, result_keys(found))
}

/// The state with the results of a search.
pub open spec fn searched(a: AppView, found: Seq<ResultView>, incremental: bool) -> (
    AppView,
    NeedView,
) {
    result_selected(
        AppView {
            search_results: results_in_order(found),
            search_index: 0,
            search_offset: 0,
            main_tab: MainTab::Search,
            mode: if incremental {
                Mode::SearchInput
            } else {
                Mode::SearchResults
            },
            ..a
        },
    )
}

/// The state and what it waits for after a search. One that could not go on leaves what it had
/// found, in the order in which it was found.
pub open spec fn search_ended(a: AppView, found: Found, incremental: bool, after: After) -> Step {
    match found.failure {
        Some(f) => idle(error_recorded(AppView { search_results: found.results, ..a }, f)),
        None => settled(searched(a, found.results, incremental), after),
    }
}

/// The search for what was typed.
pub open spec fn search_wanted(a: AppView, incremental: bool) -> (AppView, NeedView) {
    let b = AppView { search_results: Seq::empty(), ..a };
    if a.input.len() == 0 {
        (AppView { status: "Search cannot be empty"@, ..b }, NeedView::Nothing)
    } else {
        (b, NeedView::SearchAll { incremental })
    }
}

/// The search while it is typed; nothing is shown for an empty text.
pub open spec fn typed_search(a: AppView) -> (AppView, NeedView) {
    if a.input.len() == 0 {
        (
            AppView {
                search_results: Seq::empty(),
                search_index: 0,
                search_offset: 0,
                diff: "Enter a search query"@,
                diff_context: TargetView::Nothing,
                selected_item: None,
                mode: Mode::SearchInput,
                ..a
            },
            NeedView::Nothing,
        )
    } else {
        search_wanted(a, true)
    }
}

/// The revisions among the first `n` that the filters let through.
pub open spec fn let_through(f: FiltersView, rs: Seq<RevisionView>, n: int, now: u64) -> Seq<
    RevisionView,
>
    decreases n,
{
    if n <= 0 {
        Seq::empty()
    } else if lets_through(f, rs[n - 1], now) {
        let_through(f, rs, n - 1, now).push(rs[n - 1])
    } else {
        let_through(f, rs, n - 1, now)
    }
}

/// The state with the activity that the filters let through.
pub open spec fn activity_filtered(a: AppView, all: Seq<RevisionView>, now: u64) -> AppView {
    AppView {
        activity: newest_first(let_through(a.filters, all, all.len() as int, now)),
        activity_index: 0,
        activity_offset: 0,
        mode: Mode::Activity,
        ..a
    }
}

proof fn lemma_let_through(f: FiltersView, rs: Seq<RevisionView>, n: int, now: u64)
    requires
        0 <= n <= rs.len(),
    ensures
        forall|r: RevisionView| #[trigger]
            let_through(f, rs, n, now).contains(r) <==> rs.take(n).contains(r) && lets_through(
                f,
                r,
                now,
            ),
    decreases n,
{
    if n > 0 {
        lemma_let_through(f, rs, n - 1, now);
        let before = let_through(f, rs, n - 1, now);
        assert(rs.take(n) =~= rs.take(n - 1).push(rs[n - 1]));
        assert forall|r: RevisionView| #[trigger]
            let_through(f, rs, n, now).contains(r) <==> rs.take(n).contains(r) && lets_through(
                f,
                r,
                now,
            ) by {
            broadcast use vstd::seq_lib::group_seq_properties;

            assert(before.contains(r) <==> rs.take(n - 1).contains(r) && lets_through(f, r, now));
        }
    }
}

/// Filtering shows exactly the revisions that the filters let through, the newest first.
pub proof fn law_filters_choose_activity(a: AppView, all: Seq<RevisionView>, now: u64)
    ensures
        forall|r: RevisionView| #[trigger]
            activity_filtered(a, all, now).activity.contains(r) <==> all.contains(r)
                && lets_through(a.filters, r, now),
        forall|i: int, j: int|
            0 <= i < j < activity_filtered(a, all, now).activity.len() ==> no_older(
                #[trigger] activity_filtered(a, all, now).activity[i],
                #[trigger] activity_filtered(a, all, now).activity[j],
            ),
{
    let found = let_through(a.filters, all, all.len() as int, now);
    lemma_let_through(a.filters, all, all.len() as int, now);
    assert(all.take(all.len() as int) =~= all);
    law_newest_come_first(found);
    assert forall|r: RevisionView| #[trigger]
        activity_filtered(a, all, now).activity.contains(r) <==> all.contains(r) && lets_through(
            a.filters,
            r,
            now,
        ) by {
        law_sorting_keeps_items(found, recent_keys(found));
        assert(newest_first(found).contains(r) <==> found.contains(r));
        assert(let_through(a.filters, all, all.len() as int, now).contains(r) <==> all.contains(r)
            && lets_through(a.filters, r, now));
    }
}

/// The tag that was typed.
pub open spec fn tag_wanted(a: AppView) -> (AppView, NeedView) {
    if trimmed(a.input).len() == 0 {
        (AppView { status: "Tag cannot be empty"@, ..a }, NeedView::Nothing)
    } else {
        (a, NeedView::Tag { target: revision_selected(a), text: trimmed(a.input) })
    }
}

/// The state after the tag was written.
pub open spec fn tagged(a: AppView) -> AppView {
    AppView { input: Seq::empty(), mode: Mode::Main, status: "Tag saved"@, ..a }
}

/// The restore of the selected revision.
pub open spec fn restore_wanted(a: AppView) -> NeedView {
    match revision_selected(a) {
        Some(r) => NeedView::Restore { revision: r, rendered: a.restore_rendered },
        None => NeedView::Nothing,
    }
}

/// The state after a restore.
pub open spec fn restored(a: AppView, number: u64, made: CreatedView) -> AppView {
    let text = "Restored revision "@ + decimal(number as nat) + " as revision "@ + decimal(
        made.number as nat,
    );
    AppView {
        status: match made.mirror_warning {
            Some(w) => text + "; warning: "@ + w,
            None => text,
        },
        mode: Mode::Main,
        ..a
    }
}

/// The state and what it waits for after a reply to what it waited for.
pub open spec fn resumed(a: AppView, t: TaskView, reply: Reply, now: u64, cwd: Seq<char>) -> Step {
    match (t.need, reply) {
        (_, Reply::Failed(f)) => idle(error_recorded(a, f@)),
        (NeedView::EventDiff(_), Reply::Diff(text)) => landed(AppView { diff: text@, ..a }, t.after),
        (NeedView::Comparison { right, .. }, Reply::Diff(text)) => settled(
            compared(a, right, text@),
            t.after,
        ),
        (NeedView::ComparedKind(right), Reply::Kind(kind)) => landed(
            AppView { selected_item: Some(event_of(right, kind)), ..a },
            t.after,
        ),
        (NeedView::FindHit, Reply::Revisions(all)) => settled(
            hit_looked_up(a, all_views(all@)),
            t.after,
        ),
        (NeedView::HitKind(r), Reply::Kind(kind)) => settled(hit_shown(a, r, kind), t.after),
        (NeedView::Rescan, Reply::Scan { all, kinds }) => match kinds {
            Ok(k) => settled(refreshed(a, all_views(all@), k@, now, cwd), t.after),
            Err(f) => idle(error_recorded(files_refreshed(a, all_views(all@)), f@)),
        },
        (NeedView::SearchAll { incremental }, Reply::Revisions(all)) => waits(
            a,
            NeedView::Contents {
                revisions: let_through(a.filters, all_views(all@), all@.len() as int, now),
                incremental,
            },
            t.after,
        ),
        (NeedView::Contents { revisions, incremental }, Reply::Contents(list)) => search_ended(
            a,
            results_part(a.input, revisions, list@, revisions.len() as int),
            incremental,
            t.after,
        ),
        (NeedView::FilterActivity, Reply::Revisions(all)) => idle(
            activity_filtered(a, all_views(all@), now),
        ),
        (NeedView::Inspect(_), Reply::Bytes(b)) => idle(inspected(a, lossy_text(b@))),
        (NeedView::Tag { .. }, Reply::Done) => waits(tagged(a), NeedView::Rescan, After::Done),
        (NeedView::Restore { revision, .. }, Reply::Restored(made)) => waits(
            restored(a, revision.number, made@),
            NeedView::Rescan,
            After::LandRestore(made.number),
        ),
        _ => idle(a),
    }
}

/// The directories of the first `n` files.
pub open spec fn parents_of(files: Seq<Seq<char>>, n: int) -> Seq<Seq<char>>
    decreases n,
{
    if n <= 0 {
        Seq::empty()
    } else {
        match parent_of(files[n - 1]) {
            Some(p) => with_path(parents_of(files, n - 1), p),
            None => parents_of(files, n - 1),
        }
    }
}

/// A browser that was just started: every directory shows its files.
pub open spec fn started(all: Seq<RevisionView>) -> AppView {
    let files = files_of(all);
    AppView {
        main_tab: MainTab::Timeline,
        files,
        revisions: Seq::empty(),
        file_index: 0,
        tree: Seq::empty(),
        tree_index: 0,
        expanded: parents_of(files, files.len() as int),
        revision_index: 0,
        panel: Panel::Files,
        mode: Mode::Main,
        marked_revision: None,
        compare_current: true,
        diff: Seq::empty(),
        diff_scroll: 0,
        inspect: Seq::empty(),
        inspect_scroll: 0,
        input: Seq::empty(),
        search_results: Seq::empty(),
        search_index: 0,
        activity: Seq::empty(),
        activity_index: 0,
        status: "Ready"@,
        quit: false,
        restore_rendered: true,
        filters: no_filters(),
        filter_field: FilterField::Path,
        back_mode: Mode::Main,
        filter_origin: Mode::Main,
        tree_offset: 0,
        history_offset: 0,
        search_offset: 0,
        activity_offset: 0,
        timeline: Seq::empty(),
        timeline_index: 0,
        timeline_changes_only: false,
        diff_context: TargetView::Nothing,
        selected_item: None,
    }
}

/// A scroll position moved down.
pub open spec fn scrolled_down(scroll: u16, by: int) -> u16 {
    if scroll + by > u16::MAX {
        u16::MAX
    } else {
        (scroll + by) as u16
    }
}

/// A scroll position moved up.
pub open spec fn scrolled_up(scroll: u16, by: int) -> u16 {
    if scroll >= by {
        (scroll - by) as u16
    } else {
        0
    }
}

/// The state with another search result selected, in view.
pub open spec fn result_in_view(a: AppView, index: usize) -> AppView {
    AppView {
        search_index: index,
        search_offset: kept_visible(line_of_result(a.search_results, index), a.search_offset, 8),
        ..a
    }
}

/// The state with another line of the activity selected, in view.
pub open spec fn activity_in_view(a: AppView, index: usize) -> AppView {
    AppView {
        activity_index: index,
        activity_offset: kept_visible(index, a.activity_offset, 8),
        ..a
    }
}

/// The state with another line of the tree selected, in view.
pub open spec fn tree_in_view(a: AppView, index: usize) -> AppView {
    AppView { tree_index: index, tree_offset: kept_visible(index, a.tree_offset, 8), ..a }
}

/// The state with another revision selected, in view.
pub open spec fn history_in_view(a: AppView, index: usize) -> AppView {
    AppView { revision_index: index, history_offset: kept_visible(index, a.history_offset, 8), ..a }
}

/// The selected line of the tree.
pub open spec fn node_selected(a: AppView) -> Option<NodeView> {
    if a.tree_index < a.tree.len() {
        Some(a.tree[a.tree_index as int])
    } else {
        None
    }
}

/// The selection of the file on the selected line of the tree.
pub open spec fn tree_file_selected(a: AppView) -> (AppView, NeedView) {
    match node_selected(a) {
        Some(node) if !node.directory => (
            AppView {
                file_index: or_first(place_of_path(a.files, node.path, 0)),
                revision_index: 0,
                ..a
            },
            NeedView::Rescan,
        ),
        _ => (a, NeedView::Nothing),
    }
}

/// The state after a step down, or up.
pub open spec fn moved(a: AppView, down: bool) -> (AppView, NeedView) {
    match a.mode {
        Mode::SearchResults => result_selected(
            result_in_view(
                a,
                if down {
                    index_behind(a.search_index, a.search_results.len())
                } else {
                    index_before(a.search_index, 1)
                },
            ),
        ),
        Mode::Activity => (
            activity_in_view(
                a,
                if down {
                    index_behind(a.activity_index, a.activity.len())
                } else {
                    index_before(a.activity_index, 1)
                },
            ),
            NeedView::Nothing,
        ),
        Mode::Inspect => (
            AppView {
                inspect_scroll: if down {
                    scrolled_down(a.inspect_scroll, 1)
                } else {
                    scrolled_up(a.inspect_scroll, 1)
                },
                ..a
            },
            NeedView::Nothing,
        ),
        Mode::Main => if a.main_tab == MainTab::Timeline {
            timeline_selected(
                AppView {
                    timeline_index: if down {
                        index_behind(a.timeline_index, visible(a).len())
                    } else {
                        index_before(a.timeline_index, 1)
                    },
                    ..a
                },
            )
        } else {
            match a.panel {
                Panel::Files => tree_file_selected(
                    tree_in_view(
                        a,
                        if down {
                            index_behind(a.tree_index, a.tree.len())
                        } else {
                            index_before(a.tree_index, 1)
                        },
                    ),
                ),
                Panel::History => comparison_wanted(
                    history_in_view(
                        a,
                        if down {
                            index_behind(a.revision_index, a.revisions.len())
                        } else {
                            index_before(a.revision_index, 1)
                        },
                    ),
                ),
                Panel::Diff => (
                    AppView {
                        diff_scroll: if down {
                            scrolled_down(a.diff_scroll, 1)
                        } else {
                            scrolled_up(a.diff_scroll, 1)
                        },
                        ..a
                    },
                    NeedView::Nothing,
                ),
            }
        },
        _ => (a, NeedView::Nothing),
    }
}

/// The state after a page down, or up.
pub open spec fn paged(a: AppView, down: bool) -> AppView {
    match a.mode {
        Mode::Inspect => AppView {
            inspect_scroll: if down {
                scrolled_down(a.inspect_scroll, 10)
            } else {
                scrolled_up(a.inspect_scroll, 10)
            },
            ..a
        },
        Mode::SearchResults => result_in_view(
            a,
            if down {
                at_most_last(a.search_index + 10, a.search_results.len())
            } else {
                index_before(a.search_index, 10)
            },
        ),
        Mode::Activity => activity_in_view(
            a,
            if down {
                at_most_last(a.activity_index + 10, a.activity.len())
            } else {
                index_before(a.activity_index, 10)
            },
        ),
        _ => AppView {
            diff_scroll: if down {
                scrolled_down(a.diff_scroll, 10)
            } else {
                scrolled_up(a.diff_scroll, 10)
            },
            ..a
        },
    }
}

/// The state after a revision was marked for comparison, or compared with the marked one.
pub open spec fn diff_marked(a: AppView) -> (AppView, NeedView) {
    match revision_selected(a) {
        None => (a, NeedView::Nothing),
        Some(r) => comparison_wanted(
            if a.marked_revision is Some {
                AppView { compare_current: false, ..a }
            } else {
                AppView { marked_revision: Some(r.number), ..a }
            },
        ),
    }
}

/// Whether a line of a diff starts a hunk.
pub open spec fn starts_hunk(line: Seq<char>) -> bool {
    begins_with(line, "@@"@)
}

/// The first line from `from` on that starts a hunk.
pub open spec fn hunk_from(lines: Seq<Seq<char>>, from: int) -> Option<int>
    decreases lines.len() - from,
{
    if from < 0 || from >= lines.len() {
        None
    } else if starts_hunk(lines[from]) {
        Some(from)
    } else {
        hunk_from(lines, from + 1)
    }
}

/// The last of the first `n` lines that starts a hunk.
pub open spec fn hunk_before(lines: Seq<Seq<char>>, n: int) -> Option<int>
    decreases n,
{
    if n <= 0 {
        None
    } else if n <= lines.len() && starts_hunk(lines[n - 1]) {
        Some(n - 1)
    } else {
        hunk_before(lines, n - 1)
    }
}

/// The state with the diff scrolled to a line.
pub open spec fn scrolled_to(a: AppView, line: Option<int>) -> AppView {
    match line {
        Some(n) => AppView {
            diff_scroll: if n > u16::MAX {
                u16::MAX
            } else {
                n as u16
            },
            ..a
        },
        None => a,
    }
}

/// The state with a directory expanded or collapsed: that on the selected line, or that of the
/// file on it.
pub open spec fn tree_toggled(a: AppView, expand: bool, now: u64, cwd: Seq<char>) -> AppView {
    match node_selected(a) {
        None => a,
        Some(node) => {
            let directory = if node.directory {
                node.path
            } else {
                directory_of(node.path)
            };
            let expanded = if expand {
                with_path(a.expanded, directory)
            } else {
                without_path(a.expanded, a.expanded.len() as int, directory)
            };
            let tree = tree_of(a.files, expanded, a.activity, now, cwd);
            AppView {
                expanded,
                tree,
                tree_index: or_first(place_of_node(tree, directory, 0)),
                ..a
            }
        },
    }
}

/// The place of the line of a path in the tree, from `from` on.
pub open spec fn place_of_node(tree: Seq<NodeView>, path: Seq<char>, from: int) -> Option<int>
    decreases tree.len() - from,
{
    if from < 0 || from >= tree.len() {
        None
    } else if same_path_text(tree[from].path, path) {
        Some(from)
    } else {
        place_of_node(tree, path, from + 1)
    }
}

/// The state with the search forgotten.
pub open spec fn search_cleared(a: AppView) -> AppView {
    AppView {
        input: Seq::empty(),
        search_results: Seq::empty(),
        search_index: 0,
        search_offset: 0,
        ..a
    }
}

/// The jump to the selected search result.
pub open spec fn search_jumped(a: AppView) -> Step {
    if a.search_index < a.search_results.len() {
        let hit = a.search_results[a.search_index as int];
        waits(
            AppView { file_index: or_first(place_of_path(a.files, hit.path, 0)), ..a },
            NeedView::Rescan,
            After::LandSearch(hit.revision),
        )
    } else {
        idle(a)
    }
}

/// The jump to the selected line of the activity.
pub open spec fn activity_jumped(a: AppView) -> Step {
    if a.activity_index < a.activity.len() {
        let hit = a.activity[a.activity_index as int];
        waits(
            AppView { file_index: or_first(place_of_path(a.files, hit.access.path, 0)), ..a },
            NeedView::Rescan,
            After::LandActivity(hit.number),
        )
    } else {
        idle(a)
    }
}

/// The way back from a view.
pub open spec fn gone_back(a: AppView) -> AppView {
    AppView {
        mode: if a.mode == Mode::Inspect {
            a.back_mode
        } else {
            Mode::Main
        },
        ..a
    }
}

/// What the header of the diff says.
pub open spec fn comparison_label(a: AppView) -> Seq<char> {
    let selected = number_selected(a);
    let left = match a.marked_revision {
        Some(n) => Some(n),
        None => selected,
    };
    match (left, selected, a.compare_current) {
        (Some(l), _, true) => "rev "@ + decimal(l as nat) + " → current"@,
        (Some(l), Some(r), false) => "rev "@ + decimal(l as nat) + " → rev "@ + decimal(r as nat),
        _ => "no comparison"@,
    }
}

fn down_by(scroll: u16, by: u16) -> (r: u16)
    ensures
        r == scrolled_down(scroll, by as int),
{
    if scroll > u16::MAX - by {
        u16::MAX
    } else {
        scroll + by
    }
}

fn up_by(scroll: u16, by: u16) -> (r: u16)
    ensures
        r == scrolled_up(scroll, by as int),
{
    if scroll >= by {
        scroll - by
    } else {
        0
    }
}

fn idle_task(need: Need) -> (r: Task)
    ensures
        r@ == (TaskView { need: need@, after: After::Done }),
{
    Task { need, after: After::Done }
}

impl App {
    /// A browser that was just started on the revisions of a repository.
    pub fn load(all: &Vec<Revision>) -> (r: Self)
        ensures
            r@ == started(all_views(all@)),
    {
        let files: Vec<String> = list_files(all);
        let ghost f = views(files@);
        let mut expanded: Vec<String> = Vec::new();
        let mut n: usize = 0;
        assert(views(expanded@) =~= Seq::empty());
        assert(f.len() == files@.len());
        while n < files.len()
            invariant
                n <= files.len(),
                f == views(files@),
                views(expanded@) == parents_of(f, n as int),
            decreases files.len() - n,
        {
            assert(f[n as int] == files@[n as int]@);
            match parent(files[n].as_str()) {
                Some(p) => {
                    insert_path(&mut expanded, p.as_str());
                },
                None => {},
            }
            n += 1;
        }
        let r: App = App {
            main_tab: MainTab::Timeline,
            files,
            revisions: Vec::new(),
            file_index: 0,
            tree: Vec::new(),
            tree_index: 0,
            expanded,
            revision_index: 0,
            panel: Panel::Files,
            mode: Mode::Main,
            marked_revision: None,
            compare_current: true,
            diff: String::new(),
            diff_scroll: 0,
            inspect: String::new(),
            inspect_scroll: 0,
            input: String::new(),
            search_results: Vec::new(),
            search_index: 0,
            activity: Vec::new(),
            activity_index: 0,
            status: "Ready".to_owned(),
            quit: false,
            restore_rendered: true,
            filters: SearchFilters::default(),
            filter_field: FilterField::Path,
            back_mode: Mode::Main,
            filter_origin: Mode::Main,
            tree_offset: 0,
            history_offset: 0,
            search_offset: 0,
            activity_offset: 0,
            timeline: Vec::new(),
            timeline_index: 0,
            timeline_changes_only: false,
            diff_context: DiffContext::default(),
            selected_item: None,
        };
        proof {
            assert(all_views(r.revisions@) =~= Seq::empty());
            assert(all_views(r.tree@) =~= Seq::empty());
            assert(all_views(r.search_results@) =~= Seq::empty());
            assert(all_views(r.activity@) =~= Seq::empty());
            assert(all_views(r.timeline@) =~= Seq::empty());
        }
        r
    }

    /// The selected file.
    pub fn selected_file(&self) -> (r: Option<&String>)
        ensures
            match r {
                Some(p) => file_selected(self@) == Some(p@),
                None => file_selected(self@) is None,
            },
    {
        if self.file_index < self.files.len() {
            assert(self@.files[self.file_index as int] == self.files@[self.file_index as int]@);
            Some(&self.files[self.file_index])
        } else {
            None
        }
    }

    /// The selected revision of the selected file.
    pub fn selected_revision(&self) -> (r: Option<&Revision>)
        ensures
            match r {
                Some(x) => revision_selected(self@) == Some(x@),
                None => revision_selected(self@) is None,
            },
    {
        if self.revision_index < self.revisions.len() {
            assert(self@.revisions[self.revision_index as int]
                == self.revisions@[self.revision_index as int]@);
            Some(&self.revisions[self.revision_index])
        } else {
            None
        }
    }

    /// The selected line of the tree.
    pub fn selected_tree(&self) -> (r: Option<&TreeNode>)
        ensures
            match r {
                Some(x) => node_selected(self@) == Some(x@),
                None => node_selected(self@) is None,
            },
    {
        if self.tree_index < self.tree.len() {
            assert(self@.tree[self.tree_index as int] == self.tree@[self.tree_index as int]@);
            Some(&self.tree[self.tree_index])
        } else {
            None
        }
    }

    /// The events that the timeline shows.
    pub fn visible_timeline(&self) -> (r: Vec<TimelineEvent>)
        ensures
            all_views(r@) == visible(self@),
            r@.len() == visible(self@).len(),
    {
        let mut out: Vec<TimelineEvent> = Vec::new();
        let mut n: usize = 0;
        assert(all_views(out@) =~= Seq::empty());
        while n < self.timeline.len()
            invariant
                n <= self.timeline.len(),
                all_views(out@) == visible_part(self@, n as int),
            decreases self.timeline.len() - n,
        {
            assert(self@.timeline[n as int] == self.timeline@[n as int]@);
            if !self.timeline_changes_only || self.timeline[n].kind.is_change() {
                let ghost before = all_views(out@);
                let event: TimelineEvent = self.timeline[n].replicate();
                out.push(event);
                assert(all_views(out@) =~= before.push(event@));
            }
            n += 1;
        }
        assert(all_views(out@).len() == out@.len());
        out
    }

    fn load_event_diff(&mut self, revision: &Revision, kind: EventKind) -> (r: Need)
        ensures
            (final(self)@, r@) == event_diff_wanted(old(self)@, event_of(revision@, kind)),
    {
        self.diff_scroll = 0;
        if kind == EventKind::Access {
            self.diff = "No content change — file accessed only".to_owned();
            Need::Nothing
        } else {
            Need::EventDiff(revision.clone())
        }
    }

    /// Selects the event of the timeline at its index.
    pub fn select_timeline(&mut self) -> (r: Need)
        ensures
            (final(self)@, r@) == timeline_selected(old(self)@),
    {
        let events: Vec<TimelineEvent> = self.visible_timeline();
        if self.timeline_index < events.len() {
            let revision: Revision = events[self.timeline_index].revision.clone();
            let kind: EventKind = events[self.timeline_index].kind;
            assert(visible(old(self)@)[self.timeline_index as int] == event_of(revision@, kind));
            self.diff_context = DiffContext {
                target: SelectedTarget::Timeline {
                    path: revision.access.path.clone(),
                    revision: revision.number,
                },
            };
            self.selected_item = Some(SelectedHistoryItem { revision: revision.clone(), kind });
            self.load_event_diff(&revision, kind)
        } else {
            self.diff = "No event selected".to_owned();
            self.diff_context = DiffContext::default();
            Need::Nothing
        }
    }

    /// Selects the search result at its index.
    pub fn select_search_result(&mut self) -> (r: Need)
        ensures
            (final(self)@, r@) == result_selected(old(self)@),
    {
        if self.search_index < self.search_results.len() {
            return Need::FindHit;
        }
        self.diff = if chars_of(self.input.as_str()).len() == 0 {
            "Enter a search query".to_owned()
        } else {
            "No search results".to_owned()
        };
        self.diff_context = DiffContext::default();
        Need::Nothing
    }

    /// Asks for the comparison for the selected revision.
    pub fn update_diff(&mut self) -> (r: Need)
        ensures
            (final(self)@, r@) == comparison_wanted(old(self)@),
    {
        self.diff_scroll = 0;
        let right: Revision = match self.selected_revision() {
            Some(r) => r.clone(),
            None => {
                self.diff = String::new();
                self.diff_context = DiffContext::default();
                return Need::Nothing;
            },
        };
        let number: u64 = match self.marked_revision {
            Some(n) => n,
            None => right.number,
        };
        match find_number(&self.revisions, number) {
            None => {
                self.diff = String::new();
                Need::Nothing
            },
            Some(i) => {
                assert(self@.revisions[i as int] == self.revisions@[i as int]@);
                Need::Comparison {
                    left: self.revisions[i].clone(),
                    right,
                    compare_current: self.compare_current,
                }
            },
        }
    }

    fn select_tab(&mut self) -> (r: Need)
        ensures
            (final(self)@, r@) == tab_selected(old(self)@),
    {
        match self.main_tab {
            MainTab::Timeline => self.select_timeline(),
            MainTab::ReposFiles => self.update_diff(),
            MainTab::Search => self.select_search_result(),
        }
    }

    fn activate_tab(&mut self, tab: MainTab) -> (r: Need)
        ensures
            (final(self)@, r@) == tab_activated(old(self)@, tab),
    {
        self.main_tab = tab;
        self.mode = if tab == MainTab::Search {
            Mode::SearchInput
        } else {
            Mode::Main
        };
        self.select_tab()
    }

    /// Goes to the next tab.
    pub fn next_tab(&mut self) -> (r: Need)
        ensures
            (final(self)@, r@) == tab_activated(old(self)@, tab_behind(old(self)@.main_tab)),
    {
        let tab: MainTab = self.main_tab.next();
        self.activate_tab(tab)
    }

    /// Goes to the previous tab.
    pub fn previous_tab(&mut self) -> (r: Need)
        ensures
            (final(self)@, r@) == tab_activated(old(self)@, tab_before(old(self)@.main_tab)),
    {
        let tab: MainTab = self.main_tab.previous();
        self.activate_tab(tab)
    }

    fn show_hit(&mut self, revision: &Revision, kind: EventKind) -> (r: Need)
        ensures
            (final(self)@, r@) == hit_shown(old(self)@, revision@, kind),
    {
        self.diff_context = DiffContext {
            target: SelectedTarget::Search {
                path: revision.access.path.clone(),
                revision: revision.number,
            },
        };
        self.selected_item = Some(SelectedHistoryItem { revision: revision.clone(), kind });
        self.load_event_diff(revision, kind)
    }

    fn look_up_hit(&mut self, all: &Vec<Revision>) -> (r: Need)
        ensures
            (final(self)@, r@) == hit_looked_up(old(self)@, all_views(all@)),
    {
        if self.search_index >= self.search_results.len() {
            return self.select_search_result();
        }
        let ghost rs = all_views(all@);
        let path: String = self.search_results[self.search_index].path.clone();
        let number: u64 = self.search_results[self.search_index].revision;
        assert(self@.search_results[self.search_index as int]
            == self.search_results@[self.search_index as int]@);
        let mut i: usize = 0;
        while i < all.len()
            invariant
                i <= all.len(),
                rs == all_views(all@),
                self@ == old(self)@,
                self.search_index < self.search_results.len(),
                path@ == self@.search_results[self.search_index as int].path,
                number == self@.search_results[self.search_index as int].revision,
                place_of_hit(rs, path@, number, 0) == place_of_hit(rs, path@, number, i as int),
            decreases all.len() - i,
        {
            assert(rs[i as int] == all@[i as int]@);
            if all[i].number == number && same_path(all[i].access.path.as_str(), path.as_str()) {
                if all[i].diff.is_none() {
                    return self.show_hit(&all[i], EventKind::Access);
                }
                return Need::HitKind(all[i].clone());
            }
            i += 1;
        }
        self.diff = "Selected search result is unavailable".to_owned();
        Need::Nothing
    }

    fn take_comparison(&mut self, right: &Revision, diff: String) -> (r: Need)
        ensures
            (final(self)@, r@) == compared(old(self)@, right@, diff@),
    {
        self.diff = diff;
        self.diff_context = DiffContext {
            target: SelectedTarget::ReposFiles {
                path: right.access.path.clone(),
                revision: right.number,
            },
        };
        if right.diff.is_none() {
            self.selected_item = Some(
                SelectedHistoryItem { revision: right.clone(), kind: EventKind::Access },
            );
            Need::Nothing
        } else {
            Need::ComparedKind(right.clone())
        }
    }

    /// Asks for the content of the selected item.
    pub fn inspect_selected(&self) -> (r: Need)
        ensures
            r@ == inspection_wanted(self@),
    {
        match &self.selected_item {
            Some(item) => Need::Inspect(item.revision.clone()),
            None => Need::Nothing,
        }
    }

    fn land(&mut self, after: After) -> (r: Task)
        ensures
            (final(self)@, r@) == landed(old(self)@, after),
    {
        match after {
            After::Done => idle_task(Need::Nothing),
            After::LandSearch(n) => {
                self.revision_index = self.place_or_first(n);
                idle_task(self.inspect_selected())
            },
            After::LandActivity(n) => {
                self.revision_index = self.place_or_first(n);
                self.mode = Mode::Main;
                self.panel = Panel::History;
                idle_task(self.update_diff())
            },
            After::LandRestore(n) => {
                self.revision_index = self.place_or_first(n);
                idle_task(self.update_diff())
            },
        }
    }

    fn place_or_first(&self, number: u64) -> (r: usize)
        ensures
            r == or_first(place_of_number(self@.revisions, number, 0)),
    {
        match find_number(&self.revisions, number) {
            Some(i) => i,
            None => 0,
        }
    }

    fn settle(&mut self, need: Need, after: After) -> (r: Task)
        ensures
            (final(self)@, r@) == settled((old(self)@, need@), after),
    {
        match need {
            Need::Nothing => self.land(after),
            need => Task { need, after },
        }
    }

    /// Shows a failure.
    pub fn record_error(&mut self, failure: &Failure)
        ensures
            final(self)@ == error_recorded(old(self)@, failure@),
    {
        let mut status: String = "Error: ".to_owned();
        status.append(failure.message.as_str());
        self.status = status;
        self.mode = Mode::Main;
    }
}

fn find_file_node(tree: &Vec<TreeNode>, path: &str) -> (r: usize)
    ensures
        r == or_first(place_of_file_node(all_views(tree@), path@, 0)),
{
    let ghost all = all_views(tree@);
    let mut i: usize = 0;
    while i < tree.len()
        invariant
            i <= tree.len(),
            all == all_views(tree@),
            place_of_file_node(all, path@, 0) == place_of_file_node(all, path@, i as int),
        decreases tree.len() - i,
    {
        assert(all[i as int] == tree@[i as int]@);
        if !tree[i].directory && same_path(tree[i].path.as_str(), path) {
            return i;
        }
        i += 1;
    }
    0
}

fn find_node(tree: &Vec<TreeNode>, path: &str) -> (r: usize)
    ensures
        r == or_first(place_of_node(all_views(tree@), path@, 0)),
{
    let ghost all = all_views(tree@);
    let mut i: usize = 0;
    while i < tree.len()
        invariant
            i <= tree.len(),
            all == all_views(tree@),
            place_of_node(all, path@, 0) == place_of_node(all, path@, i as int),
        decreases tree.len() - i,
    {
        assert(all[i as int] == tree@[i as int]@);
        if same_path(tree[i].path.as_str(), path) {
            return i;
        }
        i += 1;
    }
    0
}

fn mark(text: &str, needle: &str) -> (r: String)
    requires
        needle@.len() > 0,
    ensures
        r@ == marked(text@, needle@),
{
    let mut with: String = "⟦".to_owned();
    with.append(needle);
    with.append("⟧");
    replace(text, needle, with.as_str())
}

fn find_marked_line(content: &str, needle: &str) -> (r: String)
    requires
        needle@.len() > 0,
    ensures
        r@ == first_marked_line(line_seq(content@), needle@, 0),
{
    let all: Vec<String> = lines(content);
    let ghost a = line_seq(content@);
    let mut i: usize = 0;
    while i < all.len()
        invariant
            i <= all.len(),
            a == views(all@),
            a == line_seq(content@),
            needle@.len() > 0,
            first_marked_line(a, needle@, 0) == first_marked_line(a, needle@, i as int),
        decreases all.len() - i,
    {
        assert(a[i as int] == all@[i as int]@);
        if contains(all[i].as_str(), needle) {
            return mark(all[i].as_str(), needle);
        }
        i += 1;
    }
    String::new()
}

/// How often a text matches a search and what of it is shown, as a search result; none where it
/// does not match.
pub fn search_revision(needle: &str, revision: &Revision, content: &str, kind: EventKind) -> (r: Option<
    SearchResult,
>)
    requires
        needle@.len() > 0,
    ensures
        match r {
            Some(x) => match_count(needle@, revision@, content@) > 0 && x@ == result_of(
                needle@,
                revision@,
                content@,
                kind,
            ),
            None => match_count(needle@, revision@, content@) <= 0,
        },
{
    let in_content: usize = count_matches(content, needle);
    let in_tag: bool = match &revision.tag {
        Some(t) => contains(t.as_str(), needle),
        None => false,
    };
    let in_path: bool = contains_fold(revision.access.path.as_str(), needle);
    let in_editor: bool = contains_fold(revision.access.editor.as_str(), needle);
    let in_actor: bool = contains_fold(revision.actor.as_str(), needle);
    let mut count: usize = in_content;
    if in_tag {
        count = plus(count, 1);
    }
    if in_path {
        count = plus(count, 1);
    }
    if in_editor {
        count = plus(count, 1);
    }
    if in_actor {
        count = plus(count, 1);
    }
    if count == 0 {
        return None;
    }
    let line: String = find_marked_line(content, needle);
    let preview: String = if chars_of(line.as_str()).len() > 0 {
        line
    } else if in_tag {
        let mut text: String = "tag: ".to_owned();
        let tag: String = match &revision.tag {
            Some(t) => t.clone(),
            None => String::new(),
        };
        text.append(mark(tag.as_str(), needle).as_str());
        text
    } else if in_path {
        let mut text: String = "filename: ".to_owned();
        text.append(revision.access.path.as_str());
        text
    } else if in_editor {
        let mut text: String = "editor: ".to_owned();
        text.append(revision.access.editor.as_str());
        text
    } else {
        let mut text: String = "actor: ".to_owned();
        text.append(revision.actor.as_str());
        text
    };
    Some(
        SearchResult {
            path: revision.access.path.clone(),
            revision: revision.number,
            matches: count,
            epoch: revision.access.epoch,
            editor: revision.access.editor.clone(),
            actor: revision.actor.clone(),
            tag: crate::text::copy_opt(&revision.tag),
            preview,
            kind,
        },
    )
}

fn sort_results(found: &Vec<SearchResult>) -> (r: Vec<SearchResult>)
    ensures
        all_views(r@) == results_in_order(all_views(found@)),
{
    let mut keys: Vec<Vec<u64>> = Vec::new();
    let mut n: usize = 0;
    while n < found.len()
        invariant
            n <= found.len(),
            keys@.len() == n,
            forall|j: int| 0 <= j < n ==> (#[trigger] keys@[j])@ == result_key(found@[j]@),
        decreases found.len() - n,
    {
        let mut key: Vec<u64> = Vec::new();
        push_path_key(&mut key, found[n].path.as_str());
        push_number_key(&mut key, u64::MAX - found[n].epoch);
        push_number_key(&mut key, u64::MAX - found[n].revision);
        assert(key@ =~= result_key(found@[n as int]@));
        keys.push(key);
        n += 1;
    }
    let order: Vec<usize> = sort_order(&keys);
    assert(key_views(keys@) =~= result_keys(all_views(found@)));
    arrange(found, &order)
}

proof fn lemma_search_stops(
    needle: Seq<char>,
    rs: Seq<RevisionView>,
    contents: Seq<RevisionContent>,
    n: int,
    m: int,
)
    requires
        0 <= n <= m,
        results_part(needle, rs, contents, n).failure is Some,
    ensures
        results_part(needle, rs, contents, m) == results_part(needle, rs, contents, n),
    decreases m,
{
    if n < m {
        lemma_search_stops(needle, rs, contents, n, m - 1);
    }
}

/// The results of a search in revisions, in the order in which they are found, and why it could
/// not go on. `contents` tells of each revision what it holds and what it did.
pub fn search_contents(needle: &str, revisions: &Vec<Revision>, contents: &Vec<RevisionContent>) -> (r: (
    Vec<SearchResult>,
    Option<Failure>,
))
    requires
        needle@.len() > 0,
        contents@.len() == revisions@.len(),
    ensures
        (Found { results: all_views(r.0@), failure: opt_failure(r.1) }) == results_part(
            needle@,
            all_views(revisions@),
            contents@,
            revisions@.len() as int,
        ),
{
    let ghost rs = all_views(revisions@);
    let ghost list = contents@;
    let ghost wanted = results_part(needle@, rs, list, rs.len() as int);
    let mut found: Vec<SearchResult> = Vec::new();
    let mut n: usize = 0;
    assert(all_views(found@) =~= Seq::empty());
    while n < revisions.len()
        invariant
            n <= revisions.len(),
            needle@.len() > 0,
            list == contents@,
            list.len() == revisions@.len(),
            rs == all_views(revisions@),
            wanted == results_part(needle@, rs, list, rs.len() as int),
            results_part(needle@, rs, list, n as int) == (Found {
                results: all_views(found@),
                failure: None,
            }),
        decreases revisions.len() - n,
    {
        assert(rs[n as int] == revisions@[n as int]@);
        match &contents[n].rendered {
            Err(f) => {
                proof {
                    assert(rs.len() == revisions@.len());
                    lemma_search_stops(needle@, rs, list, n + 1, rs.len() as int);
                }
                return (found, Some(f.clone()));
            },
            Ok(bytes) => {
                let content: String = lossy(bytes);
                let kind: EventKind = match &contents[n].kind {
                    Ok(kind) => *kind,
                    Err(_) => EventKind::Access,
                };
                match search_revision(needle, &revisions[n], content.as_str(), kind) {
                    Some(result) => match &contents[n].kind {
                        Ok(_) => {
                            let ghost before = all_views(found@);
                            found.push(result);
                            assert(all_views(found@) =~= before.push(result@));
                        },
                        Err(f) => {
                            proof {
                                assert(rs.len() == revisions@.len());
                                lemma_search_stops(needle@, rs, list, n + 1, rs.len() as int);
                            }
                            return (found, Some(f.clone()));
                        },
                    },
                    None => {},
                }
            },
        }
        n += 1;
    }
    assert(rs.len() == revisions@.len());
    (found, None)
}

fn filter_revisions(filters: &SearchFilters, all: &Vec<Revision>, now: u64) -> (r: Vec<Revision>)
    ensures
        all_views(r@) == let_through(filters@, all_views(all@), all@.len() as int, now),
{
    let ghost rs = all_views(all@);
    let mut out: Vec<Revision> = Vec::new();
    let mut n: usize = 0;
    assert(all_views(out@) =~= Seq::empty());
    while n < all.len()
        invariant
            n <= all.len(),
            rs == all_views(all@),
            all_views(out@) == let_through(filters@, rs, n as int, now),
        decreases all.len() - n,
    {
        assert(rs[n as int] == all@[n as int]@);
        if filters.matches(&all[n], now) {
            let ghost before = all_views(out@);
            let revision: Revision = all[n].clone();
            out.push(revision);
            assert(all_views(out@) =~= before.push(revision@));
        }
        n += 1;
    }
    out
}

impl App {
    fn refresh_files(&mut self, all: &Vec<Revision>)
        ensures
            final(self)@ == files_refreshed(old(self)@, all_views(all@)),
    {
        let files: Vec<String> = list_files(all);
        match self.selected_file() {
            Some(path) => {
                self.file_index = find_path_or_first(&files, path.as_str());
            },
            None => {},
        }
        self.files = files;
        self.activity = sort_newest_first(all);
    }

    fn refresh_timeline(&mut self, all: &Vec<Revision>, kinds: &Vec<EventKind>)
        requires
            kinds@.len() == all@.len(),
        ensures
            final(self)@ == timeline_refreshed(old(self)@, all_views(all@), kinds@),
    {
        self.timeline = make_timeline(all, kinds);
        let count: usize = self.visible_timeline().len();
        self.timeline_index = last_at_most(self.timeline_index, 0, count);
    }

    fn refresh_tree(&mut self, now: u64, cwd: &str)
        ensures
            final(self)@ == tree_refreshed(old(self)@, now, cwd@),
    {
        self.tree = make_tree(&self.files, &self.expanded, &self.activity, now, cwd);
        if self.file_index < self.files.len() {
            assert(self@.files[self.file_index as int] == self.files@[self.file_index as int]@);
            let index: usize = find_file_node(&self.tree, self.files[self.file_index].as_str());
            self.tree_index = index;
            self.tree_offset = keep_visible(index, self.tree_offset, 8);
        }
    }

    fn refresh_history(&mut self, all: &Vec<Revision>, number: Option<u64>)
        ensures
            final(self)@ == history_refreshed(old(self)@, all_views(all@), number),
    {
        self.revisions = if self.file_index < self.files.len() {
            assert(self@.files[self.file_index as int] == self.files@[self.file_index as int]@);
            list_history(all, self.files[self.file_index].as_str())
        } else {
            let empty: Vec<Revision> = Vec::new();
            assert(all_views(empty@) =~= Seq::empty());
            empty
        };
        match number {
            Some(n) => {
                self.revision_index = self.place_or_first(n);
            },
            None => {},
        }
        self.history_offset = keep_visible(self.revision_index, self.history_offset, 8);
    }

    /// Takes in all revisions, each with what it did, and selects what the current tab shows.
    pub fn refresh(&mut self, all: &Vec<Revision>, kinds: &Vec<EventKind>, now: u64, cwd: &str) -> (r:
        Need)
        requires
            kinds@.len() == all@.len(),
        ensures
            (final(self)@, r@) == refreshed(old(self)@, all_views(all@), kinds@, now, cwd@),
    {
        let number: Option<u64> = match self.selected_revision() {
            Some(r) => Some(r.number),
            None => None,
        };
        self.refresh_files(all);
        self.refresh_timeline(all, kinds);
        self.refresh_tree(now, cwd);
        self.refresh_history(all, number);
        self.select_tab()
    }

    /// Searches for what was typed.
    pub fn search(&mut self) -> (r: Need)
        ensures
            (final(self)@, r@) == search_wanted(old(self)@, false),
    {
        self.start_search(false)
    }

    fn start_search(&mut self, incremental: bool) -> (r: Need)
        ensures
            (final(self)@, r@) == search_wanted(old(self)@, incremental),
    {
        self.search_results = Vec::new();
        assert(all_views(self.search_results@) =~= Seq::empty());
        if chars_of(self.input.as_str()).len() == 0 {
            self.status = "Search cannot be empty".to_owned();
            Need::Nothing
        } else {
            Need::SearchAll { incremental }
        }
    }

    fn update_incremental_search(&mut self) -> (r: Need)
        ensures
            (final(self)@, r@) == typed_search(old(self)@),
    {
        if chars_of(self.input.as_str()).len() == 0 {
            self.search_results = Vec::new();
            assert(all_views(self.search_results@) =~= Seq::empty());
            self.search_index = 0;
            self.search_offset = 0;
            self.diff = "Enter a search query".to_owned();
            self.diff_context = DiffContext::default();
            self.selected_item = None;
            self.mode = Mode::SearchInput;
            Need::Nothing
        } else {
            self.start_search(true)
        }
    }

    fn take_results(&mut self, found: &Vec<SearchResult>, incremental: bool) -> (r: Need)
        ensures
            (final(self)@, r@) == searched(old(self)@, all_views(found@), incremental),
    {
        self.search_results = sort_results(found);
        self.search_index = 0;
        self.search_offset = 0;
        self.main_tab = MainTab::Search;
        self.mode = if incremental {
            Mode::SearchInput
        } else {
            Mode::SearchResults
        };
        self.select_search_result()
    }

    /// Forgets the search.
    pub fn clear_search(&mut self)
        ensures
            final(self)@ == search_cleared(old(self)@),
    {
        self.input = String::new();
        self.search_results = Vec::new();
        assert(all_views(self.search_results@) =~= Seq::empty());
        self.search_index = 0;
        self.search_offset = 0;
    }

    fn show_result(&mut self, index: usize)
        ensures
            final(self)@ == result_in_view(old(self)@, index),
    {
        self.search_index = index;
        let line: usize = search_result_line(&self.search_results, index);
        self.search_offset = keep_visible(line, self.search_offset, 8);
    }

    fn show_activity(&mut self, index: usize)
        ensures
            final(self)@ == activity_in_view(old(self)@, index),
    {
        self.activity_index = index;
        self.activity_offset = keep_visible(index, self.activity_offset, 8);
    }

    fn select_tree_file(&mut self) -> (r: Need)
        ensures
            (final(self)@, r@) == tree_file_selected(old(self)@),
    {
        let path: String = match self.selected_tree() {
            Some(node) => {
                if node.directory {
                    return Need::Nothing;
                }
                node.path.clone()
            },
            None => {
                return Need::Nothing;
            },
        };
        self.file_index = find_path_or_first(&self.files, path.as_str());
        self.revision_index = 0;
        Need::Rescan
    }

    fn step(&mut self, down: bool) -> (r: Need)
        ensures
            (final(self)@, r@) == moved(old(self)@, down),
    {
        match self.mode {
            Mode::SearchResults => {
                let index: usize = if down {
                    next(self.search_index, self.search_results.len())
                } else {
                    minus(self.search_index, 1)
                };
                assert(self@.search_results.len() == self.search_results.len());
                self.show_result(index);
                self.select_search_result()
            },
            Mode::Activity => {
                let index: usize = if down {
                    next(self.activity_index, self.activity.len())
                } else {
                    minus(self.activity_index, 1)
                };
                assert(self@.activity.len() == self.activity.len());
                self.show_activity(index);
                Need::Nothing
            },
            Mode::Inspect => {
                self.inspect_scroll = if down {
                    down_by(self.inspect_scroll, 1)
                } else {
                    up_by(self.inspect_scroll, 1)
                };
                Need::Nothing
            },
            Mode::Main => {
                if self.main_tab == MainTab::Timeline {
                    self.timeline_index = if down {
                        next(self.timeline_index, self.visible_timeline().len())
                    } else {
                        minus(self.timeline_index, 1)
                    };
                    return self.select_timeline();
                }
                match self.panel {
                    Panel::Files => {
                        let index: usize = if down {
                            next(self.tree_index, self.tree.len())
                        } else {
                            minus(self.tree_index, 1)
                        };
                        assert(self@.tree.len() == self.tree.len());
                        self.tree_index = index;
                        self.tree_offset = keep_visible(index, self.tree_offset, 8);
                        self.select_tree_file()
                    },
                    Panel::History => {
                        let index: usize = if down {
                            next(self.revision_index, self.revisions.len())
                        } else {
                            minus(self.revision_index, 1)
                        };
                        assert(self@.revisions.len() == self.revisions.len());
                        self.revision_index = index;
                        self.history_offset = keep_visible(index, self.history_offset, 8);
                        self.update_diff()
                    },
                    Panel::Diff => {
                        self.diff_scroll = if down {
                            down_by(self.diff_scroll, 1)
                        } else {
                            up_by(self.diff_scroll, 1)
                        };
                        Need::Nothing
                    },
                }
            },
            _ => Need::Nothing,
        }
    }

    /// A step down.
    pub fn move_down(&mut self) -> (r: Need)
        ensures
            (final(self)@, r@) == moved(old(self)@, true),
    {
        self.step(true)
    }

    /// A step up.
    pub fn move_up(&mut self) -> (r: Need)
        ensures
            (final(self)@, r@) == moved(old(self)@, false),
    {
        self.step(false)
    }

    /// Marks the selected revision for comparison, or compares it with the marked one.
    pub fn mark_diff(&mut self) -> (r: Need)
        ensures
            (final(self)@, r@) == diff_marked(old(self)@),
    {
        let number: u64 = match self.selected_revision() {
            Some(r) => r.number,
            None => {
                return Need::Nothing;
            },
        };
        if self.marked_revision.is_some() {
            self.compare_current = false;
        } else {
            self.marked_revision = Some(number);
        }
        self.update_diff()
    }

    /// Compares with the live file again.
    pub fn compare_to_current(&mut self) -> (r: Need)
        ensures
            (final(self)@, r@) == comparison_wanted(
                (AppView { compare_current: true, ..old(self)@ }),
            ),
    {
        self.compare_current = true;
        self.update_diff()
    }

    /// Jumps to the selected search result.
    pub fn jump_search(&mut self) -> (r: Task)
        ensures
            (final(self)@, r@) == search_jumped(old(self)@),
    {
        if self.search_index < self.search_results.len() {
            assert(self@.search_results[self.search_index as int]
                == self.search_results@[self.search_index as int]@);
            let path: String = self.search_results[self.search_index].path.clone();
            let number: u64 = self.search_results[self.search_index].revision;
            self.file_index = find_path_or_first(&self.files, path.as_str());
            Task { need: Need::Rescan, after: After::LandSearch(number) }
        } else {
            idle_task(Need::Nothing)
        }
    }

    /// Jumps to the selected line of the activity.
    pub fn jump_activity(&mut self) -> (r: Task)
        ensures
            (final(self)@, r@) == activity_jumped(old(self)@),
    {
        if self.activity_index < self.activity.len() {
            assert(self@.activity[self.activity_index as int]
                == self.activity@[self.activity_index as int]@);
            let path: String = self.activity[self.activity_index].access.path.clone();
            let number: u64 = self.activity[self.activity_index].number;
            self.file_index = find_path_or_first(&self.files, path.as_str());
            Task { need: Need::Rescan, after: After::LandActivity(number) }
        } else {
            idle_task(Need::Nothing)
        }
    }

    /// Lists the activity that the filters let through.
    pub fn filter_activity(&mut self, all: &Vec<Revision>, now: u64)
        ensures
            final(self)@ == activity_filtered(old(self)@, all_views(all@), now),
    {
        let found: Vec<Revision> = filter_revisions(&self.filters, all, now);
        assert(all_views(all@).len() == all@.len());
        self.activity = sort_newest_first(&found);
        self.activity_index = 0;
        self.activity_offset = 0;
        self.mode = Mode::Activity;
    }

    /// Tags the selected revision with what was typed.
    pub fn tag(&mut self) -> (r: Need)
        ensures
            (final(self)@, r@) == tag_wanted(old(self)@),
    {
        let text: String = trim(self.input.as_str());
        if chars_of(text.as_str()).len() == 0 {
            self.status = "Tag cannot be empty".to_owned();
            return Need::Nothing;
        }
        let target: Option<Revision> = match self.selected_revision() {
            Some(r) => Some(r.clone()),
            None => None,
        };
        Need::Tag { target, text }
    }

    /// Expands or collapses the directory on the selected line.
    pub fn toggle_tree(&mut self, expand: bool, now: u64, cwd: &str)
        ensures
            final(self)@ == tree_toggled(old(self)@, expand, now, cwd@),
    {
        let directory: String = match self.selected_tree() {
            Some(node) => if node.directory {
                node.path.clone()
            } else {
                parent_or_root(node.path.as_str())
            },
            None => {
                return;
            },
        };
        if expand {
            insert_path(&mut self.expanded, directory.as_str());
        } else {
            assert(self@.expanded.len() == self.expanded@.len());
            self.expanded = remove_path(&self.expanded, directory.as_str());
        }
        self.tree = make_tree(&self.files, &self.expanded, &self.activity, now, cwd);
        self.tree_index = find_node(&self.tree, directory.as_str());
    }

    /// Restores the selected revision.
    pub fn restore(&self) -> (r: Need)
        ensures
            r@ == restore_wanted(self@),
    {
        match self.selected_revision() {
            Some(r) => Need::Restore { revision: r.clone(), rendered: self.restore_rendered },
            None => Need::Nothing,
        }
    }

    fn take_restore(&mut self, number: u64, made: &CreatedRevision)
        ensures
            final(self)@ == restored(old(self)@, number, made@),
    {
        let mut status: String = "Restored revision ".to_owned();
        status.append(to_decimal(number).as_str());
        status.append(" as revision ");
        status.append(to_decimal(made.number).as_str());
        match &made.mirror_warning {
            Some(w) => {
                status.append("; warning: ");
                status.append(w.as_str());
            },
            None => {},
        }
        self.status = status;
        self.mode = Mode::Main;
    }

    /// Goes back from a view.
    pub fn back(&mut self)
        ensures
            final(self)@ == gone_back(old(self)@),
    {
        self.mode = if self.mode == Mode::Inspect {
            self.back_mode
        } else {
            Mode::Main
        };
    }

    fn page(&mut self, down: bool)
        ensures
            final(self)@ == paged(old(self)@, down),
    {
        match self.mode {
            Mode::Inspect => {
                self.inspect_scroll = if down {
                    down_by(self.inspect_scroll, 10)
                } else {
                    up_by(self.inspect_scroll, 10)
                };
            },
            Mode::SearchResults => {
                let index: usize = if down {
                    last_at_most(self.search_index, 10, self.search_results.len())
                } else {
                    minus(self.search_index, 10)
                };
                assert(self@.search_results.len() == self.search_results.len());
                self.show_result(index);
            },
            Mode::Activity => {
                let index: usize = if down {
                    last_at_most(self.activity_index, 10, self.activity.len())
                } else {
                    minus(self.activity_index, 10)
                };
                assert(self@.activity.len() == self.activity.len());
                self.show_activity(index);
            },
            _ => {
                self.diff_scroll = if down {
                    down_by(self.diff_scroll, 10)
                } else {
                    up_by(self.diff_scroll, 10)
                };
            },
        }
    }

    /// A page down.
    pub fn page_down(&mut self)
        ensures
            final(self)@ == paged(old(self)@, true),
    {
        self.page(true);
    }

    /// A page up.
    pub fn page_up(&mut self)
        ensures
            final(self)@ == paged(old(self)@, false),
    {
        self.page(false);
    }

    /// Scrolls to the next hunk of the diff.
    pub fn next_hunk(&mut self)
        ensures
            final(self)@ == scrolled_to(
                old(self)@,
                hunk_from(line_seq(old(self)@.diff), old(self)@.diff_scroll + 1),
            ),
    {
        let all: Vec<String> = lines(self.diff.as_str());
        let ghost a = line_seq(self.diff@);
        let start: usize = self.diff_scroll as usize + 1;
        let mut i: usize = start;
        while i < all.len()
            invariant
                start <= i,
                a == views(all@),
                self@ == old(self)@,
                start == old(self)@.diff_scroll + 1,
                a == line_seq(old(self)@.diff),
                hunk_from(a, start as int) == hunk_from(a, i as int),
            decreases all.len() - i,
        {
            assert(a[i as int] == all@[i as int]@);
            if starts_with(all[i].as_str(), "@@") {
                self.diff_scroll = if i > 65535 {
                    65535
                } else {
                    i as u16
                };
                return;
            }
            i += 1;
        }
    }

    /// Scrolls to the previous hunk of the diff.
    pub fn previous_hunk(&mut self)
        ensures
            final(self)@ == scrolled_to(
                old(self)@,
                hunk_before(line_seq(old(self)@.diff), old(self)@.diff_scroll as int),
            ),
    {
        let all: Vec<String> = lines(self.diff.as_str());
        let ghost a = line_seq(self.diff@);
        assert(a.len() == all@.len());
        let mut n: usize = self.diff_scroll as usize;
        while n > 0
            invariant
                a == views(all@),
                a.len() == all@.len(),
                n <= 65535,
                self@ == old(self)@,
                hunk_before(a, old(self)@.diff_scroll as int) == hunk_before(a, n as int),
                a == line_seq(old(self)@.diff),
            decreases n,
        {
            if n <= all.len() {
                assert(a[n - 1] == all@[n - 1]@);
                if starts_with(all[n - 1].as_str(), "@@") {
                    self.diff_scroll = (n - 1) as u16;
                    return;
                }
            }
            n -= 1;
        }
    }

    /// What the header of the diff says.
    pub fn diff_header(&self) -> (r: String)
        ensures
            r@ == comparison_label(self@),
    {
        let selected: Option<u64> = match self.selected_revision() {
            Some(r) => Some(r.number),
            None => None,
        };
        let left: Option<u64> = match self.marked_revision {
            Some(n) => Some(n),
            None => selected,
        };
        match left {
            Some(l) => {
                let mut out: String = "rev ".to_owned();
                out.append(to_decimal(l).as_str());
                if self.compare_current {
                    out.append(" → current");
                    out
                } else {
                    match selected {
                        Some(r) => {
                            out.append(" → rev ");
                            out.append(to_decimal(r).as_str());
                            out
                        },
                        None => "no comparison".to_owned(),
                    }
                }
            },
            None => "no comparison".to_owned(),
        }
    }
}

/// The lines of a diff behind the two that name the files.
pub open spec fn behind_names(all: Seq<Seq<char>>) -> Seq<Seq<char>> {
    if all.len() <= 2 {
        Seq::empty()
    } else {
        all.subrange(2, all.len() as int)
    }
}

/// A diff that names what it compares.
pub open spec fn diff_named(output: Seq<char>, left: Seq<char>, right: Seq<char>) -> Seq<char> {
    "--- "@ + left + "\n+++ "@ + right + "\n"@ + joined(behind_names(line_seq(output)), "\n"@)
}

/// Gives a diff the names of what it compares.
pub fn name_diff(output: &str, left_label: &str, right_label: &str) -> (r: String)
    ensures
        r@ == diff_named(output@, left_label@, right_label@),
{
    let all: Vec<String> = lines(output);
    let ghost a = line_seq(output@);
    let mut rest: Vec<String> = Vec::new();
    let mut i: usize = 2;
    assert(a.len() == all@.len());
    assert(views(rest@) =~= Seq::empty());
    while i < all.len()
        invariant
            2 <= i,
            all@.len() >= 2 ==> i <= all@.len(),
            a == views(all@),
            all@.len() >= 2 ==> views(rest@) == a.subrange(2, i as int),
            all@.len() < 2 ==> views(rest@) == Seq::<Seq<char>>::empty(),
        decreases all.len() - i,
    {
        assert(a[i as int] == all@[i as int]@);
        rest.push(all[i].clone());
        assert(views(rest@) =~= a.subrange(2, i + 1));
        i += 1;
    }
    assert(views(rest@) =~= behind_names(a));
    let mut out: String = "--- ".to_owned();
    out.append(left_label);
    out.append("\n+++ ");
    out.append(right_label);
    out.append("\n");
    out.append(join(&rest, "\n").as_str());
    out
}

/// What comes of a run of `diff`: its exit code, where it exited, and what it wrote.
pub fn unified_diff(
    code: Option<i32>,
    stdout: &Vec<u8>,
    left_label: &str,
    right_label: &str,
) -> (r: Result<String, Failure>)
    ensures
        match r {
            Ok(s) => !(code matches Some(c) && c > 1) && s@ == diff_named(
                lossy_text(stdout@),
                left_label@,
                right_label@,
            ),
            Err(e) => (code matches Some(c) && c > 1) && e@ == fails(
                FailureKind::Other,
                "diff failed"@,
            ),
        },
{
    match code {
        Some(c) => if c > 1 {
            return Err(Failure::new(FailureKind::Other, "diff failed"));
        },
        None => {},
    }
    Ok(name_diff(lossy(stdout).as_str(), left_label, right_label))
}

/// The name of a revision in a diff.
pub fn revision_label(number: u64) -> (r: String)
    ensures
        r@ == "rev "@ + decimal(number as nat),
{
    let mut out: String = "rev ".to_owned();
    out.append(to_decimal(number).as_str());
    out
}

/// The name of what stood before a revision in its diff.
pub fn before_label(number: u64) -> (r: String)
    ensures
        r@ == "before rev "@ + decimal(number as nat),
{
    let mut out: String = "before rev ".to_owned();
    out.append(to_decimal(number).as_str());
    out
}

/// The name of what a revision is compared to.
pub fn compared_label(compare_current: bool, number: u64) -> (r: String)
    ensures
        r@ == if compare_current {
            "current"@
        } else {
            "rev "@ + decimal(number as nat)
        },
{
    if compare_current {
        "current".to_owned()
    } else {
        revision_label(number)
    }
}

/// Whether a comparison starts from the backup of the left revision: when its content is the
/// live content already, and it changed something.
pub fn comparison_uses_backup(
    compare_current: bool,
    left: &Vec<u8>,
    right: &Vec<u8>,
    left_has_diff: bool,
) -> (r: bool)
    ensures
        r == (compare_current && left@ == right@ && left_has_diff),
{
    compare_current && left_has_diff && same_bytes(left, right)
}

/// The editor that a restored revision is recorded under.
pub fn restore_label(rendered: bool) -> (r: &'static str)
    ensures
        r@ == if rendered {
            "goto"@
        } else {
            "restore-backup"@
        },
{
    if rendered {
        "goto"
    } else {
        "restore-backup"
    }
}

/// Whether a key with the control key held ends the browser.
pub fn interrupts(key: Key, control: bool) -> (r: bool)
    ensures
        r == (control && key == Key::Char('c')),
{
    control && match key {
        Key::Char(c) => c == 'c',
        _ => false,
    }
}

/// The keys that mean something.
#[derive(Clone, Copy, Debug, PartialEq, Eq, Structural)]
pub enum Key {
    Tab,
    BackTab,
    Esc,
    Enter,
    Backspace,
    Up,
    Down,
    Left,
    Right,
    PageUp,
    PageDown,
    Char(char),
    Other,
}

/// A text without its last character.
pub open spec fn shortened(text: Seq<char>) -> Seq<char> {
    if text.len() > 0 {
        text.drop_last()
    } else {
        text
    }
}

/// The search result behind, or before, while a search is typed.
pub open spec fn typed_step(a: AppView, down: bool) -> (AppView, NeedView) {
    result_selected(
        AppView {
            search_index: if down {
                index_behind(a.search_index, a.search_results.len())
            } else {
                index_before(a.search_index, 1)
            },
            ..a
        },
    )
}

/// What a key does while a text is typed.
pub open spec fn key_typed(a: AppView, key: Key) -> (AppView, NeedView) {
    let searching = a.mode == Mode::SearchInput;
    match key {
        Key::Tab => tab_activated(a, tab_behind(a.main_tab)),
        Key::BackTab => tab_activated(a, tab_before(a.main_tab)),
        Key::Esc => (AppView { input: Seq::empty(), mode: Mode::Main, ..a }, NeedView::Nothing),
        Key::Enter => if searching {
            (a, inspection_wanted(a))
        } else {
            tag_wanted(a)
        },
        Key::Backspace => {
            let b = AppView { input: shortened(a.input), ..a };
            if searching {
                typed_search(b)
            } else {
                (b, NeedView::Nothing)
            }
        },
        Key::Char(c) => {
            let b = AppView { input: a.input.push(c), ..a };
            if searching {
                typed_search(b)
            } else {
                (b, NeedView::Nothing)
            }
        },
        Key::Up | Key::PageUp => if searching {
            typed_step(a, false)
        } else {
            (a, NeedView::Nothing)
        },
        Key::Down | Key::PageDown => if searching {
            typed_step(a, true)
        } else {
            (a, NeedView::Nothing)
        },
        _ => (a, NeedView::Nothing),
    }
}

/// What a key does while filters are typed.
pub open spec fn key_filtering(a: AppView, key: Key) -> (AppView, NeedView) {
    match key {
        Key::Esc => (AppView { mode: a.filter_origin, ..a }, NeedView::Nothing),
        Key::Enter => if a.filter_origin == Mode::SearchInput || a.filter_origin
            == Mode::SearchResults {
            search_wanted(a, false)
        } else if a.filter_origin == Mode::Activity {
            (a, NeedView::FilterActivity)
        } else {
            (
                AppView {
                    mode: Mode::Main,
                    status: "Filters saved; use / or H to apply"@,
                    ..a
                },
                NeedView::Nothing,
            )
        },
        Key::Tab | Key::Down => (
            AppView { filter_field: field_behind(a.filter_field), ..a },
            NeedView::Nothing,
        ),
        Key::Backspace => (
            AppView {
                filters: with_field(
                    a.filters,
                    a.filter_field,
                    shortened(field_text(a.filters, a.filter_field)),
                ),
                ..a
            },
            NeedView::Nothing,
        ),
        Key::Char(c) => (
            AppView {
                filters: with_field(
                    a.filters,
                    a.filter_field,
                    field_text(a.filters, a.filter_field).push(c),
                ),
                ..a
            },
            NeedView::Nothing,
        ),
        _ => (a, NeedView::Nothing),
    }
}

/// What a key does while a restore waits for a yes or a no.
pub open spec fn key_confirming(a: AppView, key: Key) -> (AppView, NeedView) {
    if key == Key::Enter || key == Key::Char('y') {
        (a, restore_wanted(a))
    } else if key == Key::Esc || key == Key::Char('n') {
        (AppView { mode: Mode::Main, status: "Cancelled"@, ..a }, NeedView::Nothing)
    } else {
        (a, NeedView::Nothing)
    }
}

/// Whether the selected line of the tree is a directory.
pub open spec fn on_directory(a: AppView) -> bool {
    node_selected(a) matches Some(node) && node.directory
}

/// What going left does.
pub open spec fn gone_left(a: AppView, now: u64, cwd: Seq<char>) -> AppView {
    if a.main_tab != MainTab::ReposFiles {
        AppView { panel: Panel::History, ..a }
    } else if a.panel == Panel::Files {
        tree_toggled(a, false, now, cwd)
    } else {
        AppView {
            panel: if a.panel == Panel::Diff {
                Panel::History
            } else {
                Panel::Files
            },
            ..a
        }
    }
}

/// What going right does.
pub open spec fn gone_right(a: AppView, now: u64, cwd: Seq<char>) -> AppView {
    if a.main_tab != MainTab::ReposFiles {
        AppView { panel: Panel::Diff, ..a }
    } else if a.panel == Panel::Files && on_directory(a) {
        tree_toggled(a, true, now, cwd)
    } else {
        AppView {
            panel: if a.panel == Panel::Files {
                Panel::History
            } else {
                Panel::Diff
            },
            ..a
        }
    }
}

/// What the enter key does in the views.
pub open spec fn entered(a: AppView, now: u64, cwd: Seq<char>) -> Step {
    match a.mode {
        Mode::SearchResults => search_jumped(a),
        Mode::Activity => activity_jumped(a),
        Mode::Main => if a.main_tab == MainTab::ReposFiles && a.panel == Panel::Files
            && on_directory(a) {
            idle(
                tree_toggled(
                    a,
                    !holds_path(a.expanded, a.tree[a.tree_index as int].path),
                    now,
                    cwd,
                ),
            )
        } else {
            waits(a, inspection_wanted(a), After::Done)
        },
        _ => idle(a),
    }
}

/// What the filter key does.
pub open spec fn filter_key(a: AppView) -> (AppView, NeedView) {
    if a.main_tab == MainTab::Timeline && a.mode == Mode::Main {
        let b = AppView { timeline_changes_only: !a.timeline_changes_only, ..a };
        timeline_selected(
            AppView { timeline_index: at_most_last(a.timeline_index as int, visible(b).len()), ..b },
        )
    } else {
        (AppView { filter_origin: a.mode, mode: Mode::Filters, ..a }, NeedView::Nothing)
    }
}

/// What a page key does in the views.
pub open spec fn page_key(a: AppView, down: bool) -> (AppView, NeedView) {
    if a.mode == Mode::SearchResults {
        result_selected(paged(a, down))
    } else {
        (paged(a, down), NeedView::Nothing)
    }
}

/// What a letter does in the views.
pub open spec fn letter_pressed(a: AppView, c: char, now: u64, cwd: Seq<char>) -> (AppView, NeedView) {
    if c == 'q' {
        (
            if a.mode == Mode::Main {
                AppView { quit: true, ..a }
            } else {
                gone_back(a)
            },
            NeedView::Nothing,
        )
    } else if c == 'k' {
        moved(a, false)
    } else if c == 'j' {
        moved(a, true)
    } else if c == 'h' {
        (gone_left(a, now, cwd), NeedView::Nothing)
    } else if c == 'l' {
        (gone_right(a, now, cwd), NeedView::Nothing)
    } else if c == 'd' {
        diff_marked(a)
    } else if c == 'c' {
        comparison_wanted(AppView { compare_current: true, ..a })
    } else if c == '/' {
        (
            AppView {
                main_tab: MainTab::Search,
                input: Seq::empty(),
                mode: Mode::SearchInput,
                ..a
            },
            NeedView::Nothing,
        )
    } else if c == 'f' {
        filter_key(a)
    } else if c == 't' {
        (AppView { input: Seq::empty(), mode: Mode::TagInput, ..a }, NeedView::Nothing)
    } else if c == 'H' {
        timeline_selected(AppView { main_tab: MainTab::Timeline, mode: Mode::Main, ..a })
    } else if c == '?' {
        (AppView { mode: Mode::Help, ..a }, NeedView::Nothing)
    } else if c == 'r' {
        (
            AppView { restore_rendered: false, mode: Mode::ConfirmRestore, ..a },
            NeedView::Nothing,
        )
    } else if c == 'g' {
        (AppView { restore_rendered: true, mode: Mode::ConfirmRestore, ..a }, NeedView::Nothing)
    } else if c == 'n' {
        (scrolled_to(a, hunk_from(line_seq(a.diff), a.diff_scroll + 1)), NeedView::Nothing)
    } else if c == 'N' {
        (scrolled_to(a, hunk_before(line_seq(a.diff), a.diff_scroll as int)), NeedView::Nothing)
    } else {
        (a, NeedView::Nothing)
    }
}

/// What a key does in the views.
pub open spec fn key_viewing(a: AppView, key: Key, now: u64, cwd: Seq<char>) -> (AppView, NeedView) {
    match key {
        Key::Tab => tab_activated(a, tab_behind(a.main_tab)),
        Key::BackTab => tab_activated(a, tab_before(a.main_tab)),
        Key::Esc => (gone_back(a), NeedView::Nothing),
        Key::Up => moved(a, false),
        Key::Down => moved(a, true),
        Key::Left => (gone_left(a, now, cwd), NeedView::Nothing),
        Key::Right => (gone_right(a, now, cwd), NeedView::Nothing),
        Key::PageDown => page_key(a, true),
        Key::PageUp => page_key(a, false),
        Key::Char(c) => letter_pressed(a, c, now, cwd),
        _ => (a, NeedView::Nothing),
    }
}

/// What a key does.
pub open spec fn key_pressed(a: AppView, key: Key, now: u64, cwd: Seq<char>) -> Step {
    if a.mode == Mode::SearchInput || a.mode == Mode::TagInput {
        waits(key_typed(a, key).0, key_typed(a, key).1, After::Done)
    } else if a.mode == Mode::Filters {
        waits(key_filtering(a, key).0, key_filtering(a, key).1, After::Done)
    } else if a.mode == Mode::ConfirmRestore {
        waits(key_confirming(a, key).0, key_confirming(a, key).1, After::Done)
    } else if key == Key::Enter {
        entered(a, now, cwd)
    } else {
        waits(key_viewing(a, key, now, cwd).0, key_viewing(a, key, now, cwd).1, After::Done)
    }
}

fn shorten(text: &str) -> (r: String)
    ensures
        r@ == shortened(text@),
{
    let x: Vec<char> = chars_of(text);
    if x.len() > 0 {
        let r: String = text_of(&x, 0, x.len() - 1);
        assert(r@ =~= text@.drop_last());
        r
    } else {
        text.to_owned()
    }
}

impl App {
    fn key_in_text(&mut self, key: Key) -> (r: Need)
        ensures
            (final(self)@, r@) == key_typed(old(self)@, key),
    {
        let searching: bool = self.mode == Mode::SearchInput;
        match key {
            Key::Tab => self.next_tab(),
            Key::BackTab => self.previous_tab(),
            Key::Esc => {
                self.input = String::new();
                self.mode = Mode::Main;
                Need::Nothing
            },
            Key::Enter => if searching {
                self.inspect_selected()
            } else {
                self.tag()
            },
            Key::Backspace => {
                self.input = shorten(self.input.as_str());
                if searching {
                    self.update_incremental_search()
                } else {
                    Need::Nothing
                }
            },
            Key::Char(c) => {
                self.input.push(c);
                if searching {
                    self.update_incremental_search()
                } else {
                    Need::Nothing
                }
            },
            Key::Up | Key::PageUp => if searching {
                self.search_index = minus(self.search_index, 1);
                self.select_search_result()
            } else {
                Need::Nothing
            },
            Key::Down | Key::PageDown => if searching {
                assert(self@.search_results.len() == self.search_results.len());
                self.search_index = next(self.search_index, self.search_results.len());
                self.select_search_result()
            } else {
                Need::Nothing
            },
            _ => Need::Nothing,
        }
    }

    fn key_in_filters(&mut self, key: Key) -> (r: Need)
        ensures
            (final(self)@, r@) == key_filtering(old(self)@, key),
    {
        match key {
            Key::Esc => {
                self.mode = self.filter_origin;
                Need::Nothing
            },
            Key::Enter => {
                if self.filter_origin == Mode::SearchInput || self.filter_origin
                    == Mode::SearchResults {
                    self.search()
                } else if self.filter_origin == Mode::Activity {
                    Need::FilterActivity
                } else {
                    self.mode = Mode::Main;
                    self.status = "Filters saved; use / or H to apply".to_owned();
                    Need::Nothing
                }
            },
            Key::Tab | Key::Down => {
                self.filter_field = self.filter_field.next();
                Need::Nothing
            },
            Key::Backspace => {
                let text: String = shorten(self.filters.field(self.filter_field).as_str());
                self.filters.set_field(self.filter_field, text);
                Need::Nothing
            },
            Key::Char(c) => {
                let mut text: String = self.filters.field(self.filter_field);
                text.push(c);
                self.filters.set_field(self.filter_field, text);
                Need::Nothing
            },
            _ => Need::Nothing,
        }
    }

    fn key_in_confirmation(&mut self, key: Key) -> (r: Need)
        ensures
            (final(self)@, r@) == key_confirming(old(self)@, key),
    {
        if key == Key::Enter || key == Key::Char('y') {
            self.restore()
        } else if key == Key::Esc || key == Key::Char('n') {
            self.mode = Mode::Main;
            self.status = "Cancelled".to_owned();
            Need::Nothing
        } else {
            Need::Nothing
        }
    }

    fn selects_directory(&self) -> (r: bool)
        ensures
            r == on_directory(self@),
    {
        match self.selected_tree() {
            Some(node) => node.directory,
            None => false,
        }
    }

    fn go_left(&mut self, now: u64, cwd: &str)
        ensures
            final(self)@ == gone_left(old(self)@, now, cwd@),
    {
        if self.main_tab != MainTab::ReposFiles {
            self.panel = Panel::History;
        } else if self.panel == Panel::Files {
            self.toggle_tree(false, now, cwd);
        } else {
            self.panel = if self.panel == Panel::Diff {
                Panel::History
            } else {
                Panel::Files
            };
        }
    }

    fn go_right(&mut self, now: u64, cwd: &str)
        ensures
            final(self)@ == gone_right(old(self)@, now, cwd@),
    {
        if self.main_tab != MainTab::ReposFiles {
            self.panel = Panel::Diff;
        } else if self.panel == Panel::Files && self.selects_directory() {
            self.toggle_tree(true, now, cwd);
        } else {
            self.panel = if self.panel == Panel::Files {
                Panel::History
            } else {
                Panel::Diff
            };
        }
    }

    fn enter(&mut self, now: u64, cwd: &str) -> (r: Task)
        ensures
            (final(self)@, r@) == entered(old(self)@, now, cwd@),
    {
        match self.mode {
            Mode::SearchResults => self.jump_search(),
            Mode::Activity => self.jump_activity(),
            Mode::Main => {
                if self.main_tab == MainTab::ReposFiles && self.panel == Panel::Files
                    && self.selects_directory() {
                    assert(self@.tree[self.tree_index as int]
                        == self.tree@[self.tree_index as int]@);
                    let expand: bool = find_path(
                        &self.expanded,
                        self.tree[self.tree_index].path.as_str(),
                    ).is_none();
                    self.toggle_tree(expand, now, cwd);
                    idle_task(Need::Nothing)
                } else {
                    idle_task(self.inspect_selected())
                }
            },
            _ => idle_task(Need::Nothing),
        }
    }

    fn toggle_filter(&mut self) -> (r: Need)
        ensures
            (final(self)@, r@) == filter_key(old(self)@),
    {
        if self.main_tab == MainTab::Timeline && self.mode == Mode::Main {
            self.timeline_changes_only = !self.timeline_changes_only;
            let count: usize = self.visible_timeline().len();
            self.timeline_index = last_at_most(self.timeline_index, 0, count);
            self.select_timeline()
        } else {
            self.filter_origin = self.mode;
            self.mode = Mode::Filters;
            Need::Nothing
        }
    }

    fn turn_page(&mut self, down: bool) -> (r: Need)
        ensures
            (final(self)@, r@) == page_key(old(self)@, down),
    {
        self.page(down);
        if self.mode == Mode::SearchResults {
            self.select_search_result()
        } else {
            Need::Nothing
        }
    }

    fn press_letter(&mut self, c: char, now: u64, cwd: &str) -> (r: Need)
        ensures
            (final(self)@, r@) == letter_pressed(old(self)@, c, now, cwd@),
    {
        if c == 'q' {
            if self.mode == Mode::Main {
                self.quit = true;
            } else {
                self.back();
            }
            Need::Nothing
        } else if c == 'k' {
            self.move_up()
        } else if c == 'j' {
            self.move_down()
        } else if c == 'h' {
            self.go_left(now, cwd);
            Need::Nothing
        } else if c == 'l' {
            self.go_right(now, cwd);
            Need::Nothing
        } else if c == 'd' {
            self.mark_diff()
        } else if c == 'c' {
            self.compare_to_current()
        } else if c == '/' {
            self.main_tab = MainTab::Search;
            self.input = String::new();
            self.mode = Mode::SearchInput;
            Need::Nothing
        } else if c == 'f' {
            self.toggle_filter()
        } else if c == 't' {
            self.input = String::new();
            self.mode = Mode::TagInput;
            Need::Nothing
        } else if c == 'H' {
            self.main_tab = MainTab::Timeline;
            self.mode = Mode::Main;
            self.select_timeline()
        } else if c == '?' {
            self.mode = Mode::Help;
            Need::Nothing
        } else if c == 'r' {
            self.restore_rendered = false;
            self.mode = Mode::ConfirmRestore;
            Need::Nothing
        } else if c == 'g' {
            self.restore_rendered = true;
            self.mode = Mode::ConfirmRestore;
            Need::Nothing
        } else if c == 'n' {
            self.next_hunk();
            Need::Nothing
        } else if c == 'N' {
            self.previous_hunk();
            Need::Nothing
        } else {
            Need::Nothing
        }
    }

    fn key_in_views(&mut self, key: Key, now: u64, cwd: &str) -> (r: Need)
        ensures
            (final(self)@, r@) == key_viewing(old(self)@, key, now, cwd@),
    {
        match key {
            Key::Tab => self.next_tab(),
            Key::BackTab => self.previous_tab(),
            Key::Esc => {
                self.back();
                Need::Nothing
            },
            Key::Up => self.move_up(),
            Key::Down => self.move_down(),
            Key::Left => {
                self.go_left(now, cwd);
                Need::Nothing
            },
            Key::Right => {
                self.go_right(now, cwd);
                Need::Nothing
            },
            Key::PageDown => self.turn_page(true),
            Key::PageUp => self.turn_page(false),
            Key::Char(c) => self.press_letter(c, now, cwd),
            _ => Need::Nothing,
        }
    }

    /// What a key does.
    pub fn handle_key(&mut self, key: Key, now: u64, cwd: &str) -> (r: Task)
        ensures
            (final(self)@, r@) == key_pressed(old(self)@, key, now, cwd@),
    {
        match self.mode {
            Mode::SearchInput | Mode::TagInput => idle_task(self.key_in_text(key)),
            Mode::Filters => idle_task(self.key_in_filters(key)),
            Mode::ConfirmRestore => idle_task(self.key_in_confirmation(key)),
            _ => if key == Key::Enter {
                self.enter(now, cwd)
            } else {
                idle_task(self.key_in_views(key, now, cwd))
            },
        }
    }

    fn resume_diff(&mut self, task: Task, text: String, now: u64, cwd: &str) -> (r: Task)
        requires
            task@.need is EventDiff || task@.need is Comparison,
        ensures
            (final(self)@, r@) == resumed(old(self)@, task@, Reply::Diff(text), now, cwd@),
    {
        match task.need {
            Need::Comparison { left, right, compare_current } => {
                let need: Need = self.take_comparison(&right, text);
                self.settle(need, task.after)
            },
            _ => {
                self.diff = text;
                self.land(task.after)
            },
        }
    }

    fn resume_kind(&mut self, task: Task, kind: EventKind, now: u64, cwd: &str) -> (r: Task)
        requires
            task@.need is HitKind || task@.need is ComparedKind,
        ensures
            (final(self)@, r@) == resumed(old(self)@, task@, Reply::Kind(kind), now, cwd@),
    {
        match task.need {
            Need::HitKind(revision) => {
                let need: Need = self.show_hit(&revision, kind);
                self.settle(need, task.after)
            },
            Need::ComparedKind(revision) => {
                self.selected_item = Some(SelectedHistoryItem { revision, kind });
                self.land(task.after)
            },
            _ => idle_task(Need::Nothing),
        }
    }

    fn resume_revisions(&mut self, task: Task, all: Vec<Revision>, now: u64, cwd: &str) -> (r: Task)
        requires
            task@.need is FindHit || task@.need is SearchAll || task@.need is FilterActivity,
        ensures
            (final(self)@, r@) == resumed(old(self)@, task@, Reply::Revisions(all), now, cwd@),
    {
        match task.need {
            Need::FindHit => {
                let need: Need = self.look_up_hit(&all);
                self.settle(need, task.after)
            },
            Need::SearchAll { incremental } => {
                let revisions: Vec<Revision> = filter_revisions(&self.filters, &all, now);
                Task { need: Need::Contents { revisions, incremental }, after: task.after }
            },
            _ => {
                self.filter_activity(&all, now);
                idle_task(Need::Nothing)
            },
        }
    }

    fn resume_scan(
        &mut self,
        task: Task,
        all: Vec<Revision>,
        kinds: Result<Vec<EventKind>, Failure>,
        now: u64,
        cwd: &str,
    ) -> (r: Task)
        requires
            task@.need is Rescan,
            kinds matches Ok(k) ==> k@.len() == all@.len(),
        ensures
            (final(self)@, r@) == resumed(
                old(self)@,
                task@,
                (Reply::Scan { all, kinds }),
                now,
                cwd@,
            ),
    {
        match &kinds {
            Ok(k) => {
                let need: Need = self.refresh(&all, k, now, cwd);
                self.settle(need, task.after)
            },
            Err(f) => {
                self.refresh_files(&all);
                self.record_error(f);
                idle_task(Need::Nothing)
            },
        }
    }

    fn resume_contents(&mut self, task: Task, list: Vec<RevisionContent>, now: u64, cwd: &str) -> (r:
        Task)
        requires
            answers_need(task@.need, Reply::Contents(list)),
            old(self)@.input.len() > 0,
        ensures
            (final(self)@, r@) == resumed(old(self)@, task@, Reply::Contents(list), now, cwd@),
    {
        match task.need {
            Need::Contents { revisions, incremental } => {
                let (found, failure): (Vec<SearchResult>, Option<Failure>) = search_contents(
                    self.input.as_str(),
                    &revisions,
                    &list,
                );
                assert(all_views(revisions@).len() == revisions@.len());
                match failure {
                    Some(f) => {
                        self.search_results = found;
                        self.record_error(&f);
                        idle_task(Need::Nothing)
                    },
                    None => {
                        let need: Need = self.take_results(&found, incremental);
                        self.settle(need, task.after)
                    },
                }
            },
            _ => idle_task(Need::Nothing),
        }
    }

    fn resume_restore(&mut self, task: Task, made: CreatedRevision, now: u64, cwd: &str) -> (r: Task)
        requires
            task@.need is Restore,
        ensures
            (final(self)@, r@) == resumed(old(self)@, task@, Reply::Restored(made), now, cwd@),
    {
        match task.need {
            Need::Restore { revision, rendered } => {
                self.take_restore(revision.number, &made);
                Task { need: Need::Rescan, after: After::LandRestore(made.number) }
            },
            _ => idle_task(Need::Nothing),
        }
    }

    /// Takes in the reply to what the browser waited for.
    pub fn resume(&mut self, task: Task, reply: Reply, now: u64, cwd: &str) -> (r: Task)
        requires
            answers_need(task@.need, reply),
            task@.need is Contents ==> old(self)@.input.len() > 0,
        ensures
            (final(self)@, r@) == resumed(old(self)@, task@, reply, now, cwd@),
    {
        match reply {
            Reply::Failed(f) => {
                self.record_error(&f);
                idle_task(Need::Nothing)
            },
            Reply::Diff(text) => self.resume_diff(task, text, now, cwd),
            Reply::Kind(kind) => self.resume_kind(task, kind, now, cwd),
            Reply::Revisions(all) => self.resume_revisions(task, all, now, cwd),
            Reply::Scan { all, kinds } => self.resume_scan(task, all, kinds, now, cwd),
            Reply::Contents(list) => self.resume_contents(task, list, now, cwd),
            Reply::Bytes(bytes) => {
                self.inspect = lossy(&bytes);
                self.back_mode = self.mode;
                self.inspect_scroll = 0;
                self.mode = Mode::Inspect;
                idle_task(Need::Nothing)
            },
            Reply::Done => {
                self.input = String::new();
                self.mode = Mode::Main;
                self.status = "Tag saved".to_owned();
                idle_task(Need::Rescan)
            },
            Reply::Restored(made) => self.resume_restore(task, made, now, cwd),
        }
    }
}

/// A failure outside is shown in the main view, and the browser goes on with what it had.
pub proof fn law_failure_is_survived(a: AppView, t: TaskView, f: Failure, now: u64, cwd: Seq<char>)
    ensures
        resumed(a, t, Reply::Failed(f), now, cwd) == idle(
            AppView { status: "Error: "@ + f.message@, mode: Mode::Main, ..a },
        ),
{
}

/// Going through the tabs loses nothing: what was typed, found and selected in each of them stays.
pub proof fn law_tabs_keep_their_state(a: AppView, tab: MainTab)
    ensures
        ({
            let b = tab_activated(a, tab).0;
            &&& b.main_tab == tab
            &&& b.files == a.files && b.revisions == a.revisions && b.tree == a.tree
            &&& b.file_index == a.file_index && b.tree_index == a.tree_index
            &&& b.revision_index == a.revision_index && b.timeline_index == a.timeline_index
            &&& b.activity_index == a.activity_index && b.search_index == a.search_index
            &&& b.input == a.input && b.search_results == a.search_results
            &&& b.expanded == a.expanded && b.filters == a.filters
            &&& b.tree_offset == a.tree_offset && b.history_offset == a.history_offset
            &&& b.quit == a.quit
        }),
{
}

/// An inspection ends where it began: only what was inspected is left of it.
pub proof fn law_inspection_returns(a: AppView, content: Seq<char>)
    ensures
        gone_back(inspected(a, content)) == (AppView {
            inspect: content,
            inspect_scroll: 0,
            back_mode: a.mode,
            ..a
        }),
{
}

/// Whether a need changes something outside.
pub open spec fn is_change(need: NeedView) -> bool {
    need is Restore || need is Tag
}

proof fn lemma_selection_reads(a: AppView)
    ensures
        !is_change(timeline_selected(a).1),
        !is_change(comparison_wanted(a).1),
        !is_change(result_selected(a).1),
        !is_change(inspection_wanted(a)),
        !is_change(tree_file_selected(a).1),
{
}

proof fn lemma_tab_reads(a: AppView, tab: MainTab)
    ensures
        !is_change(tab_activated(a, tab).1),
{
    let b = AppView {
        main_tab: tab,
        mode: if tab == MainTab::Search {
            Mode::SearchInput
        } else {
            Mode::Main
        },
        ..a
    };
    lemma_selection_reads(b);
}

proof fn lemma_move_reads(a: AppView, down: bool)
    ensures
        !is_change(moved(a, down).1),
{
}

proof fn lemma_letter_reads(a: AppView, c: char, now: u64, cwd: Seq<char>)
    ensures
        !is_change(letter_pressed(a, c, now, cwd).1),
{
    lemma_move_reads(a, true);
    lemma_move_reads(a, false);
}

proof fn lemma_view_reads(a: AppView, key: Key, now: u64, cwd: Seq<char>)
    ensures
        !is_change(key_viewing(a, key, now, cwd).1),
        !is_change(entered(a, now, cwd).1.need),
{
    lemma_tab_reads(a, tab_behind(a.main_tab));
    lemma_tab_reads(a, tab_before(a.main_tab));
    lemma_move_reads(a, true);
    lemma_move_reads(a, false);
    lemma_selection_reads(paged(a, true));
    lemma_selection_reads(paged(a, false));
    match key {
        Key::Char(c) => lemma_letter_reads(a, c, now, cwd),
        _ => {},
    }
}

/// Nothing is restored without a yes, nothing is tagged that was not typed, and nothing else is
/// written at all.
pub proof fn law_only_confirmed_changes(a: AppView, key: Key, now: u64, cwd: Seq<char>)
    ensures
        key_pressed(a, key, now, cwd).1.need is Restore ==> a.mode == Mode::ConfirmRestore && (key
            == Key::Enter || key == Key::Char('y')),
        key_pressed(a, key, now, cwd).1.need is Tag ==> a.mode == Mode::TagInput && key
            == Key::Enter,
{
    lemma_view_reads(a, key, now, cwd);
    lemma_tab_reads(a, tab_behind(a.main_tab));
    lemma_tab_reads(a, tab_before(a.main_tab));
}

/// While a search is typed every character is part of it, and none of them ends the browser or
/// opens anything.
pub proof fn law_search_takes_every_character(a: AppView, c: char, now: u64, cwd: Seq<char>)
    requires
        a.mode == Mode::SearchInput,
    ensures
        ({
            let s = key_pressed(a, Key::Char(c), now, cwd);
            &&& s.0.input == a.input.push(c)
            &&& s.0.quit == a.quit
            &&& s.1.need == NeedView::SearchAll { incremental: true }
        }),
{
}

/// A directory that is expanded holds, and one that is collapsed does not.
pub proof fn law_toggled_directory(list: Seq<Seq<char>>, path: Seq<char>, other: Seq<char>)
    ensures
        holds_path(with_path(list, path), path),
        !holds_path(without_path(list, list.len() as int, path), path),
        !same_path_text(other, path) ==> holds_path(
            without_path(list, list.len() as int, path),
            other,
        ) == holds_path(list, other),
{
    crate::browse::lemma_with_path(list, path);
    crate::browse::lemma_without_path(list, list.len() as int, path, other);
}

/// Moving the selection goes to the next entry, or to the one before, and stays at the ends of the
/// list; moving by more goes as far as there are entries.
pub proof fn law_selection_moves_by_one(index: usize, len: nat, by: int)
    requires
        len <= usize::MAX,
        0 <= by,
    ensures
        index + 1 < len ==> index_behind(index, len) == index + 1,
        len > 0 && index + 1 >= len ==> index_behind(index, len) == len - 1,
        index >= by ==> index_before(index, by) == index - by,
        index < by ==> index_before(index, by) == 0,
        index + by < len ==> at_most_last(index + by, len) == index + by,
        len > 0 ==> at_most_last(index + by, len) < len,
        len > 0 && index + by >= len ==> at_most_last(index + by, len) == len - 1,
        len == 0 ==> at_most_last(index + by, len) == 0,
{
}

/// What a step down or up moves is the list that is shown: the results, the recent changes, the
/// timeline, the tree or the history; where a text is shown it scrolls by a line. Nothing else of
/// what is selected changes.
pub proof fn law_step_moves_what_is_shown(a: AppView, down: bool)
    requires
        a.search_results.len() <= usize::MAX,
        a.activity.len() <= usize::MAX,
        a.revisions.len() <= usize::MAX,
        a.tree.len() <= usize::MAX,
        visible(a).len() <= usize::MAX,
    ensures
        ({
            let b = moved(a, down).0;
            let goes = |from: usize, to: usize, len: nat|
                if down {
                    to == if from + 1 < len {
                        from + 1
                    } else if len > 0 {
                        len - 1
                    } else {
                        0
                    }
                } else {
                    to == if from > 0 {
                        from - 1
                    } else {
                        0
                    }
                };
            let listed = a.mode == Mode::Main && a.main_tab != MainTab::Timeline;
            &&& a.mode == Mode::SearchResults ==> goes(
                a.search_index,
                b.search_index,
                a.search_results.len(),
            )
            &&& a.mode != Mode::SearchResults ==> b.search_index == a.search_index
            &&& a.mode == Mode::Activity ==> goes(
                a.activity_index,
                b.activity_index,
                a.activity.len(),
            )
            &&& a.mode != Mode::Activity ==> b.activity_index == a.activity_index
            &&& a.mode == Mode::Main && a.main_tab == MainTab::Timeline ==> goes(
                a.timeline_index,
                b.timeline_index,
                visible(a).len(),
            )
            &&& !(a.mode == Mode::Main && a.main_tab == MainTab::Timeline) ==> b.timeline_index
                == a.timeline_index
            &&& listed && a.panel == Panel::Files ==> goes(a.tree_index, b.tree_index, a.tree.len())
            &&& listed && a.panel == Panel::History ==> goes(
                a.revision_index,
                b.revision_index,
                a.revisions.len(),
            )
            &&& !(listed && a.panel == Panel::Files) ==> b.tree_index == a.tree_index
                && b.file_index == a.file_index
            &&& a.mode == Mode::Inspect ==> b.inspect_scroll == if down {
                if a.inspect_scroll < u16::MAX {
                    a.inspect_scroll + 1
                } else {
                    a.inspect_scroll as int
                }
            } else if a.inspect_scroll > 0 {
                a.inspect_scroll - 1
            } else {
                0
            }
            &&& b.mode == a.mode && b.main_tab == a.main_tab && b.panel == a.panel
        }),
{
}

/// Stepping through the tree selects the file that is stepped on, and its latest revision.
pub proof fn law_file_of_the_tree_is_selected(a: AppView)
    requires
        a.files.len() <= usize::MAX,
        a.tree_index < a.tree.len(),
        !a.tree[a.tree_index as int].directory,
        names_path(a.files, a.tree[a.tree_index as int].path),
    ensures
        ({
            let b = tree_file_selected(a).0;
            &&& file_selected(b) matches Some(path) && same_path_text(
                path,
                a.tree[a.tree_index as int].path,
            )
            &&& b.revision_index == 0 && tree_file_selected(a).1 is Rescan
        }),
{
    law_place_of_a_path(a.files, a.tree[a.tree_index as int].path, 0);
}

/// The next hunk is the first heading of one from a line on, and the one before is the last heading
/// above it; a heading begins with two at signs.
pub proof fn law_hunks_are_found(lines: Seq<Seq<char>>, from: int)
    requires
        0 <= from,
    ensures
        match hunk_from(lines, from) {
            Some(i) => from <= i < lines.len() && starts_hunk(lines[i]) && forall|j: int|
                from <= j < i ==> !starts_hunk(#[trigger] lines[j]),
            None => forall|j: int| from <= j < lines.len() ==> !starts_hunk(#[trigger] lines[j]),
        },
    decreases lines.len() - from,
{
    if from < lines.len() && !starts_hunk(lines[from]) {
        law_hunks_are_found(lines, from + 1);
    }
}

/// The hunk before a line is the last heading above it.
pub proof fn law_earlier_hunks_are_found(lines: Seq<Seq<char>>, n: int, line: Seq<char>)
    requires
        0 <= n,
    ensures
        match hunk_before(lines, n) {
            Some(i) => 0 <= i < n && i < lines.len() && starts_hunk(lines[i]) && forall|j: int|
                i < j < n && j < lines.len() ==> !starts_hunk(#[trigger] lines[j]),
            None => forall|j: int|
                0 <= j < n && j < lines.len() ==> !starts_hunk(#[trigger] lines[j]),
        },
        starts_hunk(line) <==> line.len() >= 2 && line[0] == '@' && line[1] == '@',
    decreases n,
{
    reveal_strlit("@@");
    if line.len() >= 2 {
        assert(line.subrange(0, 2)[0] == line[0] && line.subrange(0, 2)[1] == line[1]);
        if line[0] == '@' && line[1] == '@' {
            assert(line.subrange(0, 2) =~= "@@"@);
        }
    }
    if n > 0 && !(n <= lines.len() && starts_hunk(lines[n - 1])) {
        law_earlier_hunks_are_found(lines, n - 1, line);
    }
}

/// A letter does what it stands for: one jumps to the next hunk and one to the hunk before; a goto
/// and a restore ask first, and remember which of the two it is; a search begins with nothing typed.
pub proof fn law_letters_do_what_they_stand_for(a: AppView, now: u64, cwd: Seq<char>)
    ensures
        ({
            let press = |c: char| letter_pressed(a, c, now, cwd).0;
            let lines = line_seq(a.diff);
            &&& press('g').mode == Mode::ConfirmRestore && press('g').restore_rendered
            &&& press('r').mode == Mode::ConfirmRestore && !press('r').restore_rendered
            &&& press('t').mode == Mode::TagInput && press('t').input.len() == 0
            &&& press('/').mode == Mode::SearchInput && press('/').main_tab == MainTab::Search
                && press('/').input.len() == 0
            &&& press('?').mode == Mode::Help
            &&& press('H').main_tab == MainTab::Timeline && press('H').mode == Mode::Main
            &&& press('q').quit <==> a.quit || a.mode == Mode::Main
            &&& press('j') == moved(a, true).0 && press('k') == moved(a, false).0
            &&& press('c').compare_current
            &&& hunk_from(lines, a.diff_scroll + 1) matches Some(i) ==> i <= u16::MAX ==> press(
                'n',
            ).diff_scroll == i
            &&& hunk_from(lines, a.diff_scroll + 1) is None ==> press('n') == a
            &&& hunk_before(lines, a.diff_scroll as int) matches Some(i) ==> press('N').diff_scroll
                == i
            &&& hunk_before(lines, a.diff_scroll as int) is None ==> press('N') == a
            &&& a.main_tab == MainTab::Timeline && a.mode == Mode::Main
                ==> press('f').timeline_changes_only == !a.timeline_changes_only
            &&& !(a.main_tab == MainTab::Timeline && a.mode == Mode::Main) ==> press('f').mode
                == Mode::Filters && press('f').filter_origin == a.mode
        }),
{
    let lines = line_seq(a.diff);
    law_hunks_are_found(lines, a.diff_scroll + 1);
    law_earlier_hunks_are_found(lines, a.diff_scroll as int, Seq::empty());
}

/// A confirmed restore is that of the selected revision, in the way that was asked for; a tag goes to
/// the selected revision, without the spaces around it, and an empty one is not given.
pub proof fn law_changes_are_made_to_the_selected_revision(a: AppView)
    ensures
        restore_wanted(a) matches NeedView::Restore { revision, rendered } ==> Some(revision)
            == revision_selected(a) && rendered == a.restore_rendered,
        restore_wanted(a) is Nothing <==> revision_selected(a) is None,
        key_confirming(a, Key::Enter).1 == restore_wanted(a),
        key_confirming(a, Key::Char('y')).1 == restore_wanted(a),
        key_confirming(a, Key::Char('n')).1 is Nothing && key_confirming(
            a,
            Key::Char('n'),
        ).0.mode == Mode::Main,
        key_confirming(a, Key::Esc).1 is Nothing && key_confirming(a, Key::Esc).0.mode
            == Mode::Main,
        tag_wanted(a).1 matches NeedView::Tag { target, text } ==> target == revision_selected(a)
            && text == trimmed(a.input) && text.len() > 0,
        tag_wanted(a).1 is Nothing <==> trimmed(a.input).len() == 0,
        revision_selected(a) matches Some(r) ==> a.revision_index < a.revisions.len() && r
            == a.revisions[a.revision_index as int],
        a.revision_index < a.revisions.len() ==> revision_selected(a) is Some,
{
}

/// What is compared is the marked revision, or the selected one where none is marked, with the
/// selected one or with what is there now. Marking takes the selected revision; marking again
/// compares the two.
pub proof fn law_marked_revision_is_compared(a: AppView)
    ensures
        comparison_wanted(a).1 matches NeedView::Comparison { left, right, compare_current } ==> {
            &&& revision_selected(a) == Some(right) && compare_current == a.compare_current
            &&& left.number == match a.marked_revision {
                Some(n) => n,
                None => right.number,
            }
            &&& a.revisions.contains(left)
        },
        revision_selected(a) matches Some(r) ==> (a.marked_revision is None ==> comparison_wanted(
            a,
        ).1 is Comparison),
        revision_selected(a) matches Some(r) ==> {
            &&& a.marked_revision is None ==> diff_marked(a).0.marked_revision == Some(r.number)
            &&& a.marked_revision is Some ==> !diff_marked(a).0.compare_current && diff_marked(
                a,
            ).0.marked_revision == a.marked_revision
        },
{
    match revision_selected(a) {
        Some(right) => {
            law_place_of_a_number(a.revisions, left_number(a, right), 0);
            assert(a.revisions[a.revision_index as int] == right);
        },
        None => {},
    }
}

/// What is typed goes into the field that is chosen, at its end, and is taken away from its end; the
/// next field is chosen in turn. What is typed for a search or a tag goes into the text likewise.
pub proof fn law_typing_changes_the_chosen_text(
    a: AppView,
    c: char,
    other: FilterField,
    text: Seq<char>,
)
    ensures
        ({
            let b = key_filtering(a, Key::Char(c)).0;
            &&& field_text(b.filters, a.filter_field) == field_text(a.filters, a.filter_field).push(
                c,
            )
            &&& other != a.filter_field ==> field_text(b.filters, other) == field_text(
                a.filters,
                other,
            )
            &&& key_filtering(b, Key::Backspace).0.filters == a.filters
            &&& key_filtering(a, Key::Tab).0.filter_field == field_behind(a.filter_field)
            &&& key_filtering(a, Key::Tab).0.filters == a.filters
            &&& key_filtering(a, Key::Esc).0.mode == a.filter_origin
        }),
        shortened(text.push(c)) == text,
        shortened(Seq::empty()) == Seq::<char>::empty(),
        a.mode == Mode::TagInput ==> key_typed(a, Key::Char(c)).0.input == a.input.push(c)
            && key_typed(a, Key::Char(c)).1 is Nothing,
        a.input.len() > 0 ==> key_typed(a, Key::Backspace).0.input == a.input.drop_last(),
{
    let b = key_filtering(a, Key::Char(c)).0;
    let mine = field_text(a.filters, a.filter_field);
    assert(mine.push(c).drop_last() =~= mine);
    assert(text.push(c).drop_last() =~= text);
    assert(key_filtering(b, Key::Backspace).0.filters == with_field(
        b.filters,
        a.filter_field,
        mine,
    ));
}

/// A filter that is applied leads back to where it was opened from: a search is made again, and
/// recent changes are chosen again.
pub proof fn law_filters_are_applied_where_they_were_opened(a: AppView)
    ensures
        a.filter_origin == Mode::Activity ==> key_filtering(a, Key::Enter).1 is FilterActivity,
        (a.filter_origin == Mode::SearchInput || a.filter_origin == Mode::SearchResults)
            && a.input.len() > 0 ==> key_filtering(a, Key::Enter).1 == (NeedView::SearchAll {
            incremental: false,
        }),
        a.filter_origin == Mode::Main ==> key_filtering(a, Key::Enter).1 is Nothing
            && key_filtering(a, Key::Enter).0.mode == Mode::Main,
{
}

/// Where a text is looked for: in the content as often as it occurs, in the tag, and in the path, the
/// editor and the actor, each once.
pub proof fn law_matches_are_counted(needle: Seq<char>, r: RevisionView, content: Seq<char>)
    requires
        needle.len() > 0,
    ensures
        match_count(needle, r, content) > 0 <==> occurs(content, needle) || (r.tag matches Some(t)
            && occurs(t, needle)) || occurs(lower_case(r.access.path), lower_case(needle)) || occurs(
            lower_case(r.access.editor),
            lower_case(needle),
        ) || occurs(lower_case(r.actor), lower_case(needle)),
        match_count(needle, r, content) >= occurrences(content, needle),
        occurrences(content, needle) >= 0,
{
    law_joining_undoes_splitting(content, needle);
    if occurs(content, needle) {
        lemma_occurring_text_is_split(content, needle);
    } else {
        lemma_pieces_last(content, needle);
    }
}

proof fn lemma_occurring_text_is_split(s: Seq<char>, n: Seq<char>)
    requires
        n.len() > 0,
        occurs(s, n),
    ensures
        pieces(s, n).len() >= 2,
{
    law_joining_undoes_splitting(s, n);
    if pieces(s, n).len() == 1 {
        assert(joined(pieces(s, n), n) == pieces(s, n)[0]);
        assert(!occurs(pieces(s, n)[0], n));
    }
}

/// A search finds every revision that holds the text, in the order of the revisions, and no other,
/// with its file, number, time, editor, actor and tag.
pub proof fn law_every_matching_revision_is_found(
    needle: Seq<char>,
    rs: Seq<RevisionView>,
    contents: Seq<RevisionContent>,
    n: int,
) -> (places: Seq<int>)
    requires
        0 <= n <= rs.len(),
        contents.len() == rs.len(),
        forall|i: int|
            0 <= i < n ==> (#[trigger] contents[i]).rendered is Ok && contents[i].kind is Ok,
    ensures
        results_part(needle, rs, contents, n).failure is None,
        places.len() == results_part(needle, rs, contents, n).results.len(),
        forall|i: int|
            0 <= i < n ==> (places.contains(i) <==> match_count(
                needle,
                #[trigger] rs[i],
                lossy_text(contents[i].rendered->Ok_0@),
            ) > 0),
        forall|i: int, j: int| 0 <= i < j < places.len() ==> #[trigger] places[i] < #[trigger] places[j],
        forall|i: int| 0 <= i < places.len() ==> 0 <= #[trigger] places[i] < n,
        forall|i: int|
            0 <= i < places.len() ==> {
                let found = results_part(needle, rs, contents, n).results[i];
                let r = rs[#[trigger] places[i]];
                found.path == r.access.path && found.revision == r.number && found.epoch
                    == r.access.epoch && found.editor == r.access.editor && found.actor == r.actor
                    && found.tag == r.tag && found.kind == contents[places[i]].kind->Ok_0
            },
    decreases n,
{
    if n == 0 {
        Seq::empty()
    } else {
        let before = law_every_matching_revision_is_found(needle, rs, contents, n - 1);
        let text = lossy_text(contents[n - 1].rendered->Ok_0@);
        let found = results_part(needle, rs, contents, n).results;
        let early = results_part(needle, rs, contents, n - 1).results;
        if match_count(needle, rs[n - 1], text) > 0 {
            let places = before.push(n - 1);
            assert(found == early.push(result_of(needle, rs[n - 1], text, contents[n - 1].kind->Ok_0)));
            assert forall|i: int| 0 <= i < n implies (places.contains(i) <==> match_count(
                needle,
                #[trigger] rs[i],
                lossy_text(contents[i].rendered->Ok_0@),
            ) > 0) by {
                if i == n - 1 {
                    assert(places[before.len() as int] == i);
                } else {
                    if before.contains(i) {
                        let k = choose|k: int| 0 <= k < before.len() && before[k] == i;
                        assert(places[k] == i);
                    }
                    if places.contains(i) {
                        let k = choose|k: int| 0 <= k < places.len() && places[k] == i;
                        assert(before[k] == i);
                    }
                }
            }
            assert forall|i: int| 0 <= i < places.len() implies {
                let found = results_part(needle, rs, contents, n).results[i];
                let r = rs[#[trigger] places[i]];
                found.path == r.access.path && found.revision == r.number && found.epoch
                    == r.access.epoch && found.editor == r.access.editor && found.actor == r.actor
                    && found.tag == r.tag && found.kind == contents[places[i]].kind->Ok_0
            } by {
                if i < before.len() {
                    assert(places[i] == before[i]);
                    assert(found[i] == early[i]);
                }
            }
            places
        } else {
            assert forall|i: int| 0 <= i < n implies (before.contains(i) <==> match_count(
                needle,
                #[trigger] rs[i],
                lossy_text(contents[i].rendered->Ok_0@),
            ) > 0) by {
                if i == n - 1 && before.contains(i) {
                    let k = choose|k: int| 0 <= k < before.len() && before[k] == i;
                    assert(0 <= before[k] < n - 1);
                }
            }
            before
        }
    }
}

/// The results of a search stand by their files; those of a file stand by time, the newest first.
pub proof fn law_results_are_in_order(found: Seq<ResultView>)
    ensures
        results_in_order(found).to_multiset() == found.to_multiset(),
        forall|i: int, j: int|
            0 <= i < j < results_in_order(found).len() ==> {
                let (a, b) = (
                    #[trigger] results_in_order(found)[i],
                    #[trigger] results_in_order(found)[j],
                );
                path_less(a.path, b.path) || (same_path_text(a.path, b.path) && (a.epoch > b.epoch
                    || (a.epoch == b.epoch && a.revision >= b.revision)))
            },
{
    let keys = result_keys(found);
    law_sorting_keeps_items(found, keys);
    law_stable_order(keys);
    let places = stable_order(keys);
    let sorted = results_in_order(found);
    assert forall|i: int, j: int| 0 <= i < j < sorted.len() implies {
        let (a, b) = (#[trigger] sorted[i], #[trigger] sorted[j]);
        path_less(a.path, b.path) || (same_path_text(a.path, b.path) && (a.epoch > b.epoch || (
        a.epoch == b.epoch && a.revision >= b.revision)))
    } by {
        assert(comes_before(keys, places[i], places[j]));
        lemma_result_keys(found[places[i]], found[places[j]]);
    }
}

proof fn lemma_result_keys(a: ResultView, b: ResultView)
    requires
        key_at_most(result_key(a), result_key(b)),
    ensures
        path_less(a.path, b.path) || (same_path_text(a.path, b.path) && (a.epoch > b.epoch || (a.epoch
            == b.epoch && a.revision >= b.revision))),
{
    let (p, q) = (path_key(a.path), path_key(b.path));
    let x = seq![(u64::MAX - a.epoch) as u64, (u64::MAX - a.revision) as u64];
    let y = seq![(u64::MAX - b.epoch) as u64, (u64::MAX - b.revision) as u64];
    assert(result_key(a) =~= p + x);
    assert(result_key(b) =~= q + y);
    if key_begins(p, q) {
        law_path_keys_are_separate(a.path, b.path);
    }
    if key_begins(q, p) {
        law_path_keys_are_separate(b.path, a.path);
    }
    lemma_joined_keys(p, q, x, y);
    law_path_keys_order_paths(a.path, b.path);
    law_path_keys_are_faithful(a.path, b.path);
    if p == q && !key_less(p, q) {
        if key_less(x, y) {
            let k = choose|k: int| smaller_at(x, y, k);
            assert(k == 0 || k == 1);
            if k == 1 {
                assert(x[0] == y[0]);
            }
        } else {
            assert(x[0] == y[0] && x[1] == y[1]);
        }
    }
}

/// The preview of a result is the first line that holds the text, with the text marked in it.
pub proof fn law_preview_is_the_first_matching_line(
    lines: Seq<Seq<char>>,
    needle: Seq<char>,
    from: int,
)
    requires
        0 <= from,
    ensures
        ({
            let shown = first_marked_line(lines, needle, from);
            &&& (forall|j: int| from <= j < lines.len() ==> !occurs(#[trigger] lines[j], needle))
                ==> shown.len() == 0
            &&& forall|i: int|
                from <= i < lines.len() && occurs(#[trigger] lines[i], needle) && (forall|j: int|
                    from <= j < i ==> !occurs(#[trigger] lines[j], needle)) ==> shown == marked(
                    lines[i],
                    needle,
                )
        }),
    decreases lines.len() - from,
{
    if from < lines.len() && !occurs(lines[from], needle) {
        law_preview_is_the_first_matching_line(lines, needle, from + 1);
    }
}

/// Marking puts marks around every place where the text stands and leaves the rest alone.
pub proof fn law_every_place_is_marked(a: Seq<char>, needle: Seq<char>, rest: Seq<char>)
    requires
        needle.len() > 0,
        ends_cleanly(a, needle),
    ensures
        marked(a + needle + rest, needle) == a + (seq!['⟦'] + needle + seq!['⟧']) + marked(
            rest,
            needle,
        ),
        !occurs(rest, needle) ==> marked(rest, needle) == rest,
{
    reveal_strlit("⟦");
    reveal_strlit("⟧");
    assert("⟦"@ =~= seq!['⟦']);
    assert("⟧"@ =~= seq!['⟧']);
    law_every_occurrence_is_replaced(a, needle, rest, "⟦"@ + needle + "⟧"@);
}

/// The revision of a result is the one with its file and its number; one that is no longer there is
/// said to be unavailable.
pub proof fn law_result_leads_to_its_revision(
    rs: Seq<RevisionView>,
    path: Seq<char>,
    number: u64,
    from: int,
)
    requires
        0 <= from,
    ensures
        match place_of_hit(rs, path, number, from) {
            Some(i) => from <= i < rs.len() && rs[i].number == number && same_path_text(
                rs[i].access.path,
                path,
            ) && forall|j: int|
                from <= j < i ==> !((#[trigger] rs[j]).number == number && same_path_text(
                    rs[j].access.path,
                    path,
                )),
            None => forall|j: int|
                from <= j < rs.len() ==> !((#[trigger] rs[j]).number == number && same_path_text(
                    rs[j].access.path,
                    path,
                )),
        },
    decreases rs.len() - from,
{
    if from < rs.len() && !(rs[from].number == number && same_path_text(
        rs[from].access.path,
        path,
    )) {
        law_result_leads_to_its_revision(rs, path, number, from + 1);
    }
}

/// Naming the sides of a difference replaces its first two lines and keeps all the others.
pub proof fn law_named_diff_keeps_its_hunks(output: Seq<char>, left: Seq<char>, right: Seq<char>)
    requires
        one_line(left),
        one_line(right),
        line_seq(output).len() > 2,
        forall|i: int| 2 <= i < line_seq(output).len() ==> one_line(#[trigger] line_seq(output)[i]),
    ensures
        pieces(diff_named(output, left, right), "\n"@) == seq![
            "--- "@ + left,
            "+++ "@ + right,
        ] + line_seq(output).subrange(2, line_seq(output).len() as int),
{
    broadcast use lemma_one_line;

    reveal_strlit("\n");
    reveal_strlit("\n+++ ");
    reveal_strlit("+++ ");
    reveal_strlit("--- ");
    let rest = line_seq(output).subrange(2, line_seq(output).len() as int);
    let a = "--- "@ + left;
    let b = "+++ "@ + right;
    let all = seq![a, b] + rest;
    assert forall|i: int| 0 <= i < all.len() implies one_line(#[trigger] all[i]) by {
        if i >= 2 {
            assert(all[i] == line_seq(output)[i]);
        } else {
            assert(one_line("--- "@) && one_line("+++ "@));
        }
    }
    law_splitting_undoes_joining(all);
    lemma_joined_behind(a, b, rest);
    assert("\n+++ "@ =~= "\n"@ + "+++ "@);
    assert(diff_named(output, left, right) =~= a + "\n"@ + b + "\n"@ + joined(rest, "\n"@));
}

proof fn lemma_joined_behind(a: Seq<char>, b: Seq<char>, rest: Seq<Seq<char>>)
    requires
        rest.len() > 0,
    ensures
        joined(seq![a, b] + rest, "\n"@) == a + "\n"@ + b + "\n"@ + joined(rest, "\n"@),
    decreases rest.len(),
{
    let all = seq![a, b] + rest;
    if rest.len() == 1 {
        assert(all.drop_last() =~= seq![a, b]);
        assert(seq![a, b].drop_last() =~= seq![a]);
        assert(joined(seq![a], "\n"@) == a);
        assert(joined(seq![a, b], "\n"@) == a + "\n"@ + b);
    } else {
        lemma_joined_behind(a, b, rest.drop_last());
        assert(all.drop_last() =~= seq![a, b] + rest.drop_last());
        assert(joined(all, "\n"@) =~= a + "\n"@ + b + "\n"@ + joined(rest, "\n"@));
    }
}

/// A restore that came through says which revision became which, and what went wrong beside it.
pub proof fn law_restore_is_told(a: AppView, number: u64, made: CreatedView)
    ensures
        ({
            let b = restored(a, number, made);
            let text = "Restored revision "@ + decimal(number as nat) + " as revision "@ + decimal(
                made.number as nat,
            );
            &&& b.mode == Mode::Main && begins_with(b.status, text)
            &&& made.mirror_warning is None ==> b.status == text
            &&& made.mirror_warning matches Some(w) ==> finishes_with(b.status, w)
        }),
{
    let text = "Restored revision "@ + decimal(number as nat) + " as revision "@ + decimal(
        made.number as nat,
    );
    let status = restored(a, number, made).status;
    assert(status.subrange(0, text.len() as int) =~= text);
    match made.mirror_warning {
        Some(w) => {
            assert(status.subrange(status.len() - w.len(), status.len() as int) =~= w);
        },
        None => {},
    }
}

/// What is asked for is shown when it comes: the difference, the content, the revisions that pass the
/// filters; a change is followed by looking at the repository again.
pub proof fn law_replies_are_shown(
    a: AppView,
    t: TaskView,
    r: RevisionView,
    text: String,
    bytes: Vec<u8>,
    all: Vec<Revision>,
    now: u64,
    cwd: Seq<char>,
)
    ensures
        t.need == NeedView::EventDiff(r) && t.after is Done ==> resumed(
            a,
            t,
            Reply::Diff(text),
            now,
            cwd,
        ).0.diff == text@,
        t.need == NeedView::Inspect(r) ==> {
            let b = resumed(a, t, Reply::Bytes(bytes), now, cwd).0;
            b.inspect == lossy_text(bytes@) && b.mode == Mode::Inspect && b.inspect_scroll == 0
                && b.back_mode == a.mode
        },
        t.need is Tag ==> resumed(a, t, Reply::Done, now, cwd).1.need is Rescan && resumed(
            a,
            t,
            Reply::Done,
            now,
            cwd,
        ).0.mode == Mode::Main,
        t.need matches NeedView::SearchAll { incremental } ==> (resumed(
            a,
            t,
            Reply::Revisions(all),
            now,
            cwd,
        ).1.need matches NeedView::Contents { revisions, .. } && revisions == all_views(
            all@,
        ).filter(|r: RevisionView| lets_through(a.filters, r, now))),
{
    let rs = all_views(all@);
    lemma_let_through_filters(a.filters, rs, rs.len() as int, now);
    assert(rs.take(rs.len() as int) =~= rs);
}

proof fn lemma_let_through_filters(f: FiltersView, rs: Seq<RevisionView>, n: int, now: u64)
    requires
        0 <= n <= rs.len(),
    ensures
        let_through(f, rs, n, now) == rs.take(n).filter(|r: RevisionView| lets_through(f, r, now)),
    decreases n,
{
    reveal(Seq::filter);
    if n > 0 {
        lemma_let_through_filters(f, rs, n - 1, now);
        assert(rs.take(n).drop_last() =~= rs.take(n - 1));
        assert(rs.take(n).last() == rs[n - 1]);
    }
}

/// After a restore, a search or a jump the selection lands on the revision it is about, where the
/// history has it.
pub proof fn law_selection_lands_on_its_revision(a: AppView, n: u64, k: int)
    requires
        a.revisions.len() <= usize::MAX,
        0 <= k < a.revisions.len(),
        a.revisions[k].number == n,
    ensures
        number_selected(landed(a, After::LandRestore(n)).0) == Some(n),
        number_selected(landed(a, After::LandSearch(n)).0) == Some(n),
        number_selected(landed(a, After::LandActivity(n)).0) == Some(n),
        landed(a, After::LandActivity(n)).0.mode == Mode::Main && landed(
            a,
            After::LandActivity(n),
        ).0.panel == Panel::History,
        landed(a, After::Done).0 == a,
{
    law_place_of_a_number(a.revisions, n, 0);
}

/// Jumping from a result or from a recent change goes to its file and asks for its revision.
pub proof fn law_jump_goes_to_the_file(a: AppView)
    requires
        a.files.len() <= usize::MAX,
    ensures
        a.search_index < a.search_results.len() ==> {
            let hit = a.search_results[a.search_index as int];
            let s = search_jumped(a);
            &&& s.1.need is Rescan && s.1.after == After::LandSearch(hit.revision)
            &&& names_path(a.files, hit.path) ==> (file_selected(s.0) matches Some(p)
                && same_path_text(p, hit.path))
        },
        a.search_index >= a.search_results.len() ==> search_jumped(a).0 == a && search_jumped(
            a,
        ).1.need is Nothing,
        a.activity_index < a.activity.len() ==> {
            let hit = a.activity[a.activity_index as int];
            let s = activity_jumped(a);
            &&& s.1.need is Rescan && s.1.after == After::LandActivity(hit.number)
            &&& names_path(a.files, hit.access.path) ==> (file_selected(s.0) matches Some(p)
                && same_path_text(p, hit.access.path))
        },
        a.activity_index >= a.activity.len() ==> activity_jumped(a).0 == a && activity_jumped(
            a,
        ).1.need is Nothing,
{
    if a.search_index < a.search_results.len() {
        law_place_of_a_path(a.files, a.search_results[a.search_index as int].path, 0);
    }
    if a.activity_index < a.activity.len() {
        law_place_of_a_path(a.files, a.activity[a.activity_index as int].access.path, 0);
    }
}

/// Paging moves by ten what is shown, and stays within it.
pub proof fn law_paging_moves_by_ten(a: AppView, down: bool)
    requires
        a.search_results.len() <= usize::MAX,
        a.activity.len() <= usize::MAX,
    ensures
        ({
            let b = paged(a, down);
            let goes = |from: usize, to: usize, len: nat|
                if down {
                    to == if from + 10 < len {
                        from + 10
                    } else if len > 0 {
                        len - 1
                    } else {
                        0
                    }
                } else {
                    to == if from >= 10 {
                        from - 10
                    } else {
                        0
                    }
                };
            let scrolls = |from: u16, to: u16|
                if down {
                    to == if from + 10 <= u16::MAX {
                        from + 10
                    } else {
                        u16::MAX as int
                    }
                } else {
                    to == if from >= 10 {
                        from - 10
                    } else {
                        0
                    }
                };
            &&& a.mode == Mode::SearchResults ==> goes(
                a.search_index,
                b.search_index,
                a.search_results.len(),
            )
            &&& a.mode == Mode::Activity ==> goes(
                a.activity_index,
                b.activity_index,
                a.activity.len(),
            )
            &&& a.mode == Mode::Inspect ==> scrolls(a.inspect_scroll, b.inspect_scroll)
            &&& a.mode == Mode::Main ==> scrolls(a.diff_scroll, b.diff_scroll)
            &&& b.mode == a.mode && b.revision_index == a.revision_index && b.tree_index
                == a.tree_index && b.timeline_index == a.timeline_index
        }),
{
}

/// Left and right go through the panels in their order and stop at the ends; in the tree they close
/// and open the directory.
pub proof fn law_panels_stand_in_a_row(a: AppView, now: u64, cwd: Seq<char>)
    requires
        a.main_tab == MainTab::ReposFiles,
    ensures
        a.panel == Panel::Diff ==> gone_left(a, now, cwd).panel == Panel::History && gone_right(
            a,
            now,
            cwd,
        ).panel == Panel::Diff,
        a.panel == Panel::History ==> gone_left(a, now, cwd).panel == Panel::Files && gone_right(
            a,
            now,
            cwd,
        ).panel == Panel::Diff,
        a.panel == Panel::Files ==> gone_left(a, now, cwd).panel == Panel::Files,
        a.panel == Panel::Files && !on_directory(a) ==> gone_right(a, now, cwd).panel
            == Panel::History,
        a.panel == Panel::Files && on_directory(a) ==> {
            let path = a.tree[a.tree_index as int].path;
            &&& names_path(gone_right(a, now, cwd).expanded, path)
            &&& !names_path(gone_left(a, now, cwd).expanded, path)
        },
{
    if a.panel == Panel::Files && on_directory(a) {
        law_paths_are_put_in_and_taken_out(a.expanded, a.tree[a.tree_index as int].path);
    }
}

/// Opening a directory, or closing the one of a file, changes what is open and shows the tree anew,
/// with the directory selected.
pub proof fn law_toggled_tree_shows_what_is_open(
    a: AppView,
    expand: bool,
    now: u64,
    cwd: Seq<char>,
)
    requires
        a.tree_index < a.tree.len(),
    ensures
        ({
            let node = a.tree[a.tree_index as int];
            let directory = if node.directory {
                node.path
            } else {
                directory_of(node.path)
            };
            let b = tree_toggled(a, expand, now, cwd);
            &&& names_path(b.expanded, directory) == expand
            &&& b.tree == tree_of(a.files, b.expanded, a.activity, now, cwd)
            &&& b.files == a.files && b.revisions == a.revisions
        }),
{
    let node = a.tree[a.tree_index as int];
    let directory = if node.directory {
        node.path
    } else {
        directory_of(node.path)
    };
    law_paths_are_put_in_and_taken_out(a.expanded, directory);
}

/// Entering inspects what is selected, and opens or closes the directory that is stepped on.
pub proof fn law_enter_inspects_what_is_selected(a: AppView, now: u64, cwd: Seq<char>)
    requires
        a.mode == Mode::Main,
    ensures
        ({
            let stepped = a.main_tab == MainTab::ReposFiles && a.panel == Panel::Files
                && a.tree_index < a.tree.len() && a.tree[a.tree_index as int].directory;
            let s = entered(a, now, cwd);
            &&& !stepped ==> s.0 == a && (a.selected_item matches Some(e) ==> s.1.need
                == NeedView::Inspect(e.revision)) && (a.selected_item is None ==> s.1.need is Nothing)
            &&& stepped ==> s.1.need is Nothing && names_path(
                s.0.expanded,
                a.tree[a.tree_index as int].path,
            ) == !names_path(a.expanded, a.tree[a.tree_index as int].path)
        }),
{
    if on_directory(a) {
        let path = a.tree[a.tree_index as int].path;
        law_place_of_a_path(a.expanded, path, 0);
        law_paths_are_put_in_and_taken_out(a.expanded, path);
    }
}

/// The event that is selected on the timeline is the one that is inspected, and its difference is
/// asked for where it changed something.
pub proof fn law_selected_event_is_shown(a: AppView)
    ensures
        a.timeline_index < visible(a).len() ==> {
            let e = visible(a)[a.timeline_index as int];
            let s = timeline_selected(a);
            &&& s.0.selected_item == Some(e) && s.0.diff_scroll == 0
            &&& e.kind == EventKind::Access ==> s.1 is Nothing
            &&& e.kind != EventKind::Access ==> s.1 == NeedView::EventDiff(e.revision)
        },
        a.timeline_index >= visible(a).len() ==> timeline_selected(a).1 is Nothing,
{
}

/// The result that is selected is looked up among the revisions: the one with its file and number is
/// the one that is inspected.
pub proof fn law_selected_result_is_looked_up(a: AppView, all: Seq<RevisionView>)
    requires
        a.search_index < a.search_results.len(),
    ensures
        ({
            let hit = a.search_results[a.search_index as int];
            let s = hit_looked_up(a, all);
            &&& result_selected(a).1 is FindHit
            &&& s.1 matches NeedView::HitKind(r) ==> r.number == hit.revision && same_path_text(
                r.access.path,
                hit.path,
            ) && all.contains(r)
            &&& (exists|i: int|
                0 <= i < all.len() && (#[trigger] all[i]).number == hit.revision && same_path_text(
                    all[i].access.path,
                    hit.path,
                )) ==> s.1 is HitKind || (s.0.selected_item matches Some(e) && e.revision.number
                == hit.revision && same_path_text(e.revision.access.path, hit.path))
        }),
{
    let hit = a.search_results[a.search_index as int];
    law_result_leads_to_its_revision(all, hit.path, hit.revision, 0);
    match place_of_hit(all, hit.path, hit.revision, 0) {
        Some(i) => {
            assert(all.contains(all[i]));
        },
        None => {},
    }
}

/// The browser begins on the timeline with every directory open, nothing typed and no filter.
pub proof fn law_browser_begins_with_everything_open(all: Seq<RevisionView>, k: int)
    requires
        0 <= k < files_of(all).len(),
        parent_of(files_of(all)[k]) is Some,
    ensures
        names_path(started(all).expanded, parent_of(files_of(all)[k])->0),
        started(all).main_tab == MainTab::Timeline && started(all).mode == Mode::Main,
        started(all).filters == no_filters() && started(all).input.len() == 0 && !started(all).quit,
        started(all).files == files_of(all),
{
    let files = files_of(all);
    lemma_parents(files, files.len() as int, k);
}

proof fn lemma_parents(files: Seq<Seq<char>>, n: int, k: int)
    requires
        0 <= k < n <= files.len(),
        parent_of(files[k]) is Some,
    ensures
        names_path(parents_of(files, n), parent_of(files[k])->0),
    decreases n,
{
    let before = parents_of(files, n - 1);
    match parent_of(files[n - 1]) {
        Some(p) => {
            law_paths_are_put_in_and_taken_out(before, p);
            if k < n - 1 {
                lemma_parents(files, n - 1, k);
                let wanted = parent_of(files[k])->0;
                let i = choose|i: int|
                    0 <= i < before.len() && same_path_text(#[trigger] before[i], wanted);
                assert(with_path(before, p)[i] == before[i]);
            }
        },
        None => {
            lemma_parents(files, n - 1, k);
        },
    }
}

/// A preview is of the content where that holds the text; else of the tag, the path, the editor or
/// the actor, whichever holds it first.
pub proof fn law_preview_shows_where_the_text_is(
    needle: Seq<char>,
    r: RevisionView,
    content: Seq<char>,
)
    ensures
        ({
            let shown = preview_of(needle, r, content);
            let line = first_marked_line(line_seq(content), needle, 0);
            let in_tag = r.tag matches Some(t) && occurs(t, needle);
            &&& line.len() > 0 ==> shown == line
            &&& line.len() == 0 && in_tag ==> (r.tag matches Some(t) && shown == "tag: "@ + marked(
                t,
                needle,
            ))
            &&& line.len() == 0 && !in_tag && holds_fold(r.access.path, needle) ==> shown
                == "filename: "@ + r.access.path
            &&& line.len() == 0 && !in_tag && !holds_fold(r.access.path, needle) && holds_fold(
                r.access.editor,
                needle,
            ) ==> shown == "editor: "@ + r.access.editor
            &&& line.len() == 0 && !in_tag && !holds_fold(r.access.path, needle) && !holds_fold(
                r.access.editor,
                needle,
            ) ==> shown == "actor: "@ + r.actor
        }),
{
}

/// The places of files and of nodes in the tree are the first with the path.
pub proof fn law_places_in_the_tree(tree: Seq<NodeView>, path: Seq<char>, from: int)
    requires
        0 <= from,
    ensures
        match place_of_node(tree, path, from) {
            Some(i) => from <= i < tree.len() && same_path_text(tree[i].path, path) && forall|j: int|
                from <= j < i ==> !same_path_text((#[trigger] tree[j]).path, path),
            None => forall|j: int|
                from <= j < tree.len() ==> !same_path_text((#[trigger] tree[j]).path, path),
        },
        match place_of_file_node(tree, path, from) {
            Some(i) => from <= i < tree.len() && !tree[i].directory && same_path_text(
                tree[i].path,
                path,
            ),
            None => forall|j: int|
                from <= j < tree.len() ==> (#[trigger] tree[j]).directory || !same_path_text(
                    tree[j].path,
                    path,
                ),
        },
    decreases tree.len() - from,
{
    if from < tree.len() {
        law_places_in_the_tree(tree, path, from + 1);
    }
}

/// What is found is handed on, and waiting keeps what is asked for.
pub proof fn law_selection_is_handed_on(
    a: AppView,
    item: SelectedHistoryItem,
    r: Revision,
    need: NeedView,
    after: After,
)
    ensures
        opt_item(Some(item)) == Some(item@),
        opt_item(None) is None,
        opt_revision(Some(r)) == Some(r@),
        opt_revision(None) is None,
        waits(a, need, after).0 == a && waits(a, need, after).1.need == need && waits(
            a,
            need,
            after,
        ).1.after == after,
        idle(a).0 == a && idle(a).1.need is Nothing,
{
}

/// A search that is wanted asks for every revision, with nothing found yet; an empty one is refused.
/// Clearing a search leaves nothing of it.
pub proof fn law_search_begins_anew(a: AppView, incremental: bool)
    ensures
        search_wanted(a, incremental).0.search_results.len() == 0,
        a.input.len() > 0 ==> search_wanted(a, incremental).1 == (NeedView::SearchAll {
            incremental,
        }) && search_wanted(a, incremental).0.input == a.input,
        a.input.len() == 0 ==> search_wanted(a, incremental).1 is Nothing && search_wanted(
            a,
            incremental,
        ).0.status == "Search cannot be empty"@,
        a.input.len() > 0 ==> typed_search(a).1 == (NeedView::SearchAll { incremental: true }),
        a.input.len() == 0 ==> typed_search(a).0.search_results.len() == 0 && typed_search(
            a,
        ).1 is Nothing,
        search_cleared(a).input.len() == 0 && search_cleared(a).search_results.len() == 0
            && search_cleared(a).search_index == 0,
{
}

/// A search that is through shows all that was found, from the first; one that failed says why.
pub proof fn law_search_shows_what_was_found(
    a: AppView,
    found: Seq<ResultView>,
    f: FailureView,
    incremental: bool,
    after: After,
)
    ensures
        ({
            let b = searched(a, found, incremental).0;
            &&& b.search_results.to_multiset() == found.to_multiset()
            &&& b.search_index == 0 && b.search_offset == 0 && b.main_tab == MainTab::Search
            &&& b.mode == if incremental {
                Mode::SearchInput
            } else {
                Mode::SearchResults
            }
            &&& b.input == a.input
        }),
        ({
            let failed = search_ended(
                a,
                Found { results: found, failure: Some(f) },
                incremental,
                after,
            );
            failed.0.status == "Error: "@ + f.message && failed.0.mode == Mode::Main
                && failed.1.need is Nothing
        }),
        search_ended(a, Found { results: found, failure: None }, incremental, After::Done)
            == settled(searched(a, found, incremental), After::Done),
{
    law_results_are_in_order(found);
}

/// The label of a comparison names its sides: the marked revision, or the selected one, and what it
/// is compared with.
pub proof fn law_comparison_is_labelled(a: AppView, l: u64, r: u64)
    requires
        number_selected(a) == Some(r),
    ensures
        a.marked_revision == Some(l) && a.compare_current ==> comparison_label(a) == "rev "@ + decimal(
            l as nat,
        ) + " → current"@,
        a.marked_revision is None && a.compare_current ==> comparison_label(a) == "rev "@ + decimal(
            r as nat,
        ) + " → current"@,
        a.marked_revision == Some(l) && !a.compare_current ==> comparison_label(a) == "rev "@
            + decimal(l as nat) + " → rev "@ + decimal(r as nat),
{
}

/// A result says how often the text was found, as far as that can be counted, and shows where.
pub proof fn law_result_says_how_often(
    needle: Seq<char>,
    r: RevisionView,
    content: Seq<char>,
    kind: EventKind,
)
    requires
        0 <= match_count(needle, r, content) <= usize::MAX,
    ensures
        result_of(needle, r, content, kind).matches == match_count(needle, r, content),
        result_of(needle, r, content, kind).preview == preview_of(needle, r, content),
        result_of(needle, r, content, kind).kind == kind,
{
}

/// The visible events are those of the timeline that changed something, or all, in their order.
pub proof fn law_visible_events_keep_their_order(a: AppView, n: int)
    requires
        0 <= n <= a.timeline.len(),
    ensures
        visible_part(a, n) == a.timeline.take(n).filter(
            |e: EventView| !a.timeline_changes_only || e.kind != EventKind::Access,
        ),
        n == a.timeline.len() ==> visible(a) == a.timeline.filter(
            |e: EventView| !a.timeline_changes_only || e.kind != EventKind::Access,
        ),
    decreases n,
{
    reveal(Seq::filter);
    if n > 0 {
        law_visible_events_keep_their_order(a, n - 1);
        assert(a.timeline.take(n).drop_last() =~= a.timeline.take(n - 1));
        assert(a.timeline.take(n).last() == a.timeline[n - 1]);
    }
    if n == a.timeline.len() {
        assert(a.timeline.take(n) =~= a.timeline);
    }
}

} // verus!
