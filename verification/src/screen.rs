//! What the screen of the browser says: rows, titles, overlays and styles.

use crate::browse::{
    find_path, EventKind, FilterField, MainTab, SearchResult, SelectedTarget, TimelineEvent,
    TreeNode,
};
use crate::clock::format_timestamp;
use crate::header::{fit, Colour, LayoutClass};
use crate::path::{file_name, same_path};
use crate::store::Revision;
use crate::text::{chars_of, join, lines, pad_left, pad_right, same, starts_with, to_decimal};
use crate::tui::{App, Mode, Panel};
#[allow(unused_imports)]
use crate::{
    browse::{holds_path, kind_label, names_path, EventView, NodeView, ResultView, TargetView},
    clock::{lemma_shown_time_is_one_line, shown_time},
    header::fitted,
    path::{components, file_name_of, same_path_text},
    store::RevisionView,
    text::{
        all_views, begins_with, decimal, finishes_with, joined, law_splitting_undoes_joining,
        lemma_decimal, lemma_joined_occurs, lemma_occurs_between, lemma_occurs_in_a_part,
        lemma_one_line, line_seq, occurs, one_line, opt_view, padded_left, padded_right, pieces,
        views,
    },
    tui::{
        file_selected, heading_lines, law_result_lines_ascend, line_of_result, lines_before,
        revision_selected, visible, AppView,
    },
    wrapper::plural,
};
use vstd::prelude::*;

verus! {

/// How text looks.
#[derive(Clone, Copy, Debug, PartialEq, Eq, Structural)]
pub struct Style {
    pub fg: Option<Colour>,
    pub bg: Option<Colour>,
    pub bold: bool,
}

/// Text in a colour, on a colour or none.
pub open spec fn style_of(fg: Option<Colour>, bg: Option<Colour>, bold: bool) -> Style {
    Style { fg, bg, bold }
}

/// A line of text and how it looks.
#[derive(Debug, PartialEq, Eq)]
pub struct StyledLine {
    pub text: String,
    pub style: Style,
}

impl View for StyledLine {
    type V = (Seq<char>, Style);

    open spec fn view(&self) -> (Seq<char>, Style) {
        (self.text@, self.style)
    }
}

/// The colour of a line of a diff.
pub open spec fn diff_colour(line: Seq<char>) -> Colour {
    if begins_with(line, "@@"@) {
        Colour::Cyan
    } else if begins_with(line, "---"@) || begins_with(line, "+++"@) {
        Colour::Yellow
    } else if begins_with(line, "+"@) {
        Colour::Green
    } else if begins_with(line, "-"@) {
        Colour::Red
    } else {
        Colour::White
    }
}

/// How a line of a diff looks.
pub open spec fn diff_style(line: Seq<char>) -> Style {
    style_of(Some(diff_colour(line)), Some(Colour::Black), false)
}

/// How a line of a diff looks.
pub fn style_diff_line(line: &str) -> (r: Style)
    ensures
        r == diff_style(line@),
{
    let colour: Colour = if starts_with(line, "@@") {
        Colour::Cyan
    } else if starts_with(line, "---") || starts_with(line, "+++") {
        Colour::Yellow
    } else if starts_with(line, "+") {
        Colour::Green
    } else if starts_with(line, "-") {
        Colour::Red
    } else {
        Colour::White
    };
    Style { fg: Some(colour), bg: Some(Colour::Black), bold: false }
}

/// The lines of a diff with how they look.
pub open spec fn styled_diff(diff: Seq<char>) -> Seq<(Seq<char>, Style)> {
    line_seq(diff).map(|i: int, line: Seq<char>| (line, diff_style(line)))
}

/// The lines of the diff with how they look.
pub fn diff_lines(diff: &str) -> (r: Vec<StyledLine>)
    ensures
        all_views(r@) == styled_diff(diff@),
{
    let all: Vec<String> = lines(diff);
    let ghost a = line_seq(diff@);
    let mut out: Vec<StyledLine> = Vec::new();
    let mut i: usize = 0;
    while i < all.len()
        invariant
            i <= all.len(),
            a == views(all@),
            out@.len() == i,
            forall|j: int| 0 <= j < i ==> (#[trigger] out@[j])@ == (a[j], diff_style(a[j])),
        decreases all.len() - i,
    {
        assert(a[i as int] == all@[i as int]@);
        let style: Style = style_diff_line(all[i].as_str());
        out.push(StyledLine { text: all[i].clone(), style });
        i += 1;
    }
    assert(a.len() == all@.len());
    assert(all_views(out@) =~= styled_diff(diff@));
    out
}

/// What a tag adds to a row.
pub open spec fn tag_mark(tag: Option<Seq<char>>) -> Seq<char> {
    match tag {
        Some(t) => " ★ "@ + t,
        None => Seq::empty(),
    }
}

fn mark_tag(tag: &Option<String>) -> (r: String)
    ensures
        r@ == tag_mark(opt_view(*tag)),
{
    match tag {
        Some(t) => {
            let mut out: String = " ★ ".to_owned();
            out.append(t.as_str());
            out
        },
        None => String::new(),
    }
}

/// The row of a revision in the history of its file.
pub open spec fn history_row(r: RevisionView, current: bool, width: nat, now: u64) -> Seq<char> {
    let marker = if current {
        "● CURRENT"@
    } else {
        "●"@
    };
    let time = shown_time(r.access.epoch, now);
    let tag = tag_mark(r.tag);
    let row = if width >= 64 {
        marker + " rev "@ + padded_right(decimal(r.number as nat), 4) + " "@ + padded_right(time, 16)
            + " "@ + padded_right(r.access.editor, 7) + " "@ + padded_right(r.actor, 10) + tag
    } else if width >= 42 {
        marker + " r"@ + decimal(r.number as nat) + " "@ + time + " "@ + r.access.editor + " "@
            + r.actor + tag
    } else {
        marker + " r"@ + decimal(r.number as nat) + " "@ + time + tag
    };
    fitted(row, width)
}

/// The row of a revision in the history of its file.
pub fn timeline_row(revision: &Revision, current: bool, width: usize, now: u64) -> (r: String)
    ensures
        r@ == history_row(revision@, current, width as nat, now),
{
    let time: String = format_timestamp(revision.access.epoch, now);
    let tag: String = mark_tag(&revision.tag);
    let mut row: String = if current {
        "● CURRENT".to_owned()
    } else {
        "●".to_owned()
    };
    if width >= 64 {
        row.append(" rev ");
        row.append(pad_right(to_decimal(revision.number).as_str(), 4).as_str());
        row.append(" ");
        row.append(pad_right(time.as_str(), 16).as_str());
        row.append(" ");
        row.append(pad_right(revision.access.editor.as_str(), 7).as_str());
        row.append(" ");
        row.append(pad_right(revision.actor.as_str(), 10).as_str());
    } else {
        row.append(" r");
        row.append(to_decimal(revision.number).as_str());
        row.append(" ");
        row.append(time.as_str());
        if width >= 42 {
            row.append(" ");
            row.append(revision.access.editor.as_str());
            row.append(" ");
            row.append(revision.actor.as_str());
        }
    }
    row.append(tag.as_str());
    fit(row, width)
}

/// The row of a revision in the activity.
pub open spec fn row_of_activity(r: RevisionView, width: nat, now: u64) -> Seq<char> {
    let time = shown_time(r.access.epoch, now);
    let tag = tag_mark(r.tag);
    let row = if width >= 80 {
        padded_right(time, 16) + " "@ + padded_right(fitted(r.access.path, 30), 30) + " "@
            + padded_right(r.access.editor, 7) + " "@ + padded_right(r.actor, 10) + tag
    } else {
        time + " "@ + r.access.path + " "@ + r.access.editor + " "@ + r.actor + tag
    };
    fitted(row, width)
}

/// The row of a revision in the activity.
pub fn activity_row(revision: &Revision, width: usize, now: u64) -> (r: String)
    ensures
        r@ == row_of_activity(revision@, width as nat, now),
{
    let time: String = format_timestamp(revision.access.epoch, now);
    let tag: String = mark_tag(&revision.tag);
    let mut row: String = String::new();
    if width >= 80 {
        row = pad_right(time.as_str(), 16);
        row.append(" ");
        let path: String = fit(revision.access.path.clone(), 30);
        row.append(pad_right(path.as_str(), 30).as_str());
        row.append(" ");
        row.append(pad_right(revision.access.editor.as_str(), 7).as_str());
        row.append(" ");
        row.append(pad_right(revision.actor.as_str(), 10).as_str());
    } else {
        row = time;
        row.append(" ");
        row.append(revision.access.path.as_str());
        row.append(" ");
        row.append(revision.access.editor.as_str());
        row.append(" ");
        row.append(revision.actor.as_str());
    }
    row.append(tag.as_str());
    fit(row, width)
}

/// The row of an event: time, kind and path, with number, editor and actor as far as there is room.
pub open spec fn event_row(
    epoch: u64,
    kind: EventKind,
    path: Seq<char>,
    number: u64,
    editor: Seq<char>,
    actor: Seq<char>,
    width: nat,
    now: u64,
) -> Seq<char> {
    let time = shown_time(epoch, now);
    let head = padded_right(
        time,
        if width >= 84 {
            16
        } else {
            8
        },
    ) + " "@ + padded_right(kind_label(kind), 6) + " "@ + path;
    let row = if width >= 84 {
        head + "  r"@ + decimal(number as nat) + "  "@ + padded_right(editor, 7) + " "@ + actor
    } else if width >= 48 {
        head + "  r"@ + decimal(number as nat)
    } else {
        head
    };
    fitted(row, width)
}

fn make_event_row(
    epoch: u64,
    kind: EventKind,
    path: &str,
    number: u64,
    editor: &str,
    actor: &str,
    width: usize,
    now: u64,
) -> (r: String)
    ensures
        r@ == event_row(epoch, kind, path@, number, editor@, actor@, width as nat, now),
{
    let time: String = format_timestamp(epoch, now);
    let mut row: String = pad_right(
        time.as_str(),
        if width >= 84 {
            16
        } else {
            8
        },
    );
    row.append(" ");
    row.append(pad_right(kind.label(), 6).as_str());
    row.append(" ");
    row.append(path);
    if width >= 48 {
        row.append("  r");
        row.append(to_decimal(number).as_str());
        if width >= 84 {
            row.append("  ");
            row.append(pad_right(editor, 7).as_str());
            row.append(" ");
            row.append(actor);
        }
    }
    fit(row, width)
}

/// The row of a search result.
pub open spec fn search_row(r: ResultView, width: nat, now: u64) -> Seq<char> {
    event_row(r.epoch, r.kind, r.path, r.revision, r.editor, r.actor, width, now)
}

/// The row of a search result.
pub fn render_search_row(result: &SearchResult, width: usize, now: u64) -> (r: String)
    ensures
        r@ == search_row(result@, width as nat, now),
{
    make_event_row(
        result.epoch,
        result.kind,
        result.path.as_str(),
        result.revision,
        result.editor.as_str(),
        result.actor.as_str(),
        width,
        now,
    )
}

/// The rows of search results.
pub open spec fn search_rows_of(rs: Seq<ResultView>, width: nat, now: u64) -> Seq<Seq<char>> {
    rs.map(|i: int, r: ResultView| search_row(r, width, now))
}

/// The row of an event of the timeline.
pub open spec fn timeline_event_row(e: EventView, width: nat, now: u64) -> Seq<char> {
    event_row(
        e.revision.access.epoch,
        e.kind,
        e.revision.access.path,
        e.revision.number,
        e.revision.access.editor,
        e.revision.actor,
        width,
        now,
    )
}

/// The rows of events of the timeline.
pub open spec fn timeline_rows_of(es: Seq<EventView>, width: nat, now: u64) -> Seq<Seq<char>> {
    es.map(|i: int, e: EventView| timeline_event_row(e, width, now))
}

/// The rows of the timeline.
pub fn timeline_rows(app: &App, width: usize, now: u64) -> (r: Vec<String>)
    ensures
        views(r@) == timeline_rows_of(visible(app@), width as nat, now),
{
    let events: Vec<TimelineEvent> = app.visible_timeline();
    let ghost es = visible(app@);
    let mut out: Vec<String> = Vec::new();
    let mut i: usize = 0;
    while i < events.len()
        invariant
            i <= events.len(),
            es == all_views(events@),
            out@.len() == i,
            forall|j: int|
                0 <= j < i ==> (#[trigger] out@[j])@ == timeline_event_row(es[j], width as nat, now),
        decreases events.len() - i,
    {
        assert(es[i as int] == events@[i as int]@);
        let e: &TimelineEvent = &events[i];
        out.push(
            make_event_row(
                e.revision.access.epoch,
                e.kind,
                e.revision.access.path.as_str(),
                e.revision.number,
                e.revision.access.editor.as_str(),
                e.revision.actor.as_str(),
                width,
                now,
            ),
        );
        i += 1;
    }
    assert(views(out@) =~= timeline_rows_of(es, width as nat, now));
    out
}

/// The rows of the search results.
pub fn search_rows(app: &App, width: usize, now: u64) -> (r: Vec<String>)
    ensures
        views(r@) == search_rows_of(app@.search_results, width as nat, now),
{
    let ghost rs = app@.search_results;
    let mut out: Vec<String> = Vec::new();
    let mut i: usize = 0;
    while i < app.search_results.len()
        invariant
            i <= app.search_results.len(),
            rs == all_views(app.search_results@),
            out@.len() == i,
            forall|j: int| 0 <= j < i ==> (#[trigger] out@[j])@ == search_row(rs[j], width as nat, now),
        decreases app.search_results.len() - i,
    {
        assert(rs[i as int] == app.search_results@[i as int]@);
        out.push(render_search_row(&app.search_results[i], width, now));
        i += 1;
    }
    assert(views(out@) =~= search_rows_of(rs, width as nat, now));
    out
}

/// The title of the timeline.
pub open spec fn title_of_timeline(a: AppView) -> Seq<char> {
    if a.timeline_changes_only {
        " TIMELINE — Changes only (f) "@
    } else {
        " TIMELINE — All events (f) "@
    }
}

/// The title of the timeline.
pub fn timeline_title(app: &App) -> (r: String)
    ensures
        r@ == title_of_timeline(app@),
{
    if app.timeline_changes_only {
        " TIMELINE — Changes only (f) ".to_owned()
    } else {
        " TIMELINE — All events (f) ".to_owned()
    }
}

/// The title of the search results.
pub open spec fn title_of_search(a: AppView) -> Seq<char> {
    if a.search_results.len() > 0 {
        " RESULTS — "@ + decimal(a.search_results.len()) + " "@
    } else if a.input.len() == 0 {
        " RESULTS "@
    } else {
        " RESULTS — no matches "@
    }
}

/// The title of the search results.
pub fn search_title(app: &App) -> (r: String)
    ensures
        r@ == title_of_search(app@),
{
    if app.search_results.len() > 0 {
        let mut out: String = " RESULTS — ".to_owned();
        out.append(to_decimal(app.search_results.len() as u64).as_str());
        out.append(" ");
        out
    } else if chars_of(app.input.as_str()).len() == 0 {
        " RESULTS ".to_owned()
    } else {
        " RESULTS — no matches ".to_owned()
    }
}

/// What was typed, with a cursor while it is typed.
pub open spec fn prompt_of_search(a: AppView) -> Seq<char> {
    if a.mode == Mode::SearchInput {
        a.input + "_"@
    } else {
        a.input
    }
}

/// What was typed, with a cursor while it is typed.
pub fn search_prompt(app: &App) -> (r: String)
    ensures
        r@ == prompt_of_search(app@),
{
    let mut out: String = app.input.clone();
    if app.mode == Mode::SearchInput {
        out.append("_");
    }
    out
}

/// What the diff belongs to.
pub open spec fn context_label(target: TargetView) -> Seq<char> {
    match target {
        TargetView::Nothing => "no selection"@,
        TargetView::Timeline { path, revision } => path + " · r"@ + decimal(revision as nat),
        TargetView::ReposFiles { path, revision } => path + " · r"@ + decimal(revision as nat),
        TargetView::Search { path, revision } => path + " · r"@ + decimal(revision as nat),
    }
}

fn revision_label(path: &str, revision: u64) -> (r: String)
    ensures
        r@ == path@ + " · r"@ + decimal(revision as nat),
{
    let mut out: String = path.to_owned();
    out.append(" · r");
    out.append(to_decimal(revision).as_str());
    out
}

/// What the diff belongs to.
pub fn diff_context_label(app: &App) -> (r: String)
    ensures
        r@ == context_label(app@.diff_context),
{
    match &app.diff_context.target {
        SelectedTarget::Nothing => "no selection".to_owned(),
        SelectedTarget::Timeline { path, revision } => revision_label(path.as_str(), *revision),
        SelectedTarget::ReposFiles { path, revision } => revision_label(path.as_str(), *revision),
        SelectedTarget::Search { path, revision } => revision_label(path.as_str(), *revision),
    }
}

/// The title of the diff.
pub open spec fn title_of_diff(a: AppView) -> Seq<char> {
    " DIFF — "@ + context_label(a.diff_context) + (match a.marked_revision {
        Some(n) if a.main_tab == MainTab::ReposFiles => " · MARKED rev "@ + decimal(n as nat),
        _ => Seq::empty(),
    }) + " "@
}

/// The title of the diff.
pub fn diff_title(app: &App) -> (r: String)
    ensures
        r@ == title_of_diff(app@),
{
    let mut out: String = " DIFF — ".to_owned();
    out.append(diff_context_label(app).as_str());
    let mut mark: String = String::new();
    match app.marked_revision {
        Some(n) => {
            if app.main_tab == MainTab::ReposFiles {
                mark = " · MARKED rev ".to_owned();
                mark.append(to_decimal(n).as_str());
            }
        },
        None => {},
    }
    out.append(mark.as_str());
    out.append(" ");
    out
}

/// The last line of the screen: the status and the keys.
pub open spec fn footer_text(a: AppView, class: LayoutClass) -> Seq<char> {
    a.status + " | "@ + (if class == LayoutClass::Wide {
        "Tab tabs  ↑↓ navigate  ←→ panels  PgUp/PgDn scroll  n/N hunks  Enter inspect  / search  f filter  ? help  q quit"@
    } else {
        "Tab tabs  ↑↓ nav  ←→ panel  PgUp/PgDn  Enter open  q quit"@
    })
}

/// The last line of the screen: the status and the keys.
pub fn footer(app: &App, class: LayoutClass) -> (r: String)
    ensures
        r@ == footer_text(app@, class),
{
    let mut out: String = app.status.clone();
    out.append(" | ");
    out.append(
        if class == LayoutClass::Wide {
            "Tab tabs  ↑↓ navigate  ←→ panels  PgUp/PgDn scroll  n/N hunks  Enter inspect  / search  f filter  ? help  q quit"
        } else {
            "Tab tabs  ↑↓ nav  ←→ panel  PgUp/PgDn  Enter open  q quit"
        },
    );
    out
}

/// How the label of a tab looks.
pub open spec fn tab_style(a: AppView, tab: MainTab) -> Style {
    if a.main_tab == tab {
        style_of(Some(Colour::Black), Some(Colour::Cyan), true)
    } else {
        style_of(Some(Colour::Black), None, false)
    }
}

/// A blank.
pub open spec fn plain_blank() -> (Seq<char>, Style) {
    (" "@, style_of(None, None, false))
}

/// The labels of the tabs with how they look, a blank behind each.
pub open spec fn labels_of_tabs(a: AppView) -> Seq<(Seq<char>, Style)> {
    seq![
        ("[ Timeline ]"@, tab_style(a, MainTab::Timeline)),
        plain_blank(),
        ("[ Repos/Files ]"@, tab_style(a, MainTab::ReposFiles)),
        plain_blank(),
        ("[ Search ]"@, tab_style(a, MainTab::Search)),
        plain_blank(),
    ]
}

fn style_tab(app: &App, tab: MainTab) -> (r: Style)
    ensures
        r == tab_style(app@, tab),
{
    if app.main_tab == tab {
        Style { fg: Some(Colour::Black), bg: Some(Colour::Cyan), bold: true }
    } else {
        Style { fg: Some(Colour::Black), bg: None, bold: false }
    }
}

fn blank() -> (r: StyledLine)
    ensures
        r@ == plain_blank(),
{
    StyledLine { text: " ".to_owned(), style: Style { fg: None, bg: None, bold: false } }
}

/// The labels of the tabs with how they look, a blank behind each.
pub fn tab_labels(app: &App) -> (r: Vec<StyledLine>)
    ensures
        all_views(r@) == labels_of_tabs(app@),
{
    let mut out: Vec<StyledLine> = Vec::new();
    out.push(
        StyledLine { text: "[ Timeline ]".to_owned(), style: style_tab(app, MainTab::Timeline) },
    );
    out.push(blank());
    out.push(
        StyledLine { text: "[ Repos/Files ]".to_owned(), style: style_tab(app, MainTab::ReposFiles) },
    );
    out.push(blank());
    out.push(StyledLine { text: "[ Search ]".to_owned(), style: style_tab(app, MainTab::Search) });
    out.push(blank());
    assert(all_views(out@) =~= labels_of_tabs(app@));
    out
}

/// The style of the border of a panel: the active one is cyan.
pub open spec fn border_of(a: AppView, panel: Panel) -> Style {
    if a.panel == panel {
        style_of(Some(Colour::Cyan), None, false)
    } else {
        style_of(None, None, false)
    }
}

/// The style of the border of a panel: the active one is cyan.
pub fn active(app: &App, panel: Panel) -> (r: Style)
    ensures
        r == border_of(app@, panel),
{
    if app.panel == panel {
        Style { fg: Some(Colour::Cyan), bg: None, bold: false }
    } else {
        Style { fg: None, bg: None, bold: false }
    }
}

/// Two blanks for each level.
pub open spec fn indent(depth: nat) -> Seq<char>
    decreases depth,
{
    if depth == 0 {
        Seq::empty()
    } else {
        indent((depth - 1) as nat) + "  "@
    }
}

/// The row of a line of the tree.
pub open spec fn tree_row(node: NodeView, expanded: Seq<Seq<char>>) -> Seq<char> {
    indent(node.depth as nat) + (if !node.directory {
        "  "@
    } else if holds_path(expanded, node.path) {
        "▾ "@
    } else {
        "▸ "@
    }) + node.label
}

/// The rows of the tree.
pub open spec fn tree_rows_of(a: AppView) -> Seq<Seq<char>> {
    a.tree.map(|i: int, node: NodeView| tree_row(node, a.expanded))
}

fn make_indent(depth: usize) -> (r: String)
    ensures
        r@ == indent(depth as nat),
{
    let mut out: String = String::new();
    let mut i: usize = 0;
    while i < depth
        invariant
            i <= depth,
            out@ == indent(i as nat),
        decreases depth - i,
    {
        out.append("  ");
        i += 1;
    }
    out
}

/// The rows of the tree.
pub fn tree_rows(app: &App) -> (r: Vec<String>)
    ensures
        views(r@) == tree_rows_of(app@),
{
    let ghost tree = app@.tree;
    let mut out: Vec<String> = Vec::new();
    let mut i: usize = 0;
    while i < app.tree.len()
        invariant
            i <= app.tree.len(),
            tree == all_views(app.tree@),
            out@.len() == i,
            forall|j: int| 0 <= j < i ==> (#[trigger] out@[j])@ == tree_row(tree[j], app@.expanded),
        decreases app.tree.len() - i,
    {
        let node: &TreeNode = &app.tree[i];
        assert(tree[i as int] == node@);
        let mut row: String = make_indent(node.depth);
        if !node.directory {
            row.append("  ");
        } else if find_path(&app.expanded, node.path.as_str()).is_some() {
            row.append("▾ ");
        } else {
            row.append("▸ ");
        }
        row.append(node.label.as_str());
        out.push(row);
        i += 1;
    }
    assert(views(out@) =~= tree_rows_of(app@));
    out
}

/// How a row of the history looks: tagged ones stand out, and so does the current one.
pub open spec fn history_style(r: RevisionView, current: bool) -> Style {
    if r.tag is Some {
        style_of(Some(Colour::Magenta), None, true)
    } else if current {
        style_of(Some(Colour::Green), None, false)
    } else {
        style_of(None, None, false)
    }
}

/// The rows of the history with how they look.
pub open spec fn history_rows_of(rs: Seq<RevisionView>, width: nat, now: u64) -> Seq<(Seq<char>, Style)> {
    rs.map(|i: int, r: RevisionView| (history_row(r, i == 0, width, now), history_style(r, i == 0)))
}

/// The rows of the history with how they look.
pub fn history_rows(app: &App, width: usize, now: u64) -> (r: Vec<StyledLine>)
    ensures
        all_views(r@) == history_rows_of(app@.revisions, width as nat, now),
{
    let ghost rs = app@.revisions;
    let mut out: Vec<StyledLine> = Vec::new();
    let mut i: usize = 0;
    while i < app.revisions.len()
        invariant
            i <= app.revisions.len(),
            rs == all_views(app.revisions@),
            out@.len() == i,
            forall|j: int|
                0 <= j < i ==> (#[trigger] out@[j])@ == (
                    history_row(rs[j], j == 0, width as nat, now),
                    history_style(rs[j], j == 0),
                ),
        decreases app.revisions.len() - i,
    {
        assert(rs[i as int] == app.revisions@[i as int]@);
        let style: Style = if app.revisions[i].tag.is_some() {
            Style { fg: Some(Colour::Magenta), bg: None, bold: true }
        } else if i == 0 {
            Style { fg: Some(Colour::Green), bg: None, bold: false }
        } else {
            Style { fg: None, bg: None, bold: false }
        };
        out.push(
            StyledLine { text: timeline_row(&app.revisions[i], i == 0, width, now), style },
        );
        i += 1;
    }
    assert(all_views(out@) =~= history_rows_of(rs, width as nat, now));
    out
}

/// The title of the history.
pub open spec fn title_of_history(a: AppView) -> Seq<char> {
    " HISTORY — "@ + (match file_selected(a) {
        Some(path) => match file_name_of(path) {
            Some(name) => name,
            None => Seq::<char>::empty(),
        },
        None => Seq::empty(),
    }) + " "@
}

/// The title of the history.
pub fn history_title(app: &App) -> (r: String)
    ensures
        r@ == title_of_history(app@),
{
    let name: String = match app.selected_file() {
        Some(path) => match file_name(path.as_str()) {
            Some(name) => name,
            None => String::new(),
        },
        None => String::new(),
    };
    let mut out: String = " HISTORY — ".to_owned();
    out.append(name.as_str());
    out.append(" ");
    out
}

/// The lines of a text with their numbers.
pub open spec fn numbered_lines(all: Seq<Seq<char>>) -> Seq<Seq<char>> {
    all.map(|i: int, line: Seq<char>| padded_left(decimal((i + 1) as nat), ' ', 5) + "  "@ + line)
}

/// A text with the number of each line before it.
pub fn numbered(text: &str) -> (r: String)
    ensures
        r@ == joined(numbered_lines(line_seq(text@)), "\n"@),
{
    let all: Vec<String> = lines(text);
    let ghost a = line_seq(text@);
    let mut out: Vec<String> = Vec::new();
    let mut i: usize = 0;
    while i < all.len()
        invariant
            i <= all.len(),
            a == views(all@),
            out@.len() == i,
            forall|j: int|
                0 <= j < i ==> (#[trigger] out@[j])@ == padded_left(
                    decimal((j + 1) as nat),
                    ' ',
                    5,
                ) + "  "@ + a[j],
        decreases all.len() - i,
    {
        assert(a[i as int] == all@[i as int]@);
        let mut line: String = pad_left(to_decimal(i as u64 + 1).as_str(), ' ', 5);
        line.append("  ");
        line.append(all[i].as_str());
        out.push(line);
        i += 1;
    }
    assert(a.len() == all@.len());
    assert(views(out@) =~= numbered_lines(a));
    join(&out, "\n")
}

/// How many files revisions belong to.
pub open spec fn distinct_files(rs: Seq<RevisionView>, n: int) -> nat
    decreases n,
{
    if n <= 0 {
        0
    } else if file_before(rs, n - 1, n - 1) {
        distinct_files(rs, n - 1)
    } else {
        distinct_files(rs, n - 1) + 1
    }
}

/// Whether one of the first `n` revisions belongs to the file of the revision at `at`.
pub open spec fn file_before(rs: Seq<RevisionView>, n: int, at: int) -> bool {
    exists|j: int|
        0 <= j < n && #[trigger] same_path_text(rs[j].access.path, rs[at].access.path)
}

/// How many editors wrote revisions.
pub open spec fn distinct_editors(rs: Seq<RevisionView>, n: int) -> nat
    decreases n,
{
    if n <= 0 {
        0
    } else if editor_before(rs, n - 1, n - 1) {
        distinct_editors(rs, n - 1)
    } else {
        distinct_editors(rs, n - 1) + 1
    }
}

/// Whether one of the first `n` revisions has the editor of the revision at `at`.
pub open spec fn editor_before(rs: Seq<RevisionView>, n: int, at: int) -> bool {
    exists|j: int| 0 <= j < n && (#[trigger] rs[j]).access.editor == rs[at].access.editor
}

fn find_file_before(list: &Vec<Revision>, at: usize) -> (r: bool)
    requires
        at < list@.len(),
    ensures
        r == file_before(all_views(list@), at as int, at as int),
{
    let ghost rs = all_views(list@);
    let mut j: usize = 0;
    while j < at
        invariant
            j <= at < list@.len(),
            rs == all_views(list@),
            forall|k: int|
                0 <= k < j ==> !(#[trigger] same_path_text(
                    rs[k].access.path,
                    rs[at as int].access.path,
                )),
        decreases at - j,
    {
        assert(rs[j as int] == list@[j as int]@);
        assert(rs[at as int] == list@[at as int]@);
        if same_path(list[j].access.path.as_str(), list[at].access.path.as_str()) {
            assert(same_path_text(rs[j as int].access.path, rs[at as int].access.path));
            return true;
        }
        j += 1;
    }
    false
}

fn find_editor_before(list: &Vec<Revision>, at: usize) -> (r: bool)
    requires
        at < list@.len(),
    ensures
        r == editor_before(all_views(list@), at as int, at as int),
{
    let ghost rs = all_views(list@);
    let mut j: usize = 0;
    while j < at
        invariant
            j <= at < list@.len(),
            rs == all_views(list@),
            forall|k: int|
                0 <= k < j ==> (#[trigger] rs[k]).access.editor != rs[at as int].access.editor,
        decreases at - j,
    {
        assert(rs[j as int] == list@[j as int]@);
        assert(rs[at as int] == list@[at as int]@);
        if same(list[j].access.editor.as_str(), list[at].access.editor.as_str()) {
            assert(rs[j as int].access.editor == rs[at as int].access.editor);
            return true;
        }
        j += 1;
    }
    false
}

fn count_files(list: &Vec<Revision>) -> (r: usize)
    ensures
        r == distinct_files(all_views(list@), list@.len() as int),
{
    let mut count: usize = 0;
    let mut i: usize = 0;
    while i < list.len()
        invariant
            i <= list.len(),
            count <= i,
            count == distinct_files(all_views(list@), i as int),
        decreases list.len() - i,
    {
        if !find_file_before(list, i) {
            count += 1;
        }
        i += 1;
    }
    count
}

fn count_editors(list: &Vec<Revision>) -> (r: usize)
    ensures
        r == distinct_editors(all_views(list@), list@.len() as int),
{
    let mut count: usize = 0;
    let mut i: usize = 0;
    while i < list.len()
        invariant
            i <= list.len(),
            count <= i,
            count == distinct_editors(all_views(list@), i as int),
        decreases list.len() - i,
    {
        if !find_editor_before(list, i) {
            count += 1;
        }
        i += 1;
    }
    count
}

/// The sign before the selected line of a list.
pub open spec fn pointer(selected: bool) -> Seq<char> {
    if selected {
        "▶"@
    } else {
        " "@
    }
}

fn point(selected: bool) -> (r: String)
    ensures
        r@ == pointer(selected),
{
    if selected {
        "▶".to_owned()
    } else {
        " ".to_owned()
    }
}

/// A width without the margin of two.
pub open spec fn narrowed(width: nat) -> nat {
    if width >= 2 {
        (width - 2) as nat
    } else {
        0
    }
}

/// The heading of the activity.
pub open spec fn activity_heading(rs: Seq<RevisionView>) -> Seq<char> {
    "RECENT ACTIVITY — "@ + decimal(rs.len()) + " revisions · "@ + decimal(
        distinct_files(rs, rs.len() as int),
    ) + " files · "@ + decimal(distinct_editors(rs, rs.len() as int)) + " editors"@
}

/// The lines of the activity behind its heading.
pub open spec fn activity_lines(a: AppView, width: nat, now: u64) -> Seq<Seq<char>> {
    a.activity.map(
        |i: int, r: RevisionView|
            pointer(i == a.activity_index) + " "@ + row_of_activity(r, narrowed(width), now),
    )
}

/// The text of the activity.
pub open spec fn text_of_activity(a: AppView, width: nat, now: u64) -> Seq<char> {
    joined(seq![activity_heading(a.activity)] + activity_lines(a, width, now), "\n"@)
}

/// The text of the activity.
pub fn activity_text(app: &App, width: usize, now: u64) -> (r: String)
    ensures
        r@ == text_of_activity(app@, width as nat, now),
{
    let ghost rs = app@.activity;
    let mut heading: String = "RECENT ACTIVITY — ".to_owned();
    heading.append(to_decimal(app.activity.len() as u64).as_str());
    heading.append(" revisions · ");
    heading.append(to_decimal(count_files(&app.activity) as u64).as_str());
    heading.append(" files · ");
    heading.append(to_decimal(count_editors(&app.activity) as u64).as_str());
    heading.append(" editors");
    let inner: usize = if width >= 2 {
        width - 2
    } else {
        0
    };
    let mut out: Vec<String> = Vec::new();
    out.push(heading);
    let mut i: usize = 0;
    while i < app.activity.len()
        invariant
            i <= app.activity.len(),
            rs == all_views(app.activity@),
            rs == app@.activity,
            inner == narrowed(width as nat),
            out@.len() == i + 1,
            out@[0]@ == activity_heading(rs),
            forall|j: int|
                0 < j <= i ==> (#[trigger] out@[j])@ == pointer(j - 1 == app.activity_index) + " "@
                    + row_of_activity(rs[j - 1], inner as nat, now),
        decreases app.activity.len() - i,
    {
        assert(rs[i as int] == app.activity@[i as int]@);
        let mut line: String = point(i == app.activity_index);
        line.append(" ");
        line.append(activity_row(&app.activity[i], inner, now).as_str());
        out.push(line);
        i += 1;
    }
    assert(views(out@) =~= seq![activity_heading(rs)] + activity_lines(app@, width as nat, now));
    join(&out, "\n")
}

/// The line of a result in the list of results.
pub open spec fn result_line(r: ResultView, selected: bool, width: nat, now: u64) -> Seq<char> {
    fitted(
        pointer(selected) + " rev "@ + decimal(r.revision as nat) + "  "@ + shown_time(r.epoch, now)
            + "  "@ + r.editor + "  "@ + r.actor + "  "@ + decimal(r.matches as nat) + " match"@
            + (if r.matches == 1 {
            Seq::<char>::empty()
        } else {
            "es"@
        }) + tag_mark(r.tag),
        width,
    )
}

/// The lines of a result: a blank line and its path where the path is new, its line, and its
/// preview where it has one.
pub open spec fn result_block(a: AppView, n: int, width: nat, now: u64) -> Seq<Seq<char>> {
    let r = a.search_results[n];
    (if n == 0 || !same_path_text(a.search_results[n - 1].path, r.path) {
        seq![Seq::<char>::empty(), fitted(r.path, width)]
    } else {
        Seq::empty()
    }) + seq![result_line(r, n == a.search_index, width, now)] + (if r.preview.len() > 0 {
        seq![fitted("    "@ + r.preview, width)]
    } else {
        Seq::empty()
    })
}

/// The lines of the first `n` results.
pub open spec fn result_blocks(a: AppView, n: int, width: nat, now: u64) -> Seq<Seq<char>>
    decreases n,
{
    if n <= 0 {
        Seq::empty()
    } else {
        result_blocks(a, n - 1, width, now) + result_block(a, n - 1, width, now)
    }
}

/// The heading of the list of results.
pub open spec fn results_heading(a: AppView) -> Seq<char> {
    "SEARCH: "@ + a.input + "  ("@ + decimal(a.search_results.len()) + " result"@ + plural(
        a.search_results.len(),
    ) + ")"@
}

/// The text of the list of results.
pub open spec fn text_of_results(a: AppView, width: nat, now: u64) -> Seq<char> {
    joined(
        seq![results_heading(a)] + result_blocks(a, a.search_results.len() as int, width, now),
        "\n"@,
    )
}

fn make_result_line(result: &SearchResult, selected: bool, width: usize, now: u64) -> (r: String)
    ensures
        r@ == result_line(result@, selected, width as nat, now),
{
    let mut line: String = point(selected);
    line.append(" rev ");
    line.append(to_decimal(result.revision).as_str());
    line.append("  ");
    line.append(format_timestamp(result.epoch, now).as_str());
    line.append("  ");
    line.append(result.editor.as_str());
    line.append("  ");
    line.append(result.actor.as_str());
    line.append("  ");
    line.append(to_decimal(result.matches as u64).as_str());
    line.append(" match");
    let ending: String = if result.matches == 1 {
        String::new()
    } else {
        "es".to_owned()
    };
    line.append(ending.as_str());
    line.append(mark_tag(&result.tag).as_str());
    fit(line, width)
}

fn push_result_block(out: &mut Vec<String>, app: &App, n: usize, width: usize, now: u64)
    requires
        n < app@.search_results.len(),
    ensures
        views(final(out)@) == views(old(out)@) + result_block(app@, n as int, width as nat, now),
{
    let ghost rs = app@.search_results;
    assert(rs[n as int] == app.search_results@[n as int]@);
    let hit: &SearchResult = &app.search_results[n];
    let ghost before = views(out@);
    let mut heads: bool = true;
    if n > 0 {
        assert(rs[n - 1] == app.search_results@[n - 1]@);
        heads = !same_path(app.search_results[n - 1].path.as_str(), hit.path.as_str());
    }
    if heads {
        out.push(String::new());
        out.push(fit(hit.path.clone(), width));
    }
    let ghost head = if n == 0 || !same_path_text(rs[n - 1].path, rs[n as int].path) {
        seq![Seq::<char>::empty(), fitted(rs[n as int].path, width as nat)]
    } else {
        Seq::empty()
    };
    assert(views(out@) =~= before + head);
    out.push(make_result_line(hit, n == app.search_index, width, now));
    let ghost line = seq![result_line(hit@, n == app.search_index, width as nat, now)];
    assert(views(out@) =~= before + (head + line));
    if chars_of(hit.preview.as_str()).len() > 0 {
        let mut text: String = "    ".to_owned();
        text.append(hit.preview.as_str());
        out.push(fit(text, width));
    }
    assert(views(out@) =~= before + result_block(app@, n as int, width as nat, now));
}

/// Whether what a result shows fits on lines.
pub open spec fn result_is_plain(r: ResultView) -> bool {
    &&& one_line(r.path)
    &&& one_line(r.editor)
    &&& one_line(r.actor)
    &&& one_line(r.preview)
    &&& r.tag matches Some(tag) ==> one_line(tag)
}

/// Whether a result is selected, and nothing that the list of results shows is more than a line.
pub open spec fn results_are_plain(a: AppView) -> bool {
    &&& a.search_index < a.search_results.len()
    &&& one_line(a.input)
    &&& forall|i: int|
        0 <= i < a.search_results.len() ==> result_is_plain(#[trigger] a.search_results[i])
}

/// Whether a text has the selected result, with the sign before it, on the line that is kept in
/// view; the lines are those that it has between its line feeds.
pub open spec fn shows_selected(a: AppView, text: Seq<char>, width: nat, now: u64) -> bool {
    let line = line_of_result(a.search_results, a.search_index);
    let shown = pieces(text, "\n"@);
    &&& 3 <= line < shown.len()
    &&& shown[line as int] == result_line(
        a.search_results[a.search_index as int],
        true,
        width,
        now,
    )
    &&& shown[line as int].len() > 0 && shown[line as int][0] == '▶'
}

/// Whether each result is on a line below those of the results before it.
pub open spec fn lines_ascend(results: Seq<ResultView>) -> bool {
    forall|i: usize, j: usize|
        i < j < results.len() ==> #[trigger] line_of_result(results, i) < #[trigger] line_of_result(
            results,
            j,
        )
}

/// The text of the list of results. The selected one is on the line that is kept in view, and each
/// one below those before it.
pub fn search_results_text(app: &App, width: usize, now: u64) -> (r: String)
    ensures
        r@ == text_of_results(app@, width as nat, now),
        width >= 2 && results_are_plain(app@) ==> shows_selected(app@, r@, width as nat, now),
        lines_ascend(app@.search_results),
{
    let mut heading: String = "SEARCH: ".to_owned();
    heading.append(app.input.as_str());
    heading.append("  (");
    heading.append(to_decimal(app.search_results.len() as u64).as_str());
    heading.append(" result");
    let ending: String = if app.search_results.len() == 1 {
        String::new()
    } else {
        "s".to_owned()
    };
    heading.append(ending.as_str());
    heading.append(")");
    assert(heading@ == results_heading(app@));
    let mut out: Vec<String> = Vec::new();
    out.push(heading);
    let ghost head = seq![results_heading(app@)];
    assert(views(out@) =~= head + result_blocks(app@, 0, width as nat, now));
    let mut i: usize = 0;
    while i < app.search_results.len()
        invariant
            i <= app.search_results.len(),
            views(out@) == head + result_blocks(app@, i as int, width as nat, now),
        decreases app.search_results.len() - i,
    {
        push_result_block(&mut out, app, i, width, now);
        assert(views(out@) =~= head + result_blocks(app@, i + 1, width as nat, now));
        i += 1;
    }
    let count: usize = out.len();
    proof {
        let rows = app@.search_results.len() as int;
        lemma_block_lines(app@, rows, width as nat, now);
        assert(views(out@).len() == count);
        lemma_lines_ascend(app@.search_results);
        if width >= 2 && results_are_plain(app@) {
            law_selected_result_is_kept_in_view(app@, width as nat, now);
        }
    }
    join(&out, "\n")
}

/// The list of results has its selected result, with the sign before it, on the line that is kept
/// in view, where its lines can be counted.
pub proof fn law_selected_result_is_kept_in_view(a: AppView, width: nat, now: u64)
    requires
        results_are_plain(a),
        width >= 2,
        lines_before(a.search_results, a.search_results.len() as int) <= usize::MAX,
    ensures
        shows_selected(a, text_of_results(a, width, now), width, now),
{
    reveal_strlit("▶");
    let n = a.search_index as int;
    let total = a.search_results.len() as int;
    let all = seq![results_heading(a)] + result_blocks(a, total, width, now);
    lemma_heading_is_one_line(a);
    lemma_blocks_are_lines(a, total, width, now);
    law_splitting_undoes_joining(all);
    lemma_block_lines(a, n, width, now);
    lemma_block_kept(a, n, total, width, now);
    law_result_lines_ascend(a.search_results, n, n);
    lemma_lines_grow(a.search_results, n + 1, total);
    let block = result_block(a, n, width, now);
    let h = heading_lines(a.search_results, n);
    let at = lines_before(a.search_results, n) + h;
    assert(block[h] == result_line(a.search_results[n], true, width, now));
    assert(all[at] == block[h]);
    let r = a.search_results[n];
    assert(pointer(true)[0] == '▶');
    let text = pointer(true) + " rev "@ + decimal(r.revision as nat) + "  "@ + shown_time(
        r.epoch,
        now,
    ) + "  "@ + r.editor + "  "@ + r.actor + "  "@ + decimal(r.matches as nat) + " match"@ + (if r.matches
        == 1 {
        Seq::<char>::empty()
    } else {
        "es"@
    }) + tag_mark(r.tag);
    assert(text[0] == '▶');
    assert(result_line(r, true, width, now) == fitted(text, width));
}

proof fn lemma_fitted_is_one_line(text: Seq<char>, width: nat)
    requires
        one_line(text),
    ensures
        one_line(fitted(text, width)),
{
    let cut = fitted(text, width);
    assert forall|i: int| 0 <= i < cut.len() implies #[trigger] cut[i] != '\n' by {
        if i < text.len() {
            assert(text[i] != '\n');
        }
    }
}

proof fn lemma_heading_is_one_line(a: AppView)
    requires
        one_line(a.input),
    ensures
        one_line(results_heading(a)),
{
    broadcast use lemma_one_line;

    reveal_strlit("SEARCH: ");
    reveal_strlit("  (");
    reveal_strlit(" result");
    reveal_strlit("s");
    reveal_strlit(")");
    lemma_decimal(a.search_results.len());
    assert(one_line(decimal(a.search_results.len())));
    assert(one_line("SEARCH: "@) && one_line("  ("@) && one_line(" result"@) && one_line(")"@));
    assert(one_line(plural(a.search_results.len())));
}

proof fn lemma_result_is_one_line(r: ResultView, selected: bool, width: nat, now: u64)
    requires
        result_is_plain(r),
    ensures
        one_line(result_line(r, selected, width, now)),
{
    broadcast use lemma_one_line;

    reveal_strlit("▶");
    reveal_strlit(" ");
    reveal_strlit(" rev ");
    reveal_strlit("  ");
    reveal_strlit(" match");
    reveal_strlit("es");
    reveal_strlit(" ★ ");
    lemma_decimal(r.revision as nat);
    lemma_decimal(r.matches as nat);
    lemma_shown_time_is_one_line(r.epoch, now);
    assert(one_line(pointer(selected)) && one_line(" rev "@) && one_line("  "@) && one_line(
        " match"@,
    ) && one_line("es"@) && one_line(" ★ "@) && one_line(Seq::<char>::empty()));
    assert(one_line(decimal(r.revision as nat)) && one_line(decimal(r.matches as nat)));
    assert(one_line(tag_mark(r.tag)));
    lemma_fitted_is_one_line(
        pointer(selected) + " rev "@ + decimal(r.revision as nat) + "  "@ + shown_time(r.epoch, now)
            + "  "@ + r.editor + "  "@ + r.actor + "  "@ + decimal(r.matches as nat) + " match"@
            + (if r.matches == 1 {
            Seq::<char>::empty()
        } else {
            "es"@
        }) + tag_mark(r.tag),
        width,
    );
}

proof fn lemma_blocks_are_lines(a: AppView, n: int, width: nat, now: u64)
    requires
        0 <= n <= a.search_results.len(),
        forall|i: int|
            0 <= i < a.search_results.len() ==> result_is_plain(#[trigger] a.search_results[i]),
    ensures
        forall|i: int|
            0 <= i < result_blocks(a, n, width, now).len() ==> one_line(
                #[trigger] result_blocks(a, n, width, now)[i],
            ),
    decreases n,
{
    if n > 0 {
        lemma_blocks_are_lines(a, n - 1, width, now);
        let r = a.search_results[n - 1];
        reveal_strlit("    ");
        assert(one_line("    "@ + r.preview));
        lemma_fitted_is_one_line("    "@ + r.preview, width);
        lemma_fitted_is_one_line(r.path, width);
        lemma_result_is_one_line(r, n - 1 == a.search_index, width, now);
        let before = result_blocks(a, n - 1, width, now);
        let block = result_block(a, n - 1, width, now);
        assert forall|i: int| 0 <= i < block.len() implies one_line(#[trigger] block[i]) by {}
        assert forall|i: int| 0 <= i < (before + block).len() implies one_line(
            #[trigger] (before + block)[i],
        ) by {
            if i >= before.len() {
                assert((before + block)[i] == block[i - before.len()]);
            }
        }
    }
}

proof fn lemma_block_kept(a: AppView, n: int, total: int, width: nat, now: u64)
    requires
        0 <= n < total <= a.search_results.len(),
    ensures
        ({
            let before = result_blocks(a, n, width, now).len() as int;
            let block = result_block(a, n, width, now);
            let all = result_blocks(a, total, width, now);
            &&& before + block.len() <= all.len()
            &&& forall|i: int| 0 <= i < block.len() ==> all[before + i] == #[trigger] block[i]
        }),
    decreases total,
{
    if n < total - 1 {
        lemma_block_kept(a, n, total - 1, width, now);
    }
}

proof fn lemma_lines_ascend(results: Seq<ResultView>)
    requires
        lines_before(results, results.len() as int) <= usize::MAX,
    ensures
        lines_ascend(results),
{
    assert forall|i: usize, j: usize| i < j < results.len() implies #[trigger] line_of_result(
        results,
        i,
    ) < #[trigger] line_of_result(results, j) by {
        law_result_lines_ascend(results, i as int, j as int);
        lemma_lines_grow(results, j + 1, results.len() as int);
    }
}

proof fn lemma_lines_grow(results: Seq<ResultView>, n: int, m: int)
    requires
        0 <= n <= m,
    ensures
        lines_before(results, n) <= lines_before(results, m),
    decreases m,
{
    if n < m {
        lemma_lines_grow(results, n, m - 1);
    }
}

proof fn lemma_block_lines(a: AppView, n: int, width: nat, now: u64)
    requires
        0 <= n,
    ensures
        result_blocks(a, n, width, now).len() + 1 == lines_before(a.search_results, n),
    decreases n,
{
    if n > 0 {
        lemma_block_lines(a, n - 1, width, now);
    }
}

/// The sign before a field of the filters.
pub open spec fn filter_mark(a: AppView, field: FilterField) -> Seq<char> {
    pointer(a.filter_field == field)
}

/// The sign before a field of the filters.
pub fn selected_filter(app: &App, field: FilterField) -> (r: String)
    ensures
        r@ == filter_mark(app@, field),
{
    point(app.filter_field == field)
}

/// The name of a field of the filters.
pub open spec fn field_name(field: FilterField) -> Seq<char> {
    match field {
        FilterField::Path => "Path"@,
        FilterField::Tag => "Tag"@,
        FilterField::Actor => "Actor"@,
        FilterField::Editor => "Editor"@,
        FilterField::Date => "Date"@,
    }
}

fn name_field(field: FilterField) -> (r: &'static str)
    ensures
        r@ == field_name(field),
{
    match field {
        FilterField::Path => "Path",
        FilterField::Tag => "Tag",
        FilterField::Actor => "Actor",
        FilterField::Editor => "Editor",
        FilterField::Date => "Date",
    }
}

/// The name of a mode.
pub open spec fn mode_name(mode: Mode) -> Seq<char> {
    match mode {
        Mode::Main => "Main"@,
        Mode::Help => "Help"@,
        Mode::SearchInput => "SearchInput"@,
        Mode::SearchResults => "SearchResults"@,
        Mode::Inspect => "Inspect"@,
        Mode::TagInput => "TagInput"@,
        Mode::ConfirmRestore => "ConfirmRestore"@,
        Mode::Activity => "Activity"@,
        Mode::Filters => "Filters"@,
    }
}

/// The name of a mode.
pub fn name_mode(mode: Mode) -> (r: &'static str)
    ensures
        r@ == mode_name(mode),
{
    match mode {
        Mode::Main => "Main",
        Mode::Help => "Help",
        Mode::SearchInput => "SearchInput",
        Mode::SearchResults => "SearchResults",
        Mode::Inspect => "Inspect",
        Mode::TagInput => "TagInput",
        Mode::ConfirmRestore => "ConfirmRestore",
        Mode::Activity => "Activity",
        Mode::Filters => "Filters",
    }
}

/// The text of the filters.
pub open spec fn filters_text(a: AppView) -> Seq<char> {
    "METADATA FILTERS — "@ + field_name(a.filter_field) + "\n\n"@ + filter_mark(a, FilterField::Path)
        + " path: "@ + a.filters.path + "_\n"@ + filter_mark(a, FilterField::Tag) + " tag: "@
        + a.filters.tag + "_\n"@ + filter_mark(a, FilterField::Actor) + " actor/user: "@
        + a.filters.actor + "_\n"@ + filter_mark(a, FilterField::Editor) + " editor: "@
        + a.filters.editor + "_\n"@ + filter_mark(a, FilterField::Date) + " date/time: "@
        + a.filters.date + "_\n\nTab/↓ next field   Enter apply   Esc back"@
}

fn make_filters_text(app: &App) -> (r: String)
    ensures
        r@ == filters_text(app@),
{
    let mut out: String = "METADATA FILTERS — ".to_owned();
    out.append(name_field(app.filter_field));
    out.append("\n\n");
    out.append(selected_filter(app, FilterField::Path).as_str());
    out.append(" path: ");
    out.append(app.filters.path.as_str());
    out.append("_\n");
    out.append(selected_filter(app, FilterField::Tag).as_str());
    out.append(" tag: ");
    out.append(app.filters.tag.as_str());
    out.append("_\n");
    out.append(selected_filter(app, FilterField::Actor).as_str());
    out.append(" actor/user: ");
    out.append(app.filters.actor.as_str());
    out.append("_\n");
    out.append(selected_filter(app, FilterField::Editor).as_str());
    out.append(" editor: ");
    out.append(app.filters.editor.as_str());
    out.append("_\n");
    out.append(selected_filter(app, FilterField::Date).as_str());
    out.append(" date/time: ");
    out.append(app.filters.date.as_str());
    out.append("_\n\nTab/↓ next field   Enter apply   Esc back");
    out
}

/// The question before a revision is restored.
pub open spec fn restore_question(a: AppView) -> Seq<char> {
    (if a.restore_rendered {
        "Goto"@
    } else {
        "Restore"@
    }) + " "@ + (match file_selected(a) {
        Some(path) => path,
        None => "file"@,
    }) + " revision "@ + decimal(
        match revision_selected(a) {
            Some(r) => r.number as nat,
            None => 0,
        },
    )
        + "?\n\nCurrent state will be preserved automatically before this revision becomes current.\n"@
        + (if a.restore_rendered {
        "The historical state becomes a NEW revision."@
    } else {
        "The historical backup becomes a NEW revision."@
    }) + "\n\nEnter/y confirm   Esc/n cancel"@
}

fn make_restore_question(app: &App) -> (r: String)
    ensures
        r@ == restore_question(app@),
{
    let mut out: String = if app.restore_rendered {
        "Goto".to_owned()
    } else {
        "Restore".to_owned()
    };
    out.append(" ");
    match app.selected_file() {
        Some(path) => out.append(path.as_str()),
        None => out.append("file"),
    }
    out.append(" revision ");
    let number: u64 = match app.selected_revision() {
        Some(r) => r.number,
        None => 0,
    };
    out.append(to_decimal(number).as_str());
    out.append(
        "?\n\nCurrent state will be preserved automatically before this revision becomes current.\n",
    );
    out.append(
        if app.restore_rendered {
            "The historical state becomes a NEW revision."
        } else {
            "The historical backup becomes a NEW revision."
        },
    );
    out.append("\n\nEnter/y confirm   Esc/n cancel");
    out
}

/// What is known of the selected revision.
pub open spec fn metadata(a: AppView, now: u64) -> Seq<char> {
    match a.selected_item {
        Some(e) => e.revision.access.path + " — revision "@ + decimal(e.revision.number as nat)
            + "\nTime: "@ + shown_time(e.revision.access.epoch, now) + "\nEditor: "@
            + e.revision.access.editor + "\nActor: "@ + e.revision.actor + "\nTag: "@ + (
        match e.revision.tag {
            Some(t) => t,
            None => "—"@,
        }),
        None => "No revision selected"@,
    }
}

fn describe_selected(app: &App, now: u64) -> (r: String)
    ensures
        r@ == metadata(app@, now),
{
    match &app.selected_item {
        Some(item) => {
            let mut out: String = item.revision.access.path.clone();
            out.append(" — revision ");
            out.append(to_decimal(item.revision.number).as_str());
            out.append("\nTime: ");
            out.append(format_timestamp(item.revision.access.epoch, now).as_str());
            out.append("\nEditor: ");
            out.append(item.revision.access.editor.as_str());
            out.append("\nActor: ");
            out.append(item.revision.actor.as_str());
            out.append("\nTag: ");
            match &item.revision.tag {
                Some(t) => out.append(t.as_str()),
                None => out.append("—"),
            }
            out
        },
        None => "No revision selected".to_owned(),
    }
}

/// What is shown of an inspected revision.
pub open spec fn inspection(a: AppView, now: u64) -> Seq<char> {
    metadata(a, now) + "\n\n"@ + joined(numbered_lines(line_seq(a.inspect)), "\n"@)
        + "\n\n-----------------------------\nDIFF\n"@ + a.diff
}

/// The text above the panels in a mode.
pub open spec fn overlay(a: AppView, width: nat, now: u64) -> Seq<char> {
    match a.mode {
        Mode::Help => help_text(),
        Mode::SearchInput => "Search all rendered revisions: "@ + a.input
            + "_\n\nEnter search   Esc cancel (use f before/after search for filters)"@,
        Mode::TagInput => "Tag selected revision: "@ + a.input + "_"@,
        Mode::ConfirmRestore => restore_question(a),
        Mode::Inspect => inspection(a, now),
        Mode::SearchResults => text_of_results(a, width, now),
        Mode::Activity => text_of_activity(a, width, now),
        Mode::Filters => filters_text(a),
        Mode::Main => Seq::empty(),
    }
}

/// What the keys do.
pub open spec fn help_text() -> Seq<char> {
    "↑/↓ or j/k navigate\n←/→ or h/l panels\nPgUp/PgDn scroll   n/N diff hunks\nEnter inspect/select\nd mark/compare revisions   c marked → current\nt tag   g goto rendered state   r restore backup\n/ historical search   f metadata filters\nH global activity   Esc back   q quit"@
}

/// The text above the panels in a mode.
pub fn overlay_text_with_width(app: &App, width: usize, now: u64) -> (r: String)
    ensures
        r@ == overlay(app@, width as nat, now),
{
    match app.mode {
        Mode::Help => "↑/↓ or j/k navigate\n←/→ or h/l panels\nPgUp/PgDn scroll   n/N diff hunks\nEnter inspect/select\nd mark/compare revisions   c marked → current\nt tag   g goto rendered state   r restore backup\n/ historical search   f metadata filters\nH global activity   Esc back   q quit".to_owned(),
        Mode::SearchInput => {
            let mut out: String = "Search all rendered revisions: ".to_owned();
            out.append(app.input.as_str());
            out.append("_\n\nEnter search   Esc cancel (use f before/after search for filters)");
            out
        },
        Mode::TagInput => {
            let mut out: String = "Tag selected revision: ".to_owned();
            out.append(app.input.as_str());
            out.append("_");
            out
        },
        Mode::ConfirmRestore => make_restore_question(app),
        Mode::Inspect => {
            let mut out: String = describe_selected(app, now);
            out.append("\n\n");
            out.append(numbered(app.inspect.as_str()).as_str());
            out.append("\n\n-----------------------------\nDIFF\n");
            out.append(app.diff.as_str());
            out
        },
        Mode::SearchResults => search_results_text(app, width, now),
        Mode::Activity => activity_text(app, width, now),
        Mode::Filters => make_filters_text(app),
        Mode::Main => String::new(),
    }
}

/// Whether the heading of the diff is among the first `n` lines.
pub open spec fn diff_begun(all: Seq<Seq<char>>, n: int) -> bool {
    exists|j: int| 0 <= j < n && #[trigger] all[j] == "DIFF"@
}

/// How a line of an inspection looks: headings are yellow, and what follows `DIFF` is a diff.
pub open spec fn inspect_style(all: Seq<Seq<char>>, n: int) -> Style {
    if all[n] == "DIFF"@ || all[n] == "-----------------------------"@ {
        style_of(Some(Colour::Yellow), Some(Colour::Black), false)
    } else if diff_begun(all, n) {
        diff_style(all[n])
    } else {
        style_of(Some(Colour::White), Some(Colour::Black), false)
    }
}

/// The lines of a text as an inspection shows them.
pub open spec fn inspect_styled(all: Seq<Seq<char>>) -> Seq<(Seq<char>, Style)> {
    all.map(|i: int, line: Seq<char>| (line, inspect_style(all, i)))
}

/// The lines of the overlay as an inspection shows them.
pub fn inspect_lines(app: &App, now: u64) -> (r: Vec<StyledLine>)
    ensures
        all_views(r@) == inspect_styled(line_seq(overlay(app@, 110, now))),
{
    let text: String = overlay_text_with_width(app, 110, now);
    let all: Vec<String> = lines(text.as_str());
    let ghost a = line_seq(text@);
    let mut out: Vec<StyledLine> = Vec::new();
    let mut begun: bool = false;
    let mut i: usize = 0;
    while i < all.len()
        invariant
            i <= all.len(),
            a == views(all@),
            begun == diff_begun(a, i as int),
            out@.len() == i,
            forall|j: int| 0 <= j < i ==> (#[trigger] out@[j])@ == (a[j], inspect_style(a, j)),
        decreases all.len() - i,
    {
        assert(a[i as int] == all@[i as int]@);
        let line: &str = all[i].as_str();
        let starts: bool = same(line, "DIFF");
        let style: Style = if starts || same(line, "-----------------------------") {
            Style { fg: Some(Colour::Yellow), bg: Some(Colour::Black), bold: false }
        } else if begun {
            style_diff_line(line)
        } else {
            Style { fg: Some(Colour::White), bg: Some(Colour::Black), bold: false }
        };
        out.push(StyledLine { text: all[i].clone(), style });
        if starts {
            begun = true;
            assert(a[i as int] == "DIFF"@);
        }
        i += 1;
    }
    assert(a.len() == all@.len());
    assert(all_views(out@) =~= inspect_styled(a));
    out
}

/// The colour of a line of a difference is told by how it begins: the heading of a hunk, the names
/// of the two sides, what was added and what was taken away; every other line is plain.
pub proof fn law_lines_of_a_difference_have_their_colours(line: Seq<char>)
    ensures
        line.len() >= 2 && line[0] == '@' && line[1] == '@' ==> diff_colour(line) == Colour::Cyan,
        line.len() >= 3 && line[0] == '-' && line[1] == '-' && line[2] == '-' ==> diff_colour(line)
            == Colour::Yellow,
        line.len() >= 3 && line[0] == '+' && line[1] == '+' && line[2] == '+' ==> diff_colour(line)
            == Colour::Yellow,
        line.len() > 0 && line[0] == '+' && !(line.len() >= 3 && line[1] == '+' && line[2] == '+')
            ==> diff_colour(line) == Colour::Green,
        line.len() > 0 && line[0] == '-' && !(line.len() >= 3 && line[1] == '-' && line[2] == '-')
            ==> diff_colour(line) == Colour::Red,
        line.len() == 0 || (line[0] != '+' && line[0] != '-' && line[0] != '@') ==> diff_colour(line)
            == Colour::White,
{
    reveal_strlit("@@");
    reveal_strlit("---");
    reveal_strlit("+++");
    reveal_strlit("+");
    reveal_strlit("-");
    if line.len() >= 2 {
        assert(line.subrange(0, 2)[0] == line[0] && line.subrange(0, 2)[1] == line[1]);
        if line[0] == '@' && line[1] == '@' {
            assert(line.subrange(0, 2) =~= "@@"@);
        }
    }
    if line.len() >= 3 {
        let t = line.subrange(0, 3);
        assert(t[0] == line[0] && t[1] == line[1] && t[2] == line[2]);
        if line[0] == '-' && line[1] == '-' && line[2] == '-' {
            assert(t =~= "---"@);
        }
        if line[0] == '+' && line[1] == '+' && line[2] == '+' {
            assert(t =~= "+++"@);
        }
    }
    if line.len() >= 1 {
        let t = line.subrange(0, 1);
        assert(t[0] == line[0]);
        if line[0] == '+' {
            assert(t =~= "+"@);
        }
        if line[0] == '-' {
            assert(t =~= "-"@);
        }
    }
}

/// Every line of a difference is shown, in its order and with its colour.
pub proof fn law_every_line_of_a_difference_is_shown(diff: Seq<char>, i: int)
    requires
        0 <= i < line_seq(diff).len(),
    ensures
        styled_diff(diff).len() == line_seq(diff).len(),
        styled_diff(diff)[i].0 == line_seq(diff)[i],
        styled_diff(diff)[i].1.fg == Some(diff_colour(line_seq(diff)[i])),
{
}

/// A row of a history fits its width. It begins with its mark; where the width allows it shows the
/// number, the time, the editor, the actor and the tag, and on a narrow screen the number, the time
/// and the tag.
pub proof fn law_row_of_a_history(r: RevisionView, current: bool, width: nat, now: u64)
    ensures
        history_row(r, current, width, now).len() <= width,
        ({
            let marker = if current {
                "● CURRENT"@
            } else {
                "●"@
            };
            let time = shown_time(r.access.epoch, now);
            let tag = match r.tag {
                Some(t) => " ★ "@ + t,
                None => Seq::<char>::empty(),
            };
            let number = decimal(r.number as nat);
            let wide = marker + " rev "@ + padded_right(number, 4) + " "@ + padded_right(time, 16)
                + " "@ + padded_right(r.access.editor, 7) + " "@ + padded_right(r.actor, 10) + tag;
            let middle = marker + " r"@ + number + " "@ + time + " "@ + r.access.editor + " "@
                + r.actor + tag;
            let narrow = marker + " r"@ + number + " "@ + time + tag;
            &&& width >= 64 && wide.len() <= width ==> history_row(r, current, width, now) == wide
            &&& 42 <= width < 64 && middle.len() <= width ==> history_row(r, current, width, now)
                == middle
            &&& width < 42 && narrow.len() <= width ==> history_row(r, current, width, now)
                == narrow
        }),
{
}

/// A history shows a row for each revision, in their order, and the first is the one in use.
pub proof fn law_history_shows_every_revision(
    rs: Seq<RevisionView>,
    width: nat,
    now: u64,
    i: int,
)
    requires
        0 <= i < rs.len(),
    ensures
        history_rows_of(rs, width, now).len() == rs.len(),
        history_rows_of(rs, width, now)[i].0 == history_row(rs[i], i == 0, width, now),
        rs[i].tag is Some ==> history_rows_of(rs, width, now)[i].1.fg == Some(Colour::Magenta),
        rs[i].tag is None && i == 0 ==> history_rows_of(rs, width, now)[i].1.fg == Some(
            Colour::Green,
        ),
        rs[i].tag is None && i > 0 ==> history_rows_of(rs, width, now)[i].1.fg is None,
{
}

/// The row of an event fits its width, and shows the time, what it is and the file; on a wider
/// screen the number too, and on a wide one the editor and the actor.
pub proof fn law_row_of_an_event(
    epoch: u64,
    kind: EventKind,
    path: Seq<char>,
    number: u64,
    editor: Seq<char>,
    actor: Seq<char>,
    width: nat,
    now: u64,
)
    ensures
        event_row(epoch, kind, path, number, editor, actor, width, now).len() <= width,
        ({
            let row = event_row(epoch, kind, path, number, editor, actor, width, now);
            let time = shown_time(epoch, now);
            let label = match kind {
                EventKind::Create => "CREATE"@,
                EventKind::Edit => "EDIT"@,
                EventKind::Access => "ACCESS"@,
            };
            let short = padded_right(time, 8) + " "@ + padded_right(label, 6) + " "@ + path;
            let middle = short + "  r"@ + decimal(number as nat);
            let wide = padded_right(time, 16) + " "@ + padded_right(label, 6) + " "@ + path
                + "  r"@ + decimal(number as nat) + "  "@ + padded_right(editor, 7) + " "@ + actor;
            &&& width < 48 && short.len() <= width ==> row == short
            &&& 48 <= width < 84 && middle.len() <= width ==> row == middle
            &&& width >= 84 && wide.len() <= width ==> row == wide
        }),
{
}

/// The timeline and the results of a search show a row for each, in their order, with what is known
/// of it.
pub proof fn law_every_event_and_result_is_shown(
    es: Seq<EventView>,
    rs: Seq<ResultView>,
    width: nat,
    now: u64,
    i: int,
)
    ensures
        timeline_rows_of(es, width, now).len() == es.len(),
        0 <= i < es.len() ==> timeline_rows_of(es, width, now)[i] == event_row(
            es[i].revision.access.epoch,
            es[i].kind,
            es[i].revision.access.path,
            es[i].revision.number,
            es[i].revision.access.editor,
            es[i].revision.actor,
            width,
            now,
        ),
        search_rows_of(rs, width, now).len() == rs.len(),
        0 <= i < rs.len() ==> search_rows_of(rs, width, now)[i] == event_row(
            rs[i].epoch,
            rs[i].kind,
            rs[i].path,
            rs[i].revision,
            rs[i].editor,
            rs[i].actor,
            width,
            now,
        ),
{
}

/// The row of a recent change fits its width, and shows the time, the file, the editor, the actor
/// and the tag.
pub proof fn law_row_of_a_recent_change(r: RevisionView, width: nat, now: u64)
    ensures
        row_of_activity(r, width, now).len() <= width,
        ({
            let time = shown_time(r.access.epoch, now);
            let tag = match r.tag {
                Some(t) => " ★ "@ + t,
                None => Seq::<char>::empty(),
            };
            let narrow = time + " "@ + r.access.path + " "@ + r.access.editor + " "@ + r.actor
                + tag;
            let wide = padded_right(time, 16) + " "@ + padded_right(r.access.path, 30) + " "@
                + padded_right(r.access.editor, 7) + " "@ + padded_right(r.actor, 10) + tag;
            &&& width < 80 && narrow.len() <= width ==> row_of_activity(r, width, now) == narrow
            &&& width >= 80 && r.access.path.len() <= 30 && wide.len() <= width ==> row_of_activity(
                r,
                width,
                now,
            ) == wide
        }),
{
}

/// Recent changes are shown one on a line below their heading, and the one that is selected is
/// pointed at.
pub proof fn law_every_recent_change_is_shown(a: AppView, width: nat, now: u64, i: int)
    requires
        0 <= i < a.activity.len(),
    ensures
        activity_lines(a, width, now).len() == a.activity.len(),
        activity_lines(a, width, now)[i] == (if i == a.activity_index {
            "▶ "@
        } else {
            "  "@
        }) + row_of_activity(
            a.activity[i],
            if width >= 2 {
                (width - 2) as nat
            } else {
                0
            },
            now,
        ),
        occurs(text_of_activity(a, width, now), activity_lines(a, width, now)[i]),
{
    reveal_strlit("▶");
    reveal_strlit("▶ ");
    reveal_strlit(" ");
    reveal_strlit("  ");
    assert("▶"@ + " "@ =~= "▶ "@);
    assert(" "@ + " "@ =~= "  "@);
    let lines = activity_lines(a, width, now);
    let all = seq![activity_heading(a.activity)] + lines;
    assert(all[i + 1] == lines[i]);
    lemma_joined_occurs(all, "\n"@, i + 1);
}

/// Files and editors are counted once each: one more revision counts where none before it has its
/// file, or its editor.
pub proof fn law_files_and_editors_are_counted_once(rs: Seq<RevisionView>, r: RevisionView)
    ensures
        ({
            let n = rs.len() as int;
            let more = rs.push(r);
            &&& distinct_files(more, n + 1) == distinct_files(rs, n) + if exists|j: int|
                0 <= j < n && components((#[trigger] rs[j]).access.path) == components(
                    r.access.path,
                ) {
                0nat
            } else {
                1nat
            }
            &&& distinct_editors(more, n + 1) == distinct_editors(rs, n) + if exists|j: int|
                0 <= j < n && (#[trigger] rs[j]).access.editor == r.access.editor {
                0nat
            } else {
                1nat
            }
        }),
        distinct_files(rs, 0) == 0 && distinct_editors(rs, 0) == 0,
{
    let n = rs.len() as int;
    let more = rs.push(r);
    lemma_counted_in_front(rs, r, n);
    assert forall|j: int| 0 <= j < n implies #[trigger] more[j] == rs[j] by {}
    if exists|j: int|
        0 <= j < n && components((#[trigger] rs[j]).access.path) == components(r.access.path) {
        let j = choose|j: int|
            0 <= j < n && components((#[trigger] rs[j]).access.path) == components(r.access.path);
        assert(same_path_text(more[j].access.path, more[n].access.path));
        assert(file_before(more, n, n));
    }
    if file_before(more, n, n) {
        let j = choose|j: int|
            0 <= j < n && #[trigger] same_path_text(more[j].access.path, more[n].access.path);
        assert(components(rs[j].access.path) == components(r.access.path));
    }
    if exists|j: int| 0 <= j < n && (#[trigger] rs[j]).access.editor == r.access.editor {
        let j = choose|j: int| 0 <= j < n && (#[trigger] rs[j]).access.editor == r.access.editor;
        assert(more[j].access.editor == more[n].access.editor);
        assert(editor_before(more, n, n));
    }
    if editor_before(more, n, n) {
        let j = choose|j: int|
            0 <= j < n && (#[trigger] more[j]).access.editor == more[n].access.editor;
        assert(rs[j].access.editor == r.access.editor);
    }
}

proof fn lemma_counted_in_front(rs: Seq<RevisionView>, r: RevisionView, n: int)
    requires
        0 <= n <= rs.len(),
    ensures
        distinct_files(rs.push(r), n) == distinct_files(rs, n),
        distinct_editors(rs.push(r), n) == distinct_editors(rs, n),
    decreases n,
{
    if n > 0 {
        let more = rs.push(r);
        lemma_counted_in_front(rs, r, n - 1);
        assert forall|j: int| 0 <= j < n implies #[trigger] more[j] == rs[j] by {}
        if file_before(rs, n - 1, n - 1) {
            let j = choose|j: int|
                0 <= j < n - 1 && #[trigger] same_path_text(
                    rs[j].access.path,
                    rs[n - 1].access.path,
                );
            assert(same_path_text(more[j].access.path, more[n - 1].access.path));
        }
        if file_before(more, n - 1, n - 1) {
            let j = choose|j: int|
                0 <= j < n - 1 && #[trigger] same_path_text(
                    more[j].access.path,
                    more[n - 1].access.path,
                );
            assert(same_path_text(rs[j].access.path, rs[n - 1].access.path));
        }
        if editor_before(rs, n - 1, n - 1) {
            let j = choose|j: int|
                0 <= j < n - 1 && (#[trigger] rs[j]).access.editor == rs[n - 1].access.editor;
            assert(more[j].access.editor == more[n - 1].access.editor);
        }
        if editor_before(more, n - 1, n - 1) {
            let j = choose|j: int|
                0 <= j < n - 1 && (#[trigger] more[j]).access.editor == more[n - 1].access.editor;
            assert(rs[j].access.editor == rs[n - 1].access.editor);
        }
    }
}

/// Every result of a search has its line among those that are shown, with its preview below it, and
/// the file it is of above it.
pub proof fn law_every_result_has_its_line(a: AppView, n: int, width: nat, now: u64, k: int)
    requires
        0 <= k < n <= a.search_results.len(),
    ensures
        ({
            let lines = result_blocks(a, n, width, now);
            let r = a.search_results[k];
            &&& lines.contains(result_line(r, k == a.search_index, width, now))
            &&& r.preview.len() > 0 ==> lines.contains(fitted("    "@ + r.preview, width))
            &&& k == 0 || !same_path_text(a.search_results[k - 1].path, r.path) ==> lines.contains(
                fitted(r.path, width),
            )
        }),
    decreases n,
{
    let before = result_blocks(a, n - 1, width, now);
    let own = result_block(a, n - 1, width, now);
    if k < n - 1 {
        law_every_result_has_its_line(a, n - 1, width, now, k);
    } else {
        lemma_block_of_a_result(a, k, width, now);
    }
    assert forall|x: Seq<char>| before.contains(x) || own.contains(x) implies #[trigger] (before
        + own).contains(x) by {
        if before.contains(x) {
            let i = choose|i: int| 0 <= i < before.len() && before[i] == x;
            assert((before + own)[i] == x);
        } else {
            let i = choose|i: int| 0 <= i < own.len() && own[i] == x;
            assert((before + own)[before.len() + i] == x);
        }
    }
}

proof fn lemma_block_of_a_result(a: AppView, k: int, width: nat, now: u64)
    requires
        0 <= k < a.search_results.len(),
    ensures
        ({
            let lines = result_block(a, k, width, now);
            let r = a.search_results[k];
            &&& lines.contains(result_line(r, k == a.search_index, width, now))
            &&& r.preview.len() > 0 ==> lines.contains(fitted("    "@ + r.preview, width))
            &&& k == 0 || !same_path_text(a.search_results[k - 1].path, r.path) ==> lines.contains(
                fitted(r.path, width),
            )
        }),
{
    let r = a.search_results[k];
    let own = result_block(a, k, width, now);
    let line = result_line(r, k == a.search_index, width, now);
    let preview = fitted("    "@ + r.preview, width);
    let path = fitted(r.path, width);
    let heading = if k == 0 || !same_path_text(a.search_results[k - 1].path, r.path) {
        seq![Seq::<char>::empty(), path]
    } else {
        Seq::<Seq<char>>::empty()
    };
    let end = if r.preview.len() > 0 {
        seq![preview]
    } else {
        Seq::<Seq<char>>::empty()
    };
    assert(own == heading + seq![line] + end);
    let at = heading.len() as int;
    assert(own[at] == line);
    if r.preview.len() > 0 {
        assert(own[at + 1] == preview);
    }
    if heading.len() > 0 {
        assert(own[1] == path);
    }
}

/// The line of a result fits its width, and shows the number, the time, the editor, the actor, how
/// often the text occurs, and the tag.
pub proof fn law_line_of_a_result(r: ResultView, selected: bool, width: nat, now: u64)
    ensures
        result_line(r, selected, width, now).len() <= width,
        ({
            let full = (if selected {
                "▶ rev "@
            } else {
                "  rev "@
            }) + decimal(r.revision as nat) + "  "@ + shown_time(r.epoch, now) + "  "@ + r.editor
                + "  "@ + r.actor + "  "@ + decimal(r.matches as nat) + (if r.matches == 1 {
                " match"@
            } else {
                " matches"@
            }) + (match r.tag {
                Some(t) => " ★ "@ + t,
                None => Seq::<char>::empty(),
            });
            full.len() <= width ==> result_line(r, selected, width, now) == full
        }),
{
    reveal_strlit("▶");
    reveal_strlit("▶ rev ");
    reveal_strlit("  rev ");
    reveal_strlit(" rev ");
    reveal_strlit(" ");
    reveal_strlit(" match");
    reveal_strlit(" matches");
    reveal_strlit("es");
    assert("▶"@ + " rev "@ =~= "▶ rev "@);
    assert(" "@ + " rev "@ =~= "  rev "@);
    let front = pointer(selected) + " rev "@ + decimal(r.revision as nat) + "  "@ + shown_time(
        r.epoch,
        now,
    ) + "  "@ + r.editor + "  "@ + r.actor + "  "@ + decimal(r.matches as nat);
    let none = Seq::<char>::empty();
    assert(front + " match"@ + none =~= front + " match"@);
    assert(front + " match"@ + "es"@ =~= front + " matches"@);
}

/// A line of the tree is indented by its depth, marked as open or closed where it is a directory,
/// and ends with its label.
pub proof fn law_line_of_the_tree(node: NodeView, expanded: Seq<Seq<char>>)
    ensures
        ({
            let row = tree_row(node, expanded);
            let n = 2 * (node.depth as nat);
            &&& finishes_with(row, node.label)
            &&& row.len() == n + 2 + node.label.len()
            &&& forall|i: int| 0 <= i < n ==> #[trigger] row[i] == ' '
            &&& row[n as int] == if !node.directory {
                ' '
            } else if names_path(expanded, node.path) {
                '▾'
            } else {
                '▸'
            }
        }),
{
    reveal_strlit("  ");
    reveal_strlit("▾ ");
    reveal_strlit("▸ ");
    lemma_indent(node.depth as nat);
    crate::browse::law_place_of_a_path(expanded, node.path, 0);
    let row = tree_row(node, expanded);
    assert(row.subrange(row.len() - node.label.len(), row.len() as int) =~= node.label);
}

proof fn lemma_indent(depth: nat)
    ensures
        indent(depth).len() == 2 * depth,
        forall|i: int| 0 <= i < 2 * depth ==> #[trigger] indent(depth)[i] == ' ',
    decreases depth,
{
    reveal_strlit("  ");
    if depth > 0 {
        lemma_indent((depth - 1) as nat);
    }
}

/// The question before a restore names the file and the revision; a tag that is typed is shown; and
/// the filters are shown with what stands in each.
pub proof fn law_questions_show_what_they_ask(a: AppView, width: nat, now: u64)
    ensures
        a.mode == Mode::ConfirmRestore ==> {
            &&& file_selected(a) matches Some(path) ==> occurs(overlay(a, width, now), path)
            &&& revision_selected(a) matches Some(r) ==> occurs(
                overlay(a, width, now),
                " revision "@ + decimal(r.number as nat) + "?"@,
            )
        },
        a.mode == Mode::TagInput ==> overlay(a, width, now) == "Tag selected revision: "@ + a.input
            + "_"@,
        a.mode == Mode::SearchInput ==> begins_with(
            overlay(a, width, now),
            "Search all rendered revisions: "@ + a.input + "_"@,
        ),
        a.mode == Mode::Filters ==> {
            let text = overlay(a, width, now);
            &&& occurs(text, " path: "@ + a.filters.path + "_\n"@)
            &&& occurs(text, " tag: "@ + a.filters.tag + "_\n"@)
            &&& occurs(text, " actor/user: "@ + a.filters.actor + "_\n"@)
            &&& occurs(text, " editor: "@ + a.filters.editor + "_\n"@)
            &&& occurs(text, " date/time: "@ + a.filters.date)
        },
        a.mode == Mode::Main ==> overlay(a, width, now).len() == 0,
{
    if a.mode == Mode::ConfirmRestore {
        lemma_question_shows(a);
    }
    if a.mode == Mode::SearchInput {
        reveal_strlit("_");
        reveal_strlit("_\n\nEnter search   Esc cancel (use f before/after search for filters)");
        let front = "Search all rendered revisions: "@ + a.input + "_"@;
        assert(overlay(a, width, now).subrange(0, front.len() as int) =~= front);
    }
    if a.mode == Mode::Filters {
        lemma_filters_show(a);
    }
}

proof fn lemma_question_shows(a: AppView)
    ensures
        file_selected(a) matches Some(path) ==> occurs(restore_question(a), path),
        revision_selected(a) matches Some(r) ==> occurs(
            restore_question(a),
            " revision "@ + decimal(r.number as nat) + "?"@,
        ),
{
    reveal_strlit("?");
    reveal_strlit(
        "?\n\nCurrent state will be preserved automatically before this revision becomes current.\n",
    );
    let tail =
        "?\n\nCurrent state will be preserved automatically before this revision becomes current.\n"@;
    let front = (if a.restore_rendered {
        "Goto"@
    } else {
        "Restore"@
    }) + " "@;
    let file = match file_selected(a) {
        Some(path) => path,
        None => "file"@,
    };
    let number = decimal(
        match revision_selected(a) {
            Some(r) => r.number as nat,
            None => 0,
        },
    );
    let what = if a.restore_rendered {
        "The historical state becomes a NEW revision."@
    } else {
        "The historical backup becomes a NEW revision."@
    };
    let keys = "\n\nEnter/y confirm   Esc/n cancel"@;
    let text = restore_question(a);
    let end = tail + what + keys;
    assert(tail.take(1) =~= "?"@);
    let ask = " revision "@ + number + "?"@;
    assert(text =~= front + file + (" revision "@ + number + end));
    lemma_occurs_between(front, file, " revision "@ + number + end);
    assert(end =~= "?"@ + end.skip(1));
    assert(text =~= (front + file) + ask + end.skip(1));
    lemma_occurs_between(front + file, ask, end.skip(1));
}

proof fn lemma_field_shows(front: Seq<char>, label: Seq<char>, value: Seq<char>, end: Seq<char>, rest: Seq<char>)
    ensures
        occurs(front + label + value + end + rest, label + value + end),
{
    assert(front + label + value + end + rest =~= front + (label + value + end) + rest);
    lemma_occurs_between(front, label + value + end, rest);
}

proof fn lemma_filters_show(a: AppView)
    ensures
        occurs(filters_text(a), " path: "@ + a.filters.path + "_\n"@),
        occurs(filters_text(a), " tag: "@ + a.filters.tag + "_\n"@),
        occurs(filters_text(a), " actor/user: "@ + a.filters.actor + "_\n"@),
        occurs(filters_text(a), " editor: "@ + a.filters.editor + "_\n"@),
        occurs(filters_text(a), " date/time: "@ + a.filters.date),
{
    let f = a.filters;
    let p0 = "METADATA FILTERS — "@ + field_name(a.filter_field) + "\n\n"@ + filter_mark(
        a,
        FilterField::Path,
    );
    let p1 = p0 + " path: "@ + f.path + "_\n"@;
    let q1 = p1 + filter_mark(a, FilterField::Tag);
    let p2 = q1 + " tag: "@ + f.tag + "_\n"@;
    let q2 = p2 + filter_mark(a, FilterField::Actor);
    let p3 = q2 + " actor/user: "@ + f.actor + "_\n"@;
    let q3 = p3 + filter_mark(a, FilterField::Editor);
    let p4 = q3 + " editor: "@ + f.editor + "_\n"@;
    let q4 = p4 + filter_mark(a, FilterField::Date);
    let last = "_\n\nTab/↓ next field   Enter apply   Esc back"@;
    let p5 = q4 + " date/time: "@ + f.date + last;
    let none = Seq::<char>::empty();
    assert(filters_text(a) == p5);
    lemma_field_shows(p0, " path: "@, f.path, "_\n"@, none);
    lemma_field_shows(q1, " tag: "@, f.tag, "_\n"@, none);
    lemma_field_shows(q2, " actor/user: "@, f.actor, "_\n"@, none);
    lemma_field_shows(q3, " editor: "@, f.editor, "_\n"@, none);
    lemma_field_shows(q4, " date/time: "@, f.date, none, last);
    assert(p1 + none =~= p1 && p2 + none =~= p2 && p3 + none =~= p3 && p4 + none =~= p4);
    assert(q4 + " date/time: "@ + f.date + none =~= q4 + " date/time: "@ + f.date);
    assert(" date/time: "@ + f.date + none =~= " date/time: "@ + f.date);
    lemma_part_of_longer(p1, filter_mark(a, FilterField::Tag));
    lemma_part_of_longer(q1 + " tag: "@ + f.tag, "_\n"@);
    lemma_part_of_longer(q1 + " tag: "@, f.tag);
    lemma_part_of_longer(q1, " tag: "@);
    lemma_occurs_in_a_part(q1 + " tag: "@, q1, p1);
    lemma_occurs_in_a_part(q1 + " tag: "@ + f.tag, q1 + " tag: "@, p1);
    lemma_occurs_in_a_part(p2, q1 + " tag: "@ + f.tag, p1);
    lemma_part_of_longer(p2, filter_mark(a, FilterField::Actor));
    lemma_part_of_longer(q2, " actor/user: "@);
    lemma_part_of_longer(q2 + " actor/user: "@, f.actor);
    lemma_part_of_longer(q2 + " actor/user: "@ + f.actor, "_\n"@);
    lemma_occurs_in_a_part(q2 + " actor/user: "@, q2, p2);
    lemma_occurs_in_a_part(q2 + " actor/user: "@ + f.actor, q2 + " actor/user: "@, p2);
    lemma_occurs_in_a_part(p3, q2 + " actor/user: "@ + f.actor, p2);
    lemma_part_of_longer(p3, filter_mark(a, FilterField::Editor));
    lemma_part_of_longer(q3, " editor: "@);
    lemma_part_of_longer(q3 + " editor: "@, f.editor);
    lemma_part_of_longer(q3 + " editor: "@ + f.editor, "_\n"@);
    lemma_occurs_in_a_part(q3 + " editor: "@, q3, p3);
    lemma_occurs_in_a_part(q3 + " editor: "@ + f.editor, q3 + " editor: "@, p3);
    lemma_occurs_in_a_part(p4, q3 + " editor: "@ + f.editor, p3);
    lemma_part_of_longer(p4, filter_mark(a, FilterField::Date));
    lemma_part_of_longer(q4, " date/time: "@);
    lemma_part_of_longer(q4 + " date/time: "@, f.date);
    lemma_part_of_longer(q4 + " date/time: "@ + f.date, last);
    lemma_occurs_in_a_part(q4 + " date/time: "@, q4, p4);
    lemma_occurs_in_a_part(q4 + " date/time: "@ + f.date, q4 + " date/time: "@, p4);
    lemma_occurs_in_a_part(p5, q4 + " date/time: "@ + f.date, p4);
    lemma_occurs_in_a_part(p5, p4, p3);
    lemma_occurs_in_a_part(p5, p3, p2);
    lemma_occurs_in_a_part(p5, p2, p1);
    lemma_occurs_in_a_part(p5, p1, " path: "@ + f.path + "_\n"@);
    lemma_occurs_in_a_part(p5, p2, " tag: "@ + f.tag + "_\n"@);
    lemma_occurs_in_a_part(p5, p3, " actor/user: "@ + f.actor + "_\n"@);
    lemma_occurs_in_a_part(p5, p4, " editor: "@ + f.editor + "_\n"@);
}

proof fn lemma_part_of_longer(a: Seq<char>, b: Seq<char>)
    ensures
        occurs(a + b, a),
{
    let none = Seq::<char>::empty();
    lemma_occurs_between(none, a, b);
    assert(none + a + b =~= a + b);
}

/// Inspecting a revision shows what is known of it, each line of its content with its number, and
/// its difference.
pub proof fn law_inspection_shows_the_content(a: AppView, now: u64, i: int)
    ensures
        begins_with(inspection(a, now), metadata(a, now)),
        finishes_with(inspection(a, now), "\nDIFF\n"@ + a.diff),
        0 <= i < line_seq(a.inspect).len() ==> occurs(
            inspection(a, now),
            padded_left(decimal((i + 1) as nat), ' ', 5) + "  "@ + line_seq(a.inspect)[i],
        ),
        a.selected_item matches Some(e) ==> {
            let known = metadata(a, now);
            &&& begins_with(known, e.revision.access.path + " — revision "@ + decimal(e.revision.number as nat))
            &&& finishes_with(
                known,
                "\nTag: "@ + match e.revision.tag {
                    Some(t) => t,
                    None => "—"@,
                },
            )
            &&& occurs(known, "\nEditor: "@ + e.revision.access.editor + "\nActor: "@ + e.revision.actor)
            &&& occurs(known, "\nTime: "@ + shown_time(e.revision.access.epoch, now))
        },
{
    reveal_strlit("\nDIFF\n");
    reveal_strlit("\n\n-----------------------------\nDIFF\n");
    let known = metadata(a, now);
    let lines = numbered_lines(line_seq(a.inspect));
    let content = joined(lines, "\n"@);
    let bar = "\n\n-----------------------------\nDIFF\n"@;
    let text = inspection(a, now);
    assert(text.subrange(0, known.len() as int) =~= known);
    let end = "\nDIFF\n"@ + a.diff;
    let k = bar.len() - "\nDIFF\n"@.len();
    assert(bar.skip(k) =~= "\nDIFF\n"@);
    let front = known + "\n\n"@ + content + bar.take(k);
    assert(text =~= front + end);
    assert(text.subrange(front.len() as int, text.len() as int) =~= end);
    if 0 <= i < line_seq(a.inspect).len() {
        assert(lines[i] == padded_left(decimal((i + 1) as nat), ' ', 5) + "  "@ + line_seq(
            a.inspect,
        )[i]);
        lemma_joined_occurs(lines, "\n"@, i);
        lemma_occurs_between(known + "\n\n"@, content, bar + a.diff);
        assert(text =~= known + "\n\n"@ + content + (bar + a.diff));
        lemma_occurs_in_a_part(text, content, lines[i]);
    }
    if a.selected_item is Some {
        lemma_metadata_shows(a, now);
    }
}

proof fn lemma_metadata_shows(a: AppView, now: u64)
    requires
        a.selected_item is Some,
    ensures
        ({
            let e = a.selected_item->0;
            let known = metadata(a, now);
            &&& begins_with(known, e.revision.access.path + " — revision "@ + decimal(e.revision.number as nat))
            &&& finishes_with(
                known,
                "\nTag: "@ + match e.revision.tag {
                    Some(t) => t,
                    None => "—"@,
                },
            )
            &&& occurs(known, "\nEditor: "@ + e.revision.access.editor + "\nActor: "@ + e.revision.actor)
            &&& occurs(known, "\nTime: "@ + shown_time(e.revision.access.epoch, now))
        }),
{
    let r = a.selected_item->0.revision;
    let head = r.access.path + " — revision "@ + decimal(r.number as nat);
    let time = "\nTime: "@ + shown_time(r.access.epoch, now);
    let who = "\nEditor: "@ + r.access.editor + "\nActor: "@ + r.actor;
    let tag = "\nTag: "@ + match r.tag {
        Some(t) => t,
        None => "—"@,
    };
    let known = metadata(a, now);
    assert(known =~= head + time + who + tag);
    assert(known.subrange(0, head.len() as int) =~= head);
    assert(known.subrange(known.len() - tag.len(), known.len() as int) =~= tag);
    lemma_occurs_between(head + time, who, tag);
    lemma_occurs_between(head, time, who + tag);
    assert(head + time + (who + tag) =~= known);
}

/// The titles say what they are of: how many results there are, which file the history is of, and
/// which revision the difference is of.
pub proof fn law_titles_say_what_they_are_of(a: AppView, path: Seq<char>, n: u64)
    ensures
        a.search_results.len() > 0 ==> title_of_search(a) == " RESULTS — "@ + decimal(
            a.search_results.len(),
        ) + " "@,
        file_selected(a) matches Some(p) ==> (file_name_of(p) matches Some(name) ==> title_of_history(
            a,
        ) == " HISTORY — "@ + name + " "@),
        context_label(TargetView::Timeline { path, revision: n }) == path + " · r"@ + decimal(
            n as nat,
        ),
        context_label(TargetView::ReposFiles { path, revision: n }) == path + " · r"@ + decimal(
            n as nat,
        ),
        context_label(TargetView::Search { path, revision: n }) == path + " · r"@ + decimal(
            n as nat,
        ),
        begins_with(title_of_diff(a), " DIFF — "@ + context_label(a.diff_context)),
        begins_with(footer_text(a, LayoutClass::Wide), a.status + " | "@),
        begins_with(footer_text(a, LayoutClass::Medium), a.status + " | "@),
        title_of_timeline(a) == if a.timeline_changes_only {
            " TIMELINE — Changes only (f) "@
        } else {
            " TIMELINE — All events (f) "@
        },
{
    let front = " DIFF — "@ + context_label(a.diff_context);
    assert(title_of_diff(a).subrange(0, front.len() as int) =~= front);
    let status = a.status + " | "@;
    assert(footer_text(a, LayoutClass::Wide).subrange(0, status.len() as int) =~= status);
    assert(footer_text(a, LayoutClass::Medium).subrange(0, status.len() as int) =~= status);
}

/// There is a label for each tab, in their order, and the tab that is open stands out; the panel
/// that is chosen has a border of its own.
pub proof fn law_open_tab_stands_out(a: AppView, panel: Panel)
    ensures
        ({
            let labels = labels_of_tabs(a);
            &&& labels.len() == 6
            &&& labels[0].0 == "[ Timeline ]"@ && labels[2].0 == "[ Repos/Files ]"@ && labels[4].0
                == "[ Search ]"@
            &&& labels[0].1.bold <==> a.main_tab == MainTab::Timeline
            &&& labels[2].1.bold <==> a.main_tab == MainTab::ReposFiles
            &&& labels[4].1.bold <==> a.main_tab == MainTab::Search
        }),
        border_of(a, panel).fg == Some(Colour::Cyan) <==> a.panel == panel,
{
}

/// Every line of the tree is shown, and every line of what is inspected; the lines of the difference
/// below its heading have the colours of a difference, and those above are plain.
pub proof fn law_inspected_lines_are_shown(a: AppView, all: Seq<Seq<char>>, i: int, h: int)
    ensures
        tree_rows_of(a).len() == a.tree.len(),
        0 <= i < a.tree.len() ==> tree_rows_of(a)[i] == tree_row(a.tree[i], a.expanded),
        inspect_styled(all).len() == all.len(),
        0 <= i < all.len() ==> inspect_styled(all)[i].0 == all[i],
        0 <= h < i < all.len() && all[h] == "DIFF"@ && all[i] != "DIFF"@ && all[i]
            != "-----------------------------"@ ==> inspect_styled(all)[i].1.fg == Some(
            diff_colour(all[i]),
        ),
        0 <= i < all.len() && (forall|j: int| 0 <= j <= i ==> #[trigger] all[j] != "DIFF"@) && all[i]
            != "-----------------------------"@ ==> inspect_styled(all)[i].1.fg == Some(
            Colour::White,
        ),
{
    if 0 <= h < i < all.len() && all[h] == "DIFF"@ {
        assert(diff_begun(all, i));
    }
}

/// The text of a search that is typed is shown with a mark where the next letter comes; the heading
/// of the results has the text and how many there are.
pub proof fn law_typed_search_is_shown(a: AppView)
    ensures
        a.mode == Mode::SearchInput ==> prompt_of_search(a) == a.input + seq!['_'],
        a.mode != Mode::SearchInput ==> prompt_of_search(a) == a.input,
        results_heading(a) == "SEARCH: "@ + a.input + "  ("@ + decimal(a.search_results.len()) + (
        if a.search_results.len() == 1 {
            " result)"@
        } else {
            " results)"@
        }),
{
    reveal_strlit("_");
    reveal_strlit(" result");
    reveal_strlit(" result)");
    reveal_strlit(" results)");
    reveal_strlit("s");
    reveal_strlit(")");
    assert("_"@ =~= seq!['_']);
    let front = "SEARCH: "@ + a.input + "  ("@ + decimal(a.search_results.len());
    assert(front + " result"@ + Seq::<char>::empty() + ")"@ =~= front + " result)"@);
    assert(front + " result"@ + "s"@ + ")"@ =~= front + " results)"@);
}

} // verus!
