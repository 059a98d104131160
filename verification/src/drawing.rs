//! What stands where on the screen of the browser.

use crate::browse::MainTab;
use crate::header::{
    diff_panel_height, header_height, layout_class, render_header_row, Colour, Glyph, LayoutClass,
};
use crate::screen::{
    active, diff_lines, diff_title, footer, history_rows, history_title, inspect_lines, name_mode,
    overlay_text_with_width, search_prompt, search_rows, search_title, tab_labels, timeline_rows,
    timeline_title, tree_rows, Style, StyledLine,
};
use crate::tui::{App, Mode, Panel};
#[allow(unused_imports)]
use crate::{
    header::{class_of, diff_rows, header_row, header_rows},
    screen::{
        border_of, footer_text, history_rows_of, inspect_styled, labels_of_tabs, mode_name, overlay,
        prompt_of_search, search_rows_of, style_of, styled_diff, timeline_rows_of, title_of_diff,
        title_of_history, title_of_search, title_of_timeline, tree_rows_of,
    },
    text::{all_views, line_seq, views},
    tui::{visible, AppView},
};
use ratatui::layout::{Constraint, Direction, Layout, Rect};
use vstd::prelude::*;

verus! {

/// A rectangle of the screen.
#[derive(Clone, Copy, Debug, PartialEq, Eq, Structural)]
pub struct Area {
    pub x: u16,
    pub y: u16,
    pub width: u16,
    pub height: u16,
}

/// How an area is divided.
#[derive(Clone, Copy, Debug, PartialEq, Eq, Structural)]
pub enum Way {
    /// Into rows.
    Down,
    /// Into columns.
    Across,
}

/// The size that a part of an area should have.
#[derive(Clone, Copy, Debug, PartialEq, Eq, Structural)]
pub enum Limit {
    Length(u16),
    Least(u16),
    Percentage(u16),
}

/// Where an area begins along a way.
pub open spec fn begins(way: Way, area: Area) -> int {
    match way {
        Way::Down => area.y as int,
        Way::Across => area.x as int,
    }
}

/// How far an area reaches along a way.
pub open spec fn extent(way: Way, area: Area) -> int {
    match way {
        Way::Down => area.height as int,
        Way::Across => area.width as int,
    }
}

/// Whether an area lies in another one.
pub open spec fn lies_in(part: Area, area: Area) -> bool {
    &&& area.x <= part.x && part.x + part.width <= area.x + area.width
    &&& area.y <= part.y && part.y + part.height <= area.y + area.height
}

/// What a part gets of an area in which there is room to spare: its length, or its least size
/// and all that is spare.
pub open spec fn share(limit: Limit, spare: int) -> int {
    match limit {
        Limit::Length(n) => n as int,
        Limit::Least(n) => n + spare,
        Limit::Percentage(_) => 0,
    }
}

/// What the first `n` parts get.
pub open spec fn shares(limits: Seq<Limit>, n: int, spare: int) -> int
    decreases n,
{
    if n <= 0 {
        0
    } else {
        shares(limits, n - 1, spare) + share(limits[n - 1], spare)
    }
}

/// Whether limits are lengths but for one least size.
pub open spec fn grows_at(limits: Seq<Limit>, k: int) -> bool {
    &&& 0 <= k < limits.len()
    &&& limits[k] is Least
    &&& forall|i: int| 0 <= i < limits.len() && i != k ==> #[trigger] limits[i] is Length
}

/// Whether parts share an area in which there is room to spare, one behind the other.
pub open spec fn shared_out(way: Way, area: Area, limits: Seq<Limit>, parts: Seq<Area>) -> bool {
    let spare = extent(way, area) - shares(limits, limits.len() as int, 0);
    forall|i: int|
        0 <= i < parts.len() ==> begins(way, #[trigger] parts[i]) == begins(way, area) + shares(
            limits,
            i,
            spare,
        ) && extent(way, parts[i]) == share(limits[i], spare)
}

/// The part of a size that some percent of it are, rounded.
pub open spec fn percent_of(size: int, percent: u16) -> int {
    (size * percent + 50) / 100
}

/// The first of two percentages that make the whole.
pub open spec fn whole_percent(limits: Seq<Limit>) -> Option<u16> {
    if limits.len() == 2 {
        match (limits[0], limits[1]) {
            (Limit::Percentage(p), Limit::Percentage(q)) if p + q == 100 => Some(p),
            _ => None,
        }
    } else {
        None
    }
}

/// Where the parts of an area stand along a way: the first where the area begins, and each next
/// one where the one before ends.
pub open spec fn chained(way: Way, area: Area, parts: Seq<Area>) -> bool {
    &&& parts.len() > 0 ==> begins(way, parts[0]) == begins(way, area)
    &&& forall|i: int|
        0 < i < parts.len() ==> begins(way, #[trigger] parts[i]) == begins(way, parts[i - 1])
            + extent(way, parts[i - 1])
}

/// How far parts reach along a way.
pub open spec fn sizes_of(way: Way, parts: Seq<Area>) -> Seq<int> {
    Seq::new(parts.len(), |i: int| extent(way, parts[i]))
}

/// The sum of the first `n` sizes.
pub open spec fn total(sizes: Seq<int>, n: int) -> int
    decreases n,
{
    if n <= 0 {
        0
    } else {
        total(sizes, n - 1) + sizes[n - 1]
    }
}

/// The size that a least size is in an area: no more than the area.
pub open spec fn least_in(n: u16, size: int) -> int {
    if n <= size {
        n as int
    } else {
        size
    }
}

/// Whether sizes fill an area that has too little room for its limits. Each cell counts as many
/// pieces as `scale` says. A least size is kept as far as the area reaches, and no length is
/// exceeded.
pub open spec fn squeezed(limits: Seq<Limit>, size: int, scale: int, sizes: Seq<int>) -> bool {
    &&& sizes.len() == limits.len()
    &&& total(sizes, sizes.len() as int) == scale * size
    &&& forall|i: int|
        0 <= i < sizes.len() ==> match limits[i] {
            Limit::Length(n) => 0 <= #[trigger] sizes[i] <= scale * n,
            Limit::Least(n) => sizes[i] == scale * least_in(n, size),
            Limit::Percentage(_) => true,
        }
}

/// How far two sizes are apart.
pub open spec fn apart(a: int, b: int) -> int {
    if a <= b {
        b - a
    } else {
        a - b
    }
}

/// How far neighbours among the first `n` sizes are apart, taken together.
pub open spec fn unevenness(sizes: Seq<int>, n: int) -> int
    decreases n,
{
    if n <= 1 {
        0
    } else {
        unevenness(sizes, n - 1) + apart(sizes[n - 2], sizes[n - 1])
    }
}

/// Whether no other sizes that fill an area, in cells or in any fractions of them, are as even.
pub open spec fn evenest(limits: Seq<Limit>, size: int, sizes: Seq<int>) -> bool {
    &&& squeezed(limits, size, 1, sizes)
    &&& forall|scale: int, other: Seq<int>|
        scale > 0 && #[trigger] squeezed(limits, size, scale, other) && other != sizes.map_values(
            |x: int| scale * x,
        ) ==> unevenness(other, other.len() as int) > scale * unevenness(
            sizes,
            sizes.len() as int,
        )
}

/// Whether parts can come of a division. There is one for each limit, in the area, and across the
/// way each is as large as the area. Where the limits are lengths and one least size, and there is
/// room for them, each part gets its length and the one that grows gets the rest. Where there is
/// no room, the parts stand one behind the other and fill the area, the least size is kept as far
/// as the area reaches, and no length is exceeded; if one division of this kind is more even than
/// all others, it is that one. Two percentages that make the whole meet where the first one,
/// rounded, ends.
pub open spec fn divides(way: Way, area: Area, limits: Seq<Limit>, parts: Seq<Area>) -> bool {
    &&& parts.len() == limits.len()
    &&& forall|i: int| 0 <= i < parts.len() ==> lies_in(#[trigger] parts[i], area)
    &&& way == Way::Down ==> forall|i: int|
        0 <= i < parts.len() ==> (#[trigger] parts[i]).x == area.x && parts[i].width == area.width
    &&& way == Way::Across ==> forall|i: int|
        0 <= i < parts.len() ==> (#[trigger] parts[i]).y == area.y && parts[i].height
            == area.height
    &&& (exists|k: int| grows_at(limits, k)) && shares(limits, limits.len() as int, 0) <= extent(
        way,
        area,
    ) ==> shared_out(way, area, limits, parts)
    &&& (exists|k: int| grows_at(limits, k)) && shares(limits, limits.len() as int, 0) > extent(
        way,
        area,
    ) ==> {
        &&& chained(way, area, parts)
        &&& squeezed(limits, extent(way, area), 1, sizes_of(way, parts))
        &&& forall|sizes: Seq<int>| #[trigger]
            evenest(limits, extent(way, area), sizes) ==> sizes_of(way, parts) == sizes
    }
    &&& whole_percent(limits) matches Some(p) ==> {
        &&& begins(way, parts[0]) == begins(way, area)
        &&& extent(way, parts[0]) == percent_of(extent(way, area), p)
        &&& begins(way, parts[1]) == begins(way, area) + percent_of(extent(way, area), p)
        &&& extent(way, parts[1]) == extent(way, area) - percent_of(extent(way, area), p)
    }
}

/// Whether least sizes are ones that the division takes as they are: it reads them as numbers with
/// a sign.
pub open spec fn plain_limits(limits: Seq<Limit>) -> bool {
    forall|i: int|
        0 <= i < limits.len() ==> (#[trigger] limits[i] matches Limit::Least(n) ==> n <= i16::MAX)
}

/// Calls `ratatui::layout::Layout::split`. Trusted: the parts lie in the area, one for each limit,
/// with the size of the area across the way. Lengths around one least size are kept where there is
/// room for them, and two percentages of the whole meet where the first one ends. Without room,
/// the wishes count by their strengths, each far above the next: no gap and no overlap, the least
/// size, the lengths, and last that neighbours be equal; so the parts fill the area, and the most
/// even division that keeps what is stronger is taken if there is just one. Left unsaid is which
/// of several equally even divisions is taken: the solver walks hash maps that are seeded anew in
/// each process.
#[verifier::external_body]
fn split_area(way: Way, area: Area, limits: &Vec<Limit>) -> (parts: Vec<Area>)
    requires
        on_screen(area),
        limits@.len() <= 6,
        plain_limits(limits@),
    ensures
        divides(way, area, limits@, parts@),
{
    let direction = match way {
        Way::Down => Direction::Vertical,
        Way::Across => Direction::Horizontal,
    };
    let constraints = limits.iter().map(|limit| match limit {
        Limit::Length(n) => Constraint::Length(*n),
        Limit::Least(n) => Constraint::Min(*n),
        Limit::Percentage(n) => Constraint::Percentage(*n),
    });
    let whole = Rect { x: area.x, y: area.y, width: area.width, height: area.height };
    let parts = Layout::default().direction(direction).constraints(constraints).split(whole);
    parts.iter().map(|p| Area { x: p.x, y: p.y, width: p.width, height: p.height }).collect()
}

/// What a paragraph holds.
#[derive(Debug, PartialEq, Eq)]
pub enum Content {
    /// Plain text.
    Text(String),
    /// Lines, each of one piece.
    Lines(Vec<StyledLine>),
    /// One line of several pieces.
    Pieces(Vec<StyledLine>),
    /// The rows of the header.
    Header(Vec<Vec<Glyph>>),
}

/// The model of what a paragraph holds.
pub enum ContentView {
    Text(Seq<char>),
    Lines(Seq<(Seq<char>, Style)>),
    Pieces(Seq<(Seq<char>, Style)>),
    Header(Seq<Seq<Glyph>>),
}

/// The rows of a header.
pub open spec fn glyph_rows(rows: Seq<Vec<Glyph>>) -> Seq<Seq<Glyph>> {
    rows.map(|i: int, row: Vec<Glyph>| row@)
}

impl View for Content {
    type V = ContentView;

    open spec fn view(&self) -> ContentView {
        match self {
            Content::Text(s) => ContentView::Text(s@),
            Content::Lines(l) => ContentView::Lines(all_views(l@)),
            Content::Pieces(l) => ContentView::Pieces(all_views(l@)),
            Content::Header(rows) => ContentView::Header(glyph_rows(rows@)),
        }
    }
}

/// A border with a title.
#[derive(Debug, PartialEq, Eq)]
pub struct Border {
    pub title: String,
    /// How everything inside looks.
    pub style: Style,
    /// How the border looks.
    pub border: Style,
}

/// The model of a border.
pub struct BorderView {
    pub title: Seq<char>,
    pub style: Style,
    pub border: Style,
}

impl View for Border {
    type V = BorderView;

    open spec fn view(&self) -> BorderView {
        BorderView { title: self.title@, style: self.style, border: self.border }
    }
}

/// What happens to long lines.
#[derive(Clone, Copy, Debug, PartialEq, Eq, Structural)]
pub enum Wrapping {
    Cut,
    Wrap,
    WrapTrimmed,
}

/// Something on the screen.
#[derive(Debug, PartialEq, Eq)]
pub enum Widget {
    /// Nothing: what was there is cleared.
    Clear(Area),
    Paragraph {
        area: Area,
        content: Content,
        style: Style,
        border: Option<Border>,
        scroll: u16,
        wrapping: Wrapping,
    },
    List {
        area: Area,
        rows: Vec<StyledLine>,
        border: Option<Border>,
        highlight: Style,
        offset: usize,
        selected: Option<usize>,
    },
}

/// The model of something on the screen.
pub enum WidgetView {
    Clear(Area),
    Paragraph {
        area: Area,
        content: ContentView,
        style: Style,
        border: Option<BorderView>,
        scroll: u16,
        wrapping: Wrapping,
    },
    List {
        area: Area,
        rows: Seq<(Seq<char>, Style)>,
        border: Option<BorderView>,
        highlight: Style,
        offset: usize,
        selected: Option<usize>,
    },
}

/// The model of an optional border.
pub open spec fn opt_border(b: Option<Border>) -> Option<BorderView> {
    match b {
        Some(x) => Some(x@),
        None => None,
    }
}

impl View for Widget {
    type V = WidgetView;

    open spec fn view(&self) -> WidgetView {
        match self {
            Widget::Clear(area) => WidgetView::Clear(*area),
            Widget::Paragraph { area, content, style, border, scroll, wrapping } => {
                WidgetView::Paragraph {
                    area: *area,
                    content: content@,
                    style: *style,
                    border: opt_border(*border),
                    scroll: *scroll,
                    wrapping: *wrapping,
                }
            },
            Widget::List { area, rows, border, highlight, offset, selected } => WidgetView::List {
                area: *area,
                rows: all_views(rows@),
                border: opt_border(*border),
                highlight: *highlight,
                offset: *offset,
                selected: *selected,
            },
        }
    }
}

/// No colours of its own.
pub open spec fn unstyled() -> Style {
    style_of(None, None, false)
}

/// A border with a title and nothing special.
pub open spec fn titled(title: Seq<char>) -> BorderView {
    BorderView { title, style: unstyled(), border: unstyled() }
}

/// A plain text on the screen.
pub open spec fn text_at(area: Area, text: Seq<char>) -> WidgetView {
    WidgetView::Paragraph {
        area,
        content: ContentView::Text(text),
        style: unstyled(),
        border: None,
        scroll: 0,
        wrapping: Wrapping::Cut,
    }
}

/// Rows without colours of their own.
pub open spec fn plain_rows(rows: Seq<Seq<char>>) -> Seq<(Seq<char>, Style)> {
    rows.map(|i: int, row: Seq<char>| (row, unstyled()))
}

/// The selected row of a list, if it has rows.
pub open spec fn selection(len: nat, index: usize) -> Option<usize> {
    if len > 0 {
        Some(index)
    } else {
        None
    }
}

/// The width inside a border.
pub open spec fn inside(width: u16) -> nat {
    if width >= 2 {
        (width - 2) as nat
    } else {
        0
    }
}

/// What stands on a screen that is too small.
pub open spec fn too_small(area: Area) -> Seq<WidgetView> {
    seq![
        WidgetView::Paragraph {
            area,
            content: ContentView::Text("Terminal too small\nResize to 38×10 or press q"@),
            style: unstyled(),
            border: Some(titled(" Bedit "@)),
            scroll: 0,
            wrapping: Wrapping::WrapTrimmed,
        },
    ]
}

/// The rows of the screen: header, a blank row, tabs, panels, diff and footer.
pub open spec fn outer_limits(class: LayoutClass, height: u16) -> Seq<Limit> {
    seq![
        Limit::Length(header_rows(class)),
        Limit::Length(1),
        Limit::Length(1),
        Limit::Least(5),
        Limit::Length(diff_rows(class, height)),
        Limit::Length(footer_rows(class)),
    ]
}

/// The sizes of the rows of the screen.
pub fn outer_sizes(class: LayoutClass, height: u16) -> (r: Vec<Limit>)
    ensures
        r@ == outer_limits(class, height),
{
    let r: Vec<Limit> = vec![
        Limit::Length(header_height(class)),
        Limit::Length(1),
        Limit::Length(1),
        Limit::Least(5),
        Limit::Length(diff_panel_height(class, height)),
        Limit::Length(if class == LayoutClass::Wide { 2 } else { 1 }),
    ];
    assert(r@ =~= outer_limits(class, height));
    r
}

/// How many rows the footer gets.
pub open spec fn footer_rows(class: LayoutClass) -> u16 {
    if class == LayoutClass::Wide {
        2
    } else {
        1
    }
}

/// How many rows a screen lacks.
pub open spec fn rows_lacking(class: LayoutClass, height: u16) -> int {
    header_rows(class) + 7 + diff_rows(class, height) + footer_rows(class) - height
}

/// How many rows each part of the screen gets. Where rows are lacking, the diff gives way down to
/// the five rows of the panels, then the header down to one, and then the diff again; where there
/// are rows to spare, the panels get them.
pub open spec fn row_heights(class: LayoutClass, height: u16) -> Seq<int> {
    let (header, diff) = (header_rows(class) as int, diff_rows(class, height) as int);
    let lacking = rows_lacking(class, height);
    let (h, p, d) = if lacking <= 0 {
        (header, 5 - lacking, diff)
    } else if diff - lacking >= 5 {
        (header, 5, diff - lacking)
    } else {
        let still = if diff > 5 {
            lacking - (diff - 5)
        } else {
            lacking
        };
        let left = if diff > 5 {
            5
        } else {
            diff
        };
        if header - still >= 1 {
            (header - still, 5, left)
        } else {
            (1, 5, left - (still - (header - 1)))
        }
    };
    seq![h, 1, 1, p, d, footer_rows(class) as int]
}

/// The rows of an area from `from` on.
pub open spec fn rows_of(area: Area, from: int, count: int) -> Area {
    Area { x: area.x, y: (area.y + from) as u16, width: area.width, height: count as u16 }
}

/// Where the parts of the screen stand: header, blank row, tabs, panels, diff and footer, one
/// below the other.
pub open spec fn outer_areas(area: Area) -> Seq<Area> {
    let heights = row_heights(class_of(area.width, area.height), area.height);
    Seq::new(6, |i: int| rows_of(area, total(heights, i), heights[i]))
}

/// Where the panels of a tab stand in the area that they have: files and history beside each
/// other, the first with the smaller share, and what is searched for above what is found.
pub open spec fn panel_areas(tab: MainTab, area: Area) -> Seq<Area> {
    match tab {
        MainTab::Timeline => Seq::empty(),
        MainTab::ReposFiles => {
            let left = percent_of(area.width as int, 35);
            seq![
                Area { width: left as u16, ..area },
                Area { x: (area.x + left) as u16, width: (area.width - left) as u16, ..area },
            ]
        },
        MainTab::Search => seq![
            rows_of(area, 0, 3),
            rows_of(area, 3, area.height - 3),
        ],
    }
}

/// What is drawn on a screen.
pub open spec fn drawn(a: AppView, area: Area, elapsed: u64, now: u64) -> Seq<WidgetView> {
    if class_of(area.width, area.height) == LayoutClass::TooSmall {
        too_small(area)
    } else {
        let outer = outer_areas(area);
        picture(a, area, outer, panel_areas(a.main_tab, outer[3]), elapsed, now)
    }
}

/// How the panels of a tab are laid out.
pub open spec fn panel_way(tab: MainTab) -> Way {
    match tab {
        MainTab::ReposFiles => Way::Across,
        _ => Way::Down,
    }
}

/// The sizes of the panels of a tab.
pub open spec fn panel_limits(tab: MainTab) -> Seq<Limit> {
    match tab {
        MainTab::Timeline => Seq::empty(),
        MainTab::ReposFiles => seq![Limit::Percentage(35), Limit::Percentage(65)],
        MainTab::Search => seq![Limit::Length(3), Limit::Least(2)],
    }
}

/// The sizes of the panels of a tab.
pub fn panel_sizes(tab: MainTab) -> (r: Vec<Limit>)
    ensures
        r@ == panel_limits(tab),
{
    let r: Vec<Limit> = match tab {
        MainTab::Timeline => Vec::new(),
        MainTab::ReposFiles => vec![Limit::Percentage(35), Limit::Percentage(65)],
        MainTab::Search => vec![Limit::Length(3), Limit::Least(2)],
    };
    assert(r@ =~= panel_limits(tab));
    r
}

/// The header of the screen.
pub open spec fn header_at(area: Area, class: LayoutClass, elapsed: u64) -> WidgetView {
    WidgetView::Paragraph {
        area,
        content: ContentView::Header(
            Seq::new(5, |i: int| header_row(class, area.width, elapsed, i)),
        ),
        style: unstyled(),
        border: None,
        scroll: 0,
        wrapping: Wrapping::Cut,
    }
}

/// The tabs.
pub open spec fn tabs_at(area: Area, a: AppView) -> WidgetView {
    WidgetView::Paragraph {
        area,
        content: ContentView::Pieces(labels_of_tabs(a)),
        style: unstyled(),
        border: None,
        scroll: 0,
        wrapping: Wrapping::Cut,
    }
}

/// The panels of the timeline.
pub open spec fn timeline_panels(area: Area, a: AppView, now: u64) -> Seq<WidgetView> {
    let rows = plain_rows(timeline_rows_of(visible(a), inside(area.width), now));
    seq![
        WidgetView::List {
            area,
            rows,
            border: Some(titled(title_of_timeline(a))),
            highlight: style_of(Some(Colour::Black), Some(Colour::Cyan), true),
            offset: 0,
            selected: selection(rows.len(), a.timeline_index),
        },
    ]
}

/// The panels of the search.
pub open spec fn search_panels(parts: Seq<Area>, a: AppView, now: u64) -> Seq<WidgetView> {
    let rows = plain_rows(search_rows_of(a.search_results, inside(parts[1].width), now));
    seq![
        WidgetView::Paragraph {
            area: parts[0],
            content: ContentView::Text(prompt_of_search(a)),
            style: unstyled(),
            border: Some(titled(" SEARCH — / to enter "@)),
            scroll: 0,
            wrapping: Wrapping::Cut,
        },
        WidgetView::List {
            area: parts[1],
            rows,
            border: Some(titled(title_of_search(a))),
            highlight: style_of(Some(Colour::Yellow), None, true),
            offset: a.search_offset,
            selected: selection(rows.len(), a.search_index),
        },
    ]
}

/// The panels of the files and their history.
pub open spec fn file_panels(parts: Seq<Area>, a: AppView, now: u64) -> Seq<WidgetView> {
    let files = plain_rows(tree_rows_of(a));
    let history = history_rows_of(a.revisions, inside(parts[1].width), now);
    seq![
        WidgetView::List {
            area: parts[0],
            rows: files,
            border: Some(
                BorderView {
                    title: " FILES "@,
                    style: unstyled(),
                    border: border_of(a, Panel::Files),
                },
            ),
            highlight: style_of(None, Some(Colour::Blue), false),
            offset: a.tree_offset,
            selected: selection(files.len(), a.tree_index),
        },
        WidgetView::List {
            area: parts[1],
            rows: history,
            border: Some(
                BorderView {
                    title: title_of_history(a),
                    style: unstyled(),
                    border: border_of(a, Panel::History),
                },
            ),
            highlight: style_of(Some(Colour::Yellow), None, true),
            offset: a.history_offset,
            selected: selection(history.len(), a.revision_index),
        },
    ]
}

/// The panels of the tab.
pub open spec fn panels(area: Area, parts: Seq<Area>, a: AppView, now: u64) -> Seq<WidgetView> {
    match a.main_tab {
        MainTab::Timeline => timeline_panels(area, a, now),
        MainTab::ReposFiles => file_panels(parts, a, now),
        MainTab::Search => search_panels(parts, a, now),
    }
}

/// The diff.
pub open spec fn diff_at(area: Area, a: AppView) -> WidgetView {
    WidgetView::Paragraph {
        area,
        content: ContentView::Lines(styled_diff(a.diff)),
        style: style_of(Some(Colour::White), Some(Colour::Black), false),
        border: Some(
            BorderView {
                title: title_of_diff(a),
                style: style_of(Some(Colour::White), Some(Colour::Black), false),
                border: style_of(border_of(a, Panel::Diff).fg, Some(Colour::Black), false),
            },
        ),
        scroll: a.diff_scroll,
        wrapping: Wrapping::Cut,
    }
}

/// Whether a mode shows something above the panels.
pub open spec fn has_popup(mode: Mode) -> bool {
    mode != Mode::Main && mode != Mode::SearchInput && mode != Mode::SearchResults && mode
        != Mode::Activity
}

/// Where it is shown.
pub open spec fn popup_area(area: Area) -> Area {
    Area {
        x: (area.x + 5) as u16,
        y: (area.y + 3) as u16,
        width: (area.width - 10) as u16,
        height: (area.height - 6) as u16,
    }
}

/// What is shown above the panels.
pub open spec fn popup(area: Area, a: AppView, now: u64) -> Seq<WidgetView> {
    let at = popup_area(area);
    let inspects = a.mode == Mode::Inspect;
    let black = style_of(None, Some(Colour::Black), false);
    if has_popup(a.mode) {
        seq![
            WidgetView::Clear(at),
            WidgetView::Paragraph {
                area: at,
                content: if inspects {
                    ContentView::Lines(inspect_styled(line_seq(overlay(a, 110, now))))
                } else {
                    ContentView::Text(overlay(a, inside(at.width), now))
                },
                style: black,
                border: Some(
                    BorderView {
                        title: " "@ + mode_name(a.mode) + " "@,
                        style: black,
                        border: unstyled(),
                    },
                ),
                scroll: if inspects {
                    a.inspect_scroll
                } else {
                    0
                },
                wrapping: Wrapping::Wrap,
            },
        ]
    } else {
        Seq::empty()
    }
}

/// Everything on the screen, from the back to the front.
pub open spec fn picture(
    a: AppView,
    area: Area,
    outer: Seq<Area>,
    parts: Seq<Area>,
    elapsed: u64,
    now: u64,
) -> Seq<WidgetView> {
    let class = class_of(area.width, area.height);
    seq![header_at(outer[0], class, elapsed), tabs_at(outer[2], a)] + panels(
        outer[3],
        parts,
        a,
        now,
    ) + seq![diff_at(outer[4], a), text_at(outer[5], footer_text(a, class))] + popup(area, a, now)
}

/// Whether an area lies on a screen.
pub open spec fn on_screen(area: Area) -> bool {
    area.x + area.width <= u16::MAX && area.y + area.height <= u16::MAX
}

fn no_style() -> (r: Style)
    ensures
        r == unstyled(),
{
    Style { fg: None, bg: None, bold: false }
}

fn title_border(title: String) -> (r: Border)
    ensures
        r@ == titled(title@),
{
    Border { title, style: no_style(), border: no_style() }
}

fn make_plain_rows(rows: Vec<String>) -> (r: Vec<StyledLine>)
    ensures
        all_views(r@) == plain_rows(views(rows@)),
        r@.len() == rows@.len(),
{
    let mut out: Vec<StyledLine> = Vec::new();
    let mut i: usize = 0;
    while i < rows.len()
        invariant
            i <= rows.len(),
            out@.len() == i,
            forall|j: int| 0 <= j < i ==> (#[trigger] out@[j])@ == (rows@[j]@, unstyled()),
        decreases rows.len() - i,
    {
        out.push(StyledLine { text: rows[i].clone(), style: no_style() });
        i += 1;
    }
    assert(all_views(out@) =~= plain_rows(views(rows@)));
    out
}

fn select(len: usize, index: usize) -> (r: Option<usize>)
    ensures
        r == selection(len as nat, index),
{
    if len > 0 {
        Some(index)
    } else {
        None
    }
}

fn inner_width(width: u16) -> (r: usize)
    ensures
        r == inside(width),
{
    if width >= 2 {
        (width - 2) as usize
    } else {
        0
    }
}

fn draw_header(area: Area, class: LayoutClass, elapsed: u64) -> (r: Widget)
    ensures
        r@ == header_at(area, class, elapsed),
{
    let mut rows: Vec<Vec<Glyph>> = Vec::new();
    let mut i: usize = 0;
    while i < 5
        invariant
            i <= 5,
            rows@.len() == i,
            forall|j: int|
                0 <= j < i ==> (#[trigger] rows@[j])@ == header_row(class, area.width, elapsed, j),
        decreases 5 - i,
    {
        rows.push(render_header_row(class, area.width, elapsed, i));
        i += 1;
    }
    assert(glyph_rows(rows@) =~= Seq::new(
        5,
        |i: int| header_row(class, area.width, elapsed, i),
    ));
    Widget::Paragraph {
        area,
        content: Content::Header(rows),
        style: no_style(),
        border: None,
        scroll: 0,
        wrapping: Wrapping::Cut,
    }
}

/// Draws the panels of the timeline.
fn render_timeline(app: &App, area: Area, now: u64) -> (r: Widget)
    ensures
        seq![r@] == timeline_panels(area, app@, now),
{
    let rows: Vec<StyledLine> = make_plain_rows(timeline_rows(app, inner_width(area.width), now));
    let selected: Option<usize> = select(rows.len(), app.timeline_index);
    assert(all_views(rows@).len() == rows@.len());
    let r: Widget = Widget::List {
        area,
        rows,
        border: Some(title_border(timeline_title(app))),
        highlight: Style { fg: Some(Colour::Black), bg: Some(Colour::Cyan), bold: true },
        offset: 0,
        selected,
    };
    r
}

/// Draws the panels of the search.
fn render_search(app: &App, parts: &Vec<Area>, now: u64) -> (r: (Widget, Widget))
    requires
        parts@.len() == 2,
    ensures
        seq![(r.0)@, (r.1)@] == search_panels(parts@, app@, now),
{
    let prompt: Widget = Widget::Paragraph {
        area: parts[0],
        content: Content::Text(search_prompt(app)),
        style: no_style(),
        border: Some(title_border(" SEARCH — / to enter ".to_owned())),
        scroll: 0,
        wrapping: Wrapping::Cut,
    };
    let rows: Vec<StyledLine> = make_plain_rows(search_rows(app, inner_width(parts[1].width), now));
    let selected: Option<usize> = select(rows.len(), app.search_index);
    assert(all_views(rows@).len() == rows@.len());
    let list: Widget = Widget::List {
        area: parts[1],
        rows,
        border: Some(title_border(search_title(app))),
        highlight: Style { fg: Some(Colour::Yellow), bg: None, bold: true },
        offset: app.search_offset,
        selected,
    };
    (prompt, list)
}

/// Draws the panels of the files and their history.
fn render_repos_files(app: &App, parts: &Vec<Area>, now: u64) -> (r: (Widget, Widget))
    requires
        parts@.len() == 2,
    ensures
        seq![(r.0)@, (r.1)@] == file_panels(parts@, app@, now),
{
    let files: Vec<StyledLine> = make_plain_rows(tree_rows(app));
    let file: Option<usize> = select(files.len(), app.tree_index);
    assert(all_views(files@).len() == files@.len());
    let left: Widget = Widget::List {
        area: parts[0],
        rows: files,
        border: Some(
            Border {
                title: " FILES ".to_owned(),
                style: no_style(),
                border: active(app, Panel::Files),
            },
        ),
        highlight: Style { fg: None, bg: Some(Colour::Blue), bold: false },
        offset: app.tree_offset,
        selected: file,
    };
    let history: Vec<StyledLine> = history_rows(app, inner_width(parts[1].width), now);
    let revision: Option<usize> = select(history.len(), app.revision_index);
    assert(all_views(history@).len() == history@.len());
    let right: Widget = Widget::List {
        area: parts[1],
        rows: history,
        border: Some(
            Border {
                title: history_title(app),
                style: no_style(),
                border: active(app, Panel::History),
            },
        ),
        highlight: Style { fg: Some(Colour::Yellow), bg: None, bold: true },
        offset: app.history_offset,
        selected: revision,
    };
    (left, right)
}

fn render_diff(app: &App, area: Area) -> (r: Widget)
    ensures
        r@ == diff_at(area, app@),
{
    let around: Style = active(app, Panel::Diff);
    Widget::Paragraph {
        area,
        content: Content::Lines(diff_lines(app.diff.as_str())),
        style: Style { fg: Some(Colour::White), bg: Some(Colour::Black), bold: false },
        border: Some(
            Border {
                title: diff_title(app),
                style: Style { fg: Some(Colour::White), bg: Some(Colour::Black), bold: false },
                border: Style { fg: around.fg, bg: Some(Colour::Black), bold: false },
            },
        ),
        scroll: app.diff_scroll,
        wrapping: Wrapping::Cut,
    }
}

fn render_popup(app: &App, area: Area, now: u64) -> (r: Widget)
    requires
        on_screen(area),
        area.width >= 10,
        area.height >= 6,
        has_popup(app@.mode),
    ensures
        seq![WidgetView::Clear(popup_area(area)), r@] == popup(area, app@, now),
{
    let at: Area = Area {
        x: area.x + 5,
        y: area.y + 3,
        width: area.width - 10,
        height: area.height - 6,
    };
    let inspects: bool = app.mode == Mode::Inspect;
    let mut title: String = " ".to_owned();
    title.append(name_mode(app.mode));
    title.append(" ");
    Widget::Paragraph {
        area: at,
        content: if inspects {
            Content::Lines(inspect_lines(app, now))
        } else {
            Content::Text(overlay_text_with_width(app, inner_width(at.width), now))
        },
        style: Style { fg: None, bg: Some(Colour::Black), bold: false },
        border: Some(
            Border {
                title,
                style: Style { fg: None, bg: Some(Colour::Black), bold: false },
                border: no_style(),
            },
        ),
        scroll: if inspects {
            app.inspect_scroll
        } else {
            0
        },
        wrapping: Wrapping::Wrap,
    }
}

/// Draws everything into areas that were divided before.
pub fn compose(
    app: &App,
    area: Area,
    outer: &Vec<Area>,
    parts: &Vec<Area>,
    elapsed: u64,
    now: u64,
) -> (r: Vec<Widget>)
    requires
        on_screen(area),
        class_of(area.width, area.height) != LayoutClass::TooSmall,
        outer@.len() == 6,
        parts@.len() == panel_limits(app@.main_tab).len(),
    ensures
        all_views(r@) == picture(app@, area, outer@, parts@, elapsed, now),
{
    let class: LayoutClass = layout_class(area.width, area.height);
    let mut out: Vec<Widget> = Vec::new();
    out.push(draw_header(outer[0], class, elapsed));
    out.push(
        Widget::Paragraph {
            area: outer[2],
            content: Content::Pieces(tab_labels(app)),
            style: no_style(),
            border: None,
            scroll: 0,
            wrapping: Wrapping::Cut,
        },
    );
    let ghost head = seq![header_at(outer@[0], class, elapsed), tabs_at(outer@[2], app@)];
    assert(all_views(out@) =~= head);
    let ghost middle = panels(outer@[3], parts@, app@, now);
    match app.main_tab {
        MainTab::Timeline => {
            let w: Widget = render_timeline(app, outer[3], now);
            assert(middle[0] == seq![w@][0]);
            out.push(w);
        },
        MainTab::ReposFiles => {
            let (left, right): (Widget, Widget) = render_repos_files(app, parts, now);
            assert(middle[0] == seq![left@, right@][0] && middle[1] == seq![left@, right@][1]);
            out.push(left);
            out.push(right);
        },
        MainTab::Search => {
            let (prompt, list): (Widget, Widget) = render_search(app, parts, now);
            assert(middle[0] == seq![prompt@, list@][0] && middle[1] == seq![prompt@, list@][1]);
            out.push(prompt);
            out.push(list);
        },
    }
    assert(all_views(out@) =~= head + middle);
    out.push(render_diff(app, outer[4]));
    out.push(
        Widget::Paragraph {
            area: outer[5],
            content: Content::Text(footer(app, class)),
            style: no_style(),
            border: None,
            scroll: 0,
            wrapping: Wrapping::Cut,
        },
    );
    let ghost tail = seq![diff_at(outer@[4], app@), text_at(outer@[5], footer_text(app@, class))];
    assert(all_views(out@) =~= head + middle + tail);
    let pops: bool = match app.mode {
        Mode::Main | Mode::SearchInput | Mode::SearchResults | Mode::Activity => false,
        _ => true,
    };
    if pops {
        let w: Widget = render_popup(app, area, now);
        let ghost last = seq![WidgetView::Clear(popup_area(area)), w@];
        assert(popup(area, app@, now)[0] == last[0] && popup(area, app@, now)[1] == last[1]);
        out.push(
            Widget::Clear(
                Area {
                    x: area.x + 5,
                    y: area.y + 3,
                    width: area.width - 10,
                    height: area.height - 6,
                },
            ),
        );
        out.push(w);
    }
    assert(all_views(out@) =~= picture(app@, area, outer@, parts@, elapsed, now));
    out
}

proof fn lemma_heights(class: LayoutClass, height: u16)
    requires
        class != LayoutClass::TooSmall,
        height >= 10,
        class != LayoutClass::Minimum ==> height >= 14,
    ensures
        total(row_heights(class, height), 6) == height,
        forall|i: int| 0 <= i < 6 ==> 0 < #[trigger] row_heights(class, height)[i],
        row_heights(class, height)[3] >= 5,
        row_heights(class, height)[0] <= header_rows(class),
        row_heights(class, height)[4] <= diff_rows(class, height),
{
    reveal_with_fuel(total, 7);
}

/// Of all ways to fill `whole` with pieces that give way in five places, the target is the most
/// even. A unit counts `k` pieces; `diff` and `foot` are the lengths of the last two places.
proof fn lemma_most_even(
    k: int,
    diff: int,
    foot: int,
    whole: int,
    t0: int,
    t4: int,
    a: int,
    b: int,
    c: int,
    x: int,
    e: int,
)
    requires
        k > 0,
        foot == k || foot == 2 * k,
        diff == 3 * k || diff == 6 * k || diff == 9 * k,
        0 <= a <= 5 * k,
        0 <= b <= k,
        0 <= c <= k,
        0 <= x <= diff,
        0 <= e <= foot,
        a + b + c + x + e == whole,
        t0 + k + k + t4 + foot == whole,
        ({
            ||| t0 == 5 * k && 5 * k <= t4 <= diff
            ||| k <= t0 <= 5 * k && t4 == 5 * k && diff > 5 * k
            ||| k <= t0 <= 5 * k && t4 == diff && diff == 3 * k
            ||| t0 == k && foot <= t4 <= 3 * k && diff == 3 * k
        }),
    ensures
        !(a == t0 && b == k && c == k && x == t4 && e == foot) ==> apart(a, b) + apart(b, c) + apart(
            c,
            5 * k,
        ) + apart(5 * k, x) + apart(x, e) > apart(t0, k) + apart(k, 5 * k) + apart(5 * k, t4)
            + apart(t4, foot),
{
}

proof fn lemma_times(k: int, n: int, m: int)
    requires
        n == m,
    ensures
        k * n == m * k,
{
    assert(k * n == m * k) by (nonlinear_arith)
        requires
            n == m,
    ;
}

proof fn lemma_other_heights(class: LayoutClass, height: u16, scale: int, other: Seq<int>)
    requires
        class != LayoutClass::TooSmall,
        height >= 10,
        class != LayoutClass::Minimum ==> height >= 14,
        rows_lacking(class, height) > 0,
        scale > 0,
        squeezed(outer_limits(class, height), height as int, scale, other),
        other != row_heights(class, height).map_values(|x: int| scale * x),
    ensures
        unevenness(other, 6) > scale * unevenness(row_heights(class, height), 6),
{
    let limits = outer_limits(class, height);
    let target = row_heights(class, height);
    let k = scale;
    reveal_with_fuel(total, 7);
    reveal_with_fuel(unevenness, 7);
    lemma_heights(class, height);
    let (diff, foot) = (diff_rows(class, height) as int, footer_rows(class) as int);
    let (t0, t4) = (target[0], target[4]);
    lemma_times(k, header_rows(class) as int, 5);
    lemma_times(k, 1, 1);
    lemma_times(k, least_in(5, height as int), 5);
    assert(limits[0] == Limit::Length(header_rows(class)));
    assert(limits[1] == Limit::Length(1));
    assert(limits[2] == Limit::Length(1));
    assert(limits[3] == Limit::Least(5));
    assert(limits[4] == Limit::Length(diff_rows(class, height)));
    assert(limits[5] == Limit::Length(footer_rows(class)));
    assert(0 <= other[0] <= 5 * k);
    assert(0 <= other[1] <= k);
    assert(0 <= other[2] <= k);
    assert(other[3] == 5 * k);
    assert(0 <= other[4] <= k * diff);
    assert(0 <= other[5] <= k * foot);
    assert(total(other, 6) == other[0] + other[1] + other[2] + other[3] + other[4] + other[5]);
    if foot == 1 {
        lemma_times(k, foot, 1);
    } else {
        lemma_times(k, foot, 2);
    }
    if diff == 3 {
        lemma_times(k, diff, 3);
    } else if diff == 6 {
        lemma_times(k, diff, 6);
    } else {
        lemma_times(k, diff, 9);
    }
    let whole = k * height - 5 * k;
    assert(k * t0 + k + k + k * t4 + k * foot == whole) by (nonlinear_arith)
        requires
            t0 + 1 + 1 + 5 + t4 + foot == height,
            whole == k * height - 5 * k,
    ;
    assert((t0 == 5 && 5 <= t4 <= diff) || (1 <= t0 <= 5 && t4 == 5 && diff > 5) || (1 <= t0 <= 5
        && t4 == diff && diff == 3) || (t0 == 1 && foot <= t4 <= 3 && diff == 3));
    assert((k * t0 == 5 * k && 5 * k <= k * t4 <= k * diff) || (k <= k * t0 <= 5 * k && k * t4 == 5
        * k && k * diff > 5 * k) || (k <= k * t0 <= 5 * k && k * t4 == k * diff && k * diff == 3
        * k) || (k * t0 == k && k * foot <= k * t4 <= 3 * k && k * diff == 3 * k))
        by (nonlinear_arith)
        requires
            k > 0,
            (t0 == 5 && 5 <= t4 <= diff) || (1 <= t0 <= 5 && t4 == 5 && diff > 5) || (1 <= t0 <= 5
                && t4 == diff && diff == 3) || (t0 == 1 && foot <= t4 <= 3 && diff == 3),
    ;
    lemma_most_even(
        k,
        k * diff,
        k * foot,
        whole,
        k * t0,
        k * t4,
        other[0],
        other[1],
        other[2],
        other[4],
        other[5],
    );
    let scaled = target.map_values(|x: int| scale * x);
    if other[0] == k * t0 && other[1] == k && other[2] == k && other[4] == k * t4 && other[5] == k
        * foot {
        lemma_times(k, target[3], 5);
        assert(other =~= scaled);
    }
    let u = unevenness(target, 6);
    assert(u == apart(t0, 1) + apart(1, 1) + apart(1, 5) + apart(5, t4) + apart(t4, foot));
    assert(k * u == apart(k * t0, k) + apart(k, 5 * k) + apart(5 * k, k * t4) + apart(
        k * t4,
        k * foot,
    )) by {
        lemma_apart_times(k, t0, 1);
        lemma_apart_times(k, 1, 5);
        lemma_apart_times(k, 5, t4);
        lemma_apart_times(k, t4, foot);
        assert(k * u == k * apart(t0, 1) + k * apart(1, 5) + k * apart(5, t4) + k * apart(t4, foot))
            by (nonlinear_arith)
            requires
                u == apart(t0, 1) + apart(1, 5) + apart(5, t4) + apart(t4, foot),
        ;
    }
}

proof fn lemma_apart_times(k: int, a: int, b: int)
    requires
        k > 0,
    ensures
        k * apart(a, b) == apart(k * a, k * b),
{
    assert(a <= b ==> k * (b - a) == k * b - k * a && k * a <= k * b) by (nonlinear_arith)
        requires
            k > 0,
    ;
    assert(a > b ==> k * (a - b) == k * a - k * b && k * a > k * b) by (nonlinear_arith)
        requires
            k > 0,
    ;
}

proof fn lemma_chained(way: Way, area: Area, parts: Seq<Area>, i: int)
    requires
        chained(way, area, parts),
        0 <= i < parts.len(),
    ensures
        begins(way, parts[i]) == begins(way, area) + total(sizes_of(way, parts), i),
    decreases i,
{
    if i > 0 {
        lemma_chained(way, area, parts, i - 1);
    }
}

proof fn lemma_outer(area: Area, outer: Seq<Area>)
    requires
        on_screen(area),
        class_of(area.width, area.height) != LayoutClass::TooSmall,
        divides(
            Way::Down,
            area,
            outer_limits(class_of(area.width, area.height), area.height),
            outer,
        ),
    ensures
        outer == outer_areas(area),
        outer[3].height >= 5,
{
    let class = class_of(area.width, area.height);
    let height = area.height;
    let limits = outer_limits(class, height);
    let heights = row_heights(class, height);
    reveal_with_fuel(shares, 7);
    reveal_with_fuel(total, 7);
    lemma_heights(class, height);
    assert(limits[0] == Limit::Length(header_rows(class)));
    assert(limits[1] == Limit::Length(1));
    assert(limits[2] == Limit::Length(1));
    assert(limits[3] == Limit::Least(5));
    assert(limits[4] == Limit::Length(diff_rows(class, height)));
    assert(limits[5] == Limit::Length(footer_rows(class)));
    assert(grows_at(limits, 3));
    let lacking = rows_lacking(class, height);
    assert(shares(limits, 6, 0) == height + lacking);
    if lacking <= 0 {
        assert(shared_out(Way::Down, area, limits, outer));
        assert forall|i: int| 0 <= i < 6 implies outer[i] == #[trigger] outer_areas(area)[i] by {
            assert(begins(Way::Down, outer[i]) == area.y + shares(limits, i, -lacking));
            assert(extent(Way::Down, outer[i]) == share(limits[i], -lacking));
        }
    } else {
        assert(squeezed(limits, height as int, 1, heights)) by {
            lemma_times(1, header_rows(class) as int, 5);
        }
        assert(evenest(limits, height as int, heights)) by {
            assert forall|scale: int, other: Seq<int>|
                scale > 0 && #[trigger] squeezed(limits, height as int, scale, other) && other
                    != heights.map_values(|x: int| scale * x) implies unevenness(
                other,
                other.len() as int,
            ) > scale * unevenness(heights, heights.len() as int) by {
                lemma_other_heights(class, height, scale, other);
            }
        }
        assert(sizes_of(Way::Down, outer) == heights);
        assert forall|i: int| 0 <= i < 6 implies outer[i] == #[trigger] outer_areas(area)[i] by {
            lemma_chained(Way::Down, area, outer, i);
            assert(sizes_of(Way::Down, outer)[i] == heights[i]);
        }
    }
    assert(outer =~= outer_areas(area));
    assert(extent(Way::Down, outer[3]) == heights[3]);
}

proof fn lemma_panels(tab: MainTab, area: Area, parts: Seq<Area>)
    requires
        on_screen(area),
        area.height >= 5,
        divides(panel_way(tab), area, panel_limits(tab), parts),
    ensures
        parts == panel_areas(tab, area),
{
    let limits = panel_limits(tab);
    let wanted = panel_areas(tab, area);
    match tab {
        MainTab::Timeline => {
            assert(parts =~= wanted);
        },
        MainTab::ReposFiles => {
            assert(limits[0] == Limit::Percentage(35) && limits[1] == Limit::Percentage(65));
            assert(whole_percent(limits) == Some(35u16));
            assert(parts[0] == wanted[0]);
            assert(parts[1] == wanted[1]);
            assert(parts =~= wanted);
        },
        MainTab::Search => {
            reveal_with_fuel(shares, 3);
            assert(limits[0] == Limit::Length(3) && limits[1] == Limit::Least(2));
            assert(grows_at(limits, 1));
            assert(shares(limits, 2, 0) == 5);
            assert(shared_out(Way::Down, area, limits, parts));
            assert(begins(Way::Down, parts[0]) == area.y && extent(Way::Down, parts[0]) == 3);
            assert(begins(Way::Down, parts[1]) == area.y + 3);
            assert(parts[0] == wanted[0]);
            assert(parts[1] == wanted[1]);
            assert(parts =~= wanted);
        },
    }
}

/// Draws the browser on a screen.
pub fn draw_at(app: &App, area: Area, elapsed: u64, now: u64) -> (r: Vec<Widget>)
    requires
        on_screen(area),
    ensures
        all_views(r@) == drawn(app@, area, elapsed, now),
{
    let class: LayoutClass = layout_class(area.width, area.height);
    if class == LayoutClass::TooSmall {
        let mut out: Vec<Widget> = Vec::new();
        out.push(
            Widget::Paragraph {
                area,
                content: Content::Text("Terminal too small\nResize to 38×10 or press q".to_owned()),
                style: no_style(),
                border: Some(title_border(" Bedit ".to_owned())),
                scroll: 0,
                wrapping: Wrapping::WrapTrimmed,
            },
        );
        assert(all_views(out@) =~= too_small(area));
        return out;
    }
    let outer: Vec<Area> = split_area(Way::Down, area, &outer_sizes(class, area.height));
    proof {
        lemma_outer(area, outer@);
        assert(lies_in(outer@[3], area));
    }
    let sizes: Vec<Limit> = panel_sizes(app.main_tab);
    let parts: Vec<Area> = match app.main_tab {
        MainTab::Timeline => Vec::new(),
        MainTab::ReposFiles => split_area(Way::Across, outer[3], &sizes),
        MainTab::Search => split_area(Way::Down, outer[3], &sizes),
    };
    proof {
        if app@.main_tab == MainTab::Timeline {
            assert(parts@ =~= panel_areas(app@.main_tab, outer@[3]));
        } else {
            lemma_panels(app@.main_tab, outer@[3], parts@);
        }
    }
    compose(app, area, &outer, &parts, elapsed, now)
}

/// The area of something on the screen.
pub open spec fn area_of(widget: WidgetView) -> Area {
    match widget {
        WidgetView::Clear(area) => area,
        WidgetView::Paragraph { area, .. } => area,
        WidgetView::List { area, .. } => area,
    }
}

/// Nothing is drawn outside of the screen.
pub proof fn law_widgets_stay_on_screen(a: AppView, area: Area, elapsed: u64, now: u64, i: int)
    requires
        on_screen(area),
        0 <= i < drawn(a, area, elapsed, now).len(),
    ensures
        lies_in(area_of(drawn(a, area, elapsed, now)[i]), area),
{
    let class = class_of(area.width, area.height);
    if class != LayoutClass::TooSmall {
        law_rows_fill_the_screen(area);
        let outer = outer_areas(area);
        let parts = panel_areas(a.main_tab, outer[3]);
        let head = seq![header_at(outer[0], class, elapsed), tabs_at(outer[2], a)];
        let middle = panels(outer[3], parts, a, now);
        let tail = seq![diff_at(outer[4], a), text_at(outer[5], footer_text(a, class))];
        let top = popup(area, a, now);
        let all = drawn(a, area, elapsed, now);
        if i < 2 {
            assert(all[i] == head[i]);
        } else if i < 2 + middle.len() {
            assert(all[i] == middle[i - 2]);
            assert(percent_of(outer[3].width as int, 35) <= outer[3].width);
        } else if i < 4 + middle.len() {
            assert(all[i] == tail[i - 2 - middle.len()]);
        } else {
            assert(all[i] == top[i - 4 - middle.len()]);
            assert(top.len() == 2);
        }
    }
}

/// On every screen that is not too small, header, blank row, tabs, panels, diff and footer stand
/// below each other, without a gap and down to the last row. Blank row and tabs have one row each,
/// the panels have at least five, the footer has all of its rows, and no part is without a row.
/// Header and diff have all of theirs where there is room for them.
pub proof fn law_rows_fill_the_screen(area: Area)
    requires
        on_screen(area),
        class_of(area.width, area.height) != LayoutClass::TooSmall,
    ensures
        outer_areas(area).len() == 6,
        outer_areas(area)[0].y == area.y,
        forall|i: int|
            0 <= i < 5 ==> (#[trigger] outer_areas(area)[i]).y + outer_areas(area)[i].height
                == outer_areas(area)[i + 1].y,
        outer_areas(area)[5].y + outer_areas(area)[5].height == area.y + area.height,
        forall|i: int|
            0 <= i < 6 ==> (#[trigger] outer_areas(area)[i]).height > 0 && lies_in(
                outer_areas(area)[i],
                area,
            ) && outer_areas(area)[i].width == area.width,
        outer_areas(area)[1].height == 1,
        outer_areas(area)[2].height == 1,
        outer_areas(area)[3].height >= 5,
        outer_areas(area)[5].height == footer_rows(class_of(area.width, area.height)),
        rows_lacking(class_of(area.width, area.height), area.height) <= 0 ==> {
            let class = class_of(area.width, area.height);
            outer_areas(area)[0].height == header_rows(class) && outer_areas(area)[4].height
                == diff_rows(class, area.height)
        },
{
    let class = class_of(area.width, area.height);
    let heights = row_heights(class, area.height);
    lemma_heights(class, area.height);
    reveal_with_fuel(total, 7);
    let outer = outer_areas(area);
    assert forall|i: int| 0 <= i < 6 implies (#[trigger] outer[i]).y == area.y + total(heights, i)
        && outer[i].height == heights[i] by {}
    assert forall|i: int| 0 <= i < 5 implies (#[trigger] outer[i]).y + outer[i].height == outer[i
        + 1].y by {
        assert(total(heights, i + 1) == total(heights, i) + heights[i]);
    }
}

/// A window is opened over the picture for help, for a tag, before a restore, for the filters and
/// for what is inspected, and for nothing else; it lies within the screen with a margin around it.
pub proof fn law_windows_open_over_the_picture(mode: Mode, area: Area)
    requires
        area.width >= 10,
        area.height >= 6,
        on_screen(area),
    ensures
        has_popup(mode) <==> mode == Mode::Help || mode == Mode::TagInput || mode
            == Mode::ConfirmRestore || mode == Mode::Filters || mode == Mode::Inspect,
        popup_area(area).x == area.x + 5 && popup_area(area).y == area.y + 3,
        popup_area(area).x + popup_area(area).width == area.x + area.width - 5,
        popup_area(area).y + popup_area(area).height == area.y + area.height - 3,
{
}

/// The picture shows the header, the tabs, the panels of the tab that is open, the difference, and
/// the last line; and a window with its text where one is open.
pub proof fn law_picture_shows_everything(
    a: AppView,
    area: Area,
    outer: Seq<Area>,
    parts: Seq<Area>,
    elapsed: u64,
    now: u64,
)
    ensures
        ({
            let shown = picture(a, area, outer, parts, elapsed, now);
            let middle = panels(outer[3], parts, a, now);
            let n = middle.len() as int;
            &&& shown[0] == header_at(outer[0], class_of(area.width, area.height), elapsed)
            &&& shown[1] == tabs_at(outer[2], a)
            &&& forall|i: int| 0 <= i < n ==> #[trigger] shown[2 + i] == middle[i]
            &&& shown[2 + n] == diff_at(outer[4], a)
            &&& shown[3 + n] == text_at(
                outer[5],
                footer_text(a, class_of(area.width, area.height)),
            )
            &&& shown.len() == 4 + n + if has_popup(a.mode) {
                2int
            } else {
                0int
            }
            &&& a.main_tab == MainTab::Timeline ==> n == 1
            &&& a.main_tab != MainTab::Timeline ==> n == 2
        }),
{
}

/// The panels show their lists whole: every event that is visible, every result, every line of the
/// tree and every revision of the file, and which of them is selected.
pub proof fn law_panels_show_their_lists(
    area: Area,
    parts: Seq<Area>,
    a: AppView,
    now: u64,
)
    ensures
        timeline_panels(area, a, now)[0] matches WidgetView::List { rows, selected, .. }
            && rows.len() == visible(a).len() && (rows.len() > 0 ==> selected == Some(
            a.timeline_index,
        )),
        search_panels(parts, a, now)[1] matches WidgetView::List { rows, selected, offset, .. }
            && rows.len() == a.search_results.len() && offset == a.search_offset && (rows.len() > 0
            ==> selected == Some(a.search_index)),
        file_panels(parts, a, now)[0] matches WidgetView::List { rows, selected, offset, .. }
            && rows.len() == a.tree.len() && offset == a.tree_offset && (rows.len() > 0 ==> selected
            == Some(a.tree_index)),
        file_panels(parts, a, now)[1] matches WidgetView::List { rows, selected, offset, .. }
            && rows.len() == a.revisions.len() && offset == a.history_offset && (rows.len() > 0
            ==> selected == Some(a.revision_index)),
        diff_at(area, a) matches WidgetView::Paragraph { scroll, content, .. } && scroll
            == a.diff_scroll && (content matches ContentView::Lines(lines) && lines.len()
            == line_seq(a.diff).len()),
{
}

/// The two panels of the files stand side by side and fill the area: a bit more than a third for the
/// tree and the rest for the history. Those of a search stand one above the other.
pub proof fn law_panels_fill_their_area(area: Area)
    requires
        on_screen(area),
        area.height >= 3,
    ensures
        ({
            let p = panel_areas(MainTab::ReposFiles, area);
            &&& p[0].x == area.x && p[0].x + p[0].width == p[1].x
            &&& p[1].x + p[1].width == area.x + area.width
            &&& 100 * p[0].width <= 35 * area.width + 50 && 100 * p[0].width > 35 * area.width - 50
            &&& p[0].y == area.y && p[1].y == area.y && p[0].height == area.height && p[1].height
                == area.height
        }),
        ({
            let p = panel_areas(MainTab::Search, area);
            &&& p[0].y == area.y && p[0].height == 3 && p[1].y == area.y + 3
            &&& p[1].y + p[1].height == area.y + area.height
            &&& p[0].width == area.width && p[1].width == area.width
        }),
{
}

/// The rows of a screen: the header, two lines, the panels, which get what is left, the difference
/// and the last lines. The panels of files stand side by side, and those of a search have a line to
/// type in.
pub proof fn law_limits_of_the_screen(class: LayoutClass, height: u16, b: Border)
    ensures
        ({
            let limits = outer_limits(class, height);
            &&& limits.len() == 6
            &&& limits[0] == Limit::Length(header_rows(class))
            &&& limits[3] == Limit::Least(5)
            &&& limits[4] == Limit::Length(diff_rows(class, height))
            &&& limits[5] == Limit::Length(if class == LayoutClass::Wide {
                2
            } else {
                1
            })
        }),
        panel_limits(MainTab::ReposFiles) == seq![Limit::Percentage(35), Limit::Percentage(65)],
        panel_limits(MainTab::Search) == seq![Limit::Length(3), Limit::Least(2)],
        opt_border(Some(b)) == Some(b@),
        opt_border(None) is None,
{
}

} // verus!
