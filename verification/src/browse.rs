//! What the browser shows: events, search results and the tree of files.

use crate::clock::format_timestamp;
use crate::order::{arrange, sort_order, Replicate};
use crate::path::{file_name, parent_or_root, push_path_key, same_path, strip_prefix};
use crate::store::Revision;
use crate::text::{chars_of, contains, copy_opt, to_decimal};
#[allow(unused_imports)]
use crate::{
    clock::shown_time,
    order::{
        comes_before, key_less, key_views, law_sorting_keeps_items, law_stable_order,
        lemma_key_irreflexive, lemma_key_transitive, smaller_at, sorted_by_key, stable_order,
    },
    path::{
        below, components, directory_of, file_name_of, is_within, law_path_keys_are_faithful,
        law_path_keys_order_paths, path_key, path_less, same_path_text,
    },
    store::RevisionView,
    text::{all_views, begins_with, decimal, occurs, occurs_at, opt_view, views},
};
use vstd::prelude::*;

verus! {

/// The tabs of the browser.
#[derive(Clone, Copy, Debug, PartialEq, Eq, Structural)]
pub enum MainTab {
    Timeline,
    ReposFiles,
    Search,
}

/// The tab behind a tab.
pub open spec fn tab_behind(tab: MainTab) -> MainTab {
    match tab {
        MainTab::Timeline => MainTab::ReposFiles,
        MainTab::ReposFiles => MainTab::Search,
        MainTab::Search => MainTab::Timeline,
    }
}

/// The tab before a tab.
pub open spec fn tab_before(tab: MainTab) -> MainTab {
    match tab {
        MainTab::Timeline => MainTab::Search,
        MainTab::ReposFiles => MainTab::Timeline,
        MainTab::Search => MainTab::ReposFiles,
    }
}

impl MainTab {
    pub fn next(self) -> (r: Self)
        ensures
            r == tab_behind(self),
    {
        match self {
            MainTab::Timeline => MainTab::ReposFiles,
            MainTab::ReposFiles => MainTab::Search,
            MainTab::Search => MainTab::Timeline,
        }
    }

    pub fn previous(self) -> (r: Self)
        ensures
            r == tab_before(self),
    {
        match self {
            MainTab::Timeline => MainTab::Search,
            MainTab::ReposFiles => MainTab::Timeline,
            MainTab::Search => MainTab::ReposFiles,
        }
    }
}

/// Going forth and back, or back and forth, leads to the same tab, and three steps go round.
pub proof fn law_tabs_go_round(tab: MainTab)
    ensures
        tab_before(tab_behind(tab)) == tab,
        tab_behind(tab_before(tab)) == tab,
        tab_behind(tab_behind(tab_behind(tab))) == tab,
{
}

/// What a revision did to its file.
#[derive(Clone, Copy, Debug, PartialEq, Eq, Structural)]
pub enum EventKind {
    Create,
    Edit,
    Access,
}

/// What a revision did: without a diff it was an access; from an empty backup it created the file.
pub open spec fn kind_of(has_diff: bool, backup_is_empty: bool) -> EventKind {
    if !has_diff {
        EventKind::Access
    } else if backup_is_empty {
        EventKind::Create
    } else {
        EventKind::Edit
    }
}

/// What a revision did.
pub fn event_kind(has_diff: bool, backup_is_empty: bool) -> (r: EventKind)
    ensures
        r == kind_of(has_diff, backup_is_empty),
{
    if !has_diff {
        EventKind::Access
    } else if backup_is_empty {
        EventKind::Create
    } else {
        EventKind::Edit
    }
}

/// The name of what a revision did.
pub open spec fn kind_label(kind: EventKind) -> Seq<char> {
    match kind {
        EventKind::Create => "CREATE"@,
        EventKind::Edit => "EDIT"@,
        EventKind::Access => "ACCESS"@,
    }
}

impl EventKind {
    pub fn label(self) -> (r: &'static str)
        ensures
            r@ == kind_label(self),
    {
        match self {
            EventKind::Create => "CREATE",
            EventKind::Edit => "EDIT",
            EventKind::Access => "ACCESS",
        }
    }

    /// Whether the content changed.
    pub fn is_change(self) -> (r: bool)
        ensures
            r == (self != EventKind::Access),
    {
        self != EventKind::Access
    }
}

/// A revision with what it did.
#[derive(Debug, PartialEq, Eq)]
pub struct TimelineEvent {
    pub revision: Revision,
    pub kind: EventKind,
}

/// The model of a revision with what it did.
pub struct EventView {
    pub revision: RevisionView,
    pub kind: EventKind,
}

impl View for TimelineEvent {
    type V = EventView;

    open spec fn view(&self) -> EventView {
        EventView { revision: self.revision@, kind: self.kind }
    }
}

impl Replicate for TimelineEvent {
    fn replicate(&self) -> (r: Self) {
        TimelineEvent { revision: self.revision.clone(), kind: self.kind }
    }
}

/// What the diff on the screen belongs to.
#[derive(Debug, PartialEq, Eq)]
pub enum SelectedTarget {
    Nothing,
    Timeline { path: String, revision: u64 },
    ReposFiles { path: String, revision: u64 },
    Search { path: String, revision: u64 },
}

/// The model of what the diff belongs to.
pub enum TargetView {
    Nothing,
    Timeline { path: Seq<char>, revision: u64 },
    ReposFiles { path: Seq<char>, revision: u64 },
    Search { path: Seq<char>, revision: u64 },
}

impl View for SelectedTarget {
    type V = TargetView;

    open spec fn view(&self) -> TargetView {
        match self {
            SelectedTarget::Nothing => TargetView::Nothing,
            SelectedTarget::Timeline { path, revision } => TargetView::Timeline {
                path: path@,
                revision: *revision,
            },
            SelectedTarget::ReposFiles { path, revision } => TargetView::ReposFiles {
                path: path@,
                revision: *revision,
            },
            SelectedTarget::Search { path, revision } => TargetView::Search {
                path: path@,
                revision: *revision,
            },
        }
    }
}

/// What the diff on the screen belongs to.
#[derive(Debug, PartialEq, Eq)]
pub struct DiffContext {
    pub target: SelectedTarget,
}

impl View for DiffContext {
    type V = TargetView;

    open spec fn view(&self) -> TargetView {
        self.target@
    }
}

impl Default for DiffContext {
    fn default() -> (r: Self)
        ensures
            r@ == TargetView::Nothing,
    {
        DiffContext { target: SelectedTarget::Nothing }
    }
}

/// The revision that is selected, with what it did.
#[derive(Debug, PartialEq, Eq)]
pub struct SelectedHistoryItem {
    pub revision: Revision,
    pub kind: EventKind,
}

impl View for SelectedHistoryItem {
    type V = EventView;

    open spec fn view(&self) -> EventView {
        EventView { revision: self.revision@, kind: self.kind }
    }
}

/// What a search asks of the data about a revision.
#[derive(Debug, PartialEq, Eq)]
pub struct SearchFilters {
    pub path: String,
    pub tag: String,
    pub actor: String,
    pub editor: String,
    pub date: String,
}

/// The model of filters.
pub struct FiltersView {
    pub path: Seq<char>,
    pub tag: Seq<char>,
    pub actor: Seq<char>,
    pub editor: Seq<char>,
    pub date: Seq<char>,
}

impl View for SearchFilters {
    type V = FiltersView;

    open spec fn view(&self) -> FiltersView {
        FiltersView {
            path: self.path@,
            tag: self.tag@,
            actor: self.actor@,
            editor: self.editor@,
            date: self.date@,
        }
    }
}

/// No filters.
pub open spec fn no_filters() -> FiltersView {
    FiltersView {
        path: Seq::empty(),
        tag: Seq::empty(),
        actor: Seq::empty(),
        editor: Seq::empty(),
        date: Seq::empty(),
    }
}

impl Default for SearchFilters {
    fn default() -> (r: Self)
        ensures
            r@ == no_filters(),
    {
        SearchFilters {
            path: String::new(),
            tag: String::new(),
            actor: String::new(),
            editor: String::new(),
            date: String::new(),
        }
    }
}

/// The fields of the filters.
#[derive(Clone, Copy, Debug, PartialEq, Eq, Structural)]
pub enum FilterField {
    Path,
    Tag,
    Actor,
    Editor,
    Date,
}

/// The field behind a field.
pub open spec fn field_behind(field: FilterField) -> FilterField {
    match field {
        FilterField::Path => FilterField::Tag,
        FilterField::Tag => FilterField::Actor,
        FilterField::Actor => FilterField::Editor,
        FilterField::Editor => FilterField::Date,
        FilterField::Date => FilterField::Path,
    }
}

impl FilterField {
    pub fn next(self) -> (r: Self)
        ensures
            r == field_behind(self),
    {
        match self {
            FilterField::Path => FilterField::Tag,
            FilterField::Tag => FilterField::Actor,
            FilterField::Actor => FilterField::Editor,
            FilterField::Editor => FilterField::Date,
            FilterField::Date => FilterField::Path,
        }
    }
}

/// The text in a field.
pub open spec fn field_text(f: FiltersView, field: FilterField) -> Seq<char> {
    match field {
        FilterField::Path => f.path,
        FilterField::Tag => f.tag,
        FilterField::Actor => f.actor,
        FilterField::Editor => f.editor,
        FilterField::Date => f.date,
    }
}

/// Filters with another text in a field.
pub open spec fn with_field(f: FiltersView, field: FilterField, text: Seq<char>) -> FiltersView {
    match field {
        FilterField::Path => FiltersView { path: text, ..f },
        FilterField::Tag => FiltersView { tag: text, ..f },
        FilterField::Actor => FiltersView { actor: text, ..f },
        FilterField::Editor => FiltersView { editor: text, ..f },
        FilterField::Date => FiltersView { date: text, ..f },
    }
}

/// The small letters that std makes of a text.
pub uninterp spec fn lower_case(text: Seq<char>) -> Seq<char>;

/// Calls `str::to_lowercase`. Trusted: the result is a function of the text.
#[verifier::external_body]
fn small_letters(text: &str) -> (r: String)
    ensures
        r@ == lower_case(text@),
{
    text.to_lowercase()
}

/// Whether a text holds another, whatever the case; every text holds the empty one.
pub open spec fn holds_fold(value: Seq<char>, needle: Seq<char>) -> bool {
    needle.len() == 0 || occurs(lower_case(value), lower_case(needle))
}

/// Whether a text in small letters holds another in small letters; all hold the empty one.
pub fn contains_lowered(lowered: &str, lowered_needle: &str, needle_is_empty: bool) -> (r: bool)
    ensures
        r == (needle_is_empty || occurs(lowered@, lowered_needle@)),
{
    needle_is_empty || contains(lowered, lowered_needle)
}

/// Whether a text holds another, whatever the case.
pub fn contains_fold(value: &str, needle: &str) -> (r: bool)
    ensures
        r == holds_fold(value@, needle@),
{
    let lowered: String = small_letters(value);
    let lowered_needle: String = small_letters(needle);
    contains_lowered(lowered.as_str(), lowered_needle.as_str(), chars_of(needle).len() == 0)
}

/// A tag, or nothing.
pub open spec fn tag_text(tag: Option<Seq<char>>) -> Seq<char> {
    match tag {
        Some(t) => t,
        None => Seq::empty(),
    }
}

/// Whether filters let a revision through.
pub open spec fn lets_through(f: FiltersView, r: RevisionView, now: u64) -> bool {
    &&& holds_fold(r.access.path, f.path)
    &&& holds_fold(tag_text(r.tag), f.tag)
    &&& holds_fold(r.actor, f.actor)
    &&& holds_fold(r.access.editor, f.editor)
    &&& f.date.len() == 0 || holds_fold(r.access.stamp, f.date) || holds_fold(
        shown_time(r.access.epoch, now),
        f.date,
    )
}

impl SearchFilters {
    /// Whether the filters let a revision through.
    pub fn matches(&self, revision: &Revision, now: u64) -> (r: bool)
        ensures
            r == lets_through(self@, revision@, now),
    {
        let tag: String = match &revision.tag {
            Some(t) => t.clone(),
            None => String::new(),
        };
        contains_fold(revision.access.path.as_str(), self.path.as_str()) && contains_fold(
            tag.as_str(),
            self.tag.as_str(),
        ) && contains_fold(revision.actor.as_str(), self.actor.as_str()) && contains_fold(
            revision.access.editor.as_str(),
            self.editor.as_str(),
        ) && (chars_of(self.date.as_str()).len() == 0 || contains_fold(
            revision.access.stamp.as_str(),
            self.date.as_str(),
        ) || contains_fold(
            format_timestamp(revision.access.epoch, now).as_str(),
            self.date.as_str(),
        ))
    }

    /// The text in a field.
    pub fn field(&self, field: FilterField) -> (r: String)
        ensures
            r@ == field_text(self@, field),
    {
        match field {
            FilterField::Path => self.path.clone(),
            FilterField::Tag => self.tag.clone(),
            FilterField::Actor => self.actor.clone(),
            FilterField::Editor => self.editor.clone(),
            FilterField::Date => self.date.clone(),
        }
    }

    /// Puts another text into a field.
    pub fn set_field(&mut self, field: FilterField, text: String)
        ensures
            final(self)@ == with_field(old(self)@, field, text@),
    {
        match field {
            FilterField::Path => {
                self.path = text;
            },
            FilterField::Tag => {
                self.tag = text;
            },
            FilterField::Actor => {
                self.actor = text;
            },
            FilterField::Editor => {
                self.editor = text;
            },
            FilterField::Date => {
                self.date = text;
            },
        }
    }
}

/// A revision that a search found.
#[derive(Debug, PartialEq, Eq)]
pub struct SearchResult {
    pub path: String,
    pub revision: u64,
    pub matches: usize,
    pub epoch: u64,
    pub editor: String,
    pub actor: String,
    pub tag: Option<String>,
    pub preview: String,
    pub kind: EventKind,
}

/// The model of a search result.
pub struct ResultView {
    pub path: Seq<char>,
    pub revision: u64,
    pub matches: usize,
    pub epoch: u64,
    pub editor: Seq<char>,
    pub actor: Seq<char>,
    pub tag: Option<Seq<char>>,
    pub preview: Seq<char>,
    pub kind: EventKind,
}

impl View for SearchResult {
    type V = ResultView;

    open spec fn view(&self) -> ResultView {
        ResultView {
            path: self.path@,
            revision: self.revision,
            matches: self.matches,
            epoch: self.epoch,
            editor: self.editor@,
            actor: self.actor@,
            tag: opt_view(self.tag),
            preview: self.preview@,
            kind: self.kind,
        }
    }
}

impl Replicate for SearchResult {
    fn replicate(&self) -> (r: Self) {
        SearchResult {
            path: self.path.clone(),
            revision: self.revision,
            matches: self.matches,
            epoch: self.epoch,
            editor: self.editor.clone(),
            actor: self.actor.clone(),
            tag: copy_opt(&self.tag),
            preview: self.preview.clone(),
            kind: self.kind,
        }
    }
}

/// A line of the tree of files.
#[derive(Debug, PartialEq, Eq)]
pub struct TreeNode {
    pub path: String,
    pub label: String,
    pub directory: bool,
    pub depth: usize,
}

/// The model of a line of the tree.
pub struct NodeView {
    pub path: Seq<char>,
    pub label: Seq<char>,
    pub directory: bool,
    pub depth: usize,
}

impl View for TreeNode {
    type V = NodeView;

    open spec fn view(&self) -> NodeView {
        NodeView {
            path: self.path@,
            label: self.label@,
            directory: self.directory,
            depth: self.depth,
        }
    }
}

impl Replicate for TreeNode {
    fn replicate(&self) -> (r: Self) {
        TreeNode {
            path: self.path.clone(),
            label: self.label.clone(),
            directory: self.directory,
            depth: self.depth,
        }
    }
}

/// The place of a path in a list, from `from` on.
pub open spec fn place_of_path(list: Seq<Seq<char>>, path: Seq<char>, from: int) -> Option<int>
    decreases list.len() - from,
{
    if from < 0 || from >= list.len() {
        None
    } else if same_path_text(list[from], path) {
        Some(from)
    } else {
        place_of_path(list, path, from + 1)
    }
}

/// The place of a path in a list is one where it stands, and there is one exactly where the list
/// names it.
pub proof fn lemma_place_of_path(list: Seq<Seq<char>>, path: Seq<char>, from: int)
    requires
        0 <= from,
    ensures
        match place_of_path(list, path, from) {
            Some(i) => from <= i < list.len() && same_path_text(list[i], path),
            None => forall|i: int|
                from <= i < list.len() ==> !same_path_text(#[trigger] list[i], path),
        },
    decreases list.len() - from,
{
    if from < list.len() && !same_path_text(list[from], path) {
        lemma_place_of_path(list, path, from + 1);
    }
}

/// A place, or the first one.
pub open spec fn or_first(place: Option<int>) -> usize {
    match place {
        Some(i) => i as usize,
        None => 0,
    }
}

/// The place of a path in a list.
pub fn find_path(list: &Vec<String>, path: &str) -> (r: Option<usize>)
    ensures
        match r {
            Some(i) => i < list@.len() && place_of_path(views(list@), path@, 0) == Some(i as int),
            None => place_of_path(views(list@), path@, 0) is None,
        },
{
    let ghost all = views(list@);
    let mut i: usize = 0;
    while i < list.len()
        invariant
            i <= list.len(),
            all == views(list@),
            place_of_path(all, path@, 0) == place_of_path(all, path@, i as int),
        decreases list.len() - i,
    {
        assert(all[i as int] == list@[i as int]@);
        if same_path(list[i].as_str(), path) {
            return Some(i);
        }
        i += 1;
    }
    None
}

/// The place of a path in a list, or the first one.
pub fn find_path_or_first(list: &Vec<String>, path: &str) -> (r: usize)
    ensures
        r == or_first(place_of_path(views(list@), path@, 0)),
{
    match find_path(list, path) {
        Some(i) => i,
        None => 0,
    }
}

/// Whether a list holds a path.
pub open spec fn holds_path(list: Seq<Seq<char>>, path: Seq<char>) -> bool {
    place_of_path(list, path, 0) is Some
}

/// A list with a path in it.
pub open spec fn with_path(list: Seq<Seq<char>>, path: Seq<char>) -> Seq<Seq<char>> {
    if holds_path(list, path) {
        list
    } else {
        list.push(path)
    }
}

/// The first `n` paths of a list but for one.
pub open spec fn without_path(list: Seq<Seq<char>>, n: int, path: Seq<char>) -> Seq<Seq<char>>
    decreases n,
{
    if n <= 0 {
        Seq::empty()
    } else if same_path_text(list[n - 1], path) {
        without_path(list, n - 1, path)
    } else {
        without_path(list, n - 1, path).push(list[n - 1])
    }
}

/// Puts a path into a list that has none twice.
pub fn insert_path(list: &mut Vec<String>, path: &str)
    ensures
        views(final(list)@) == with_path(views(old(list)@), path@),
{
    if find_path(list, path).is_none() {
        let ghost before = list@;
        list.push(path.to_owned());
        assert(views(list@) =~= views(before).push(path@));
    }
}

/// A list without a path.
pub fn remove_path(list: &Vec<String>, path: &str) -> (r: Vec<String>)
    ensures
        views(r@) == without_path(views(list@), list@.len() as int, path@),
{
    let ghost all = views(list@);
    let mut out: Vec<String> = Vec::new();
    let mut i: usize = 0;
    assert(views(out@) =~= Seq::empty());
    while i < list.len()
        invariant
            i <= list.len(),
            all == views(list@),
            views(out@) == without_path(all, i as int, path@),
        decreases list.len() - i,
    {
        assert(all[i as int] == list@[i as int]@);
        if !same_path(list[i].as_str(), path) {
            let ghost before = out@;
            let item: String = list[i].clone();
            out.push(item);
            assert(views(out@) =~= views(before).push(item@));
        }
        i += 1;
    }
    out
}

/// The keys of paths.
pub open spec fn path_keys(list: Seq<Seq<char>>) -> Seq<Seq<u64>> {
    Seq::new(list.len(), |i: int| path_key(list[i]))
}

/// Paths in order.
pub fn sort_paths(list: &Vec<String>) -> (r: Vec<String>)
    ensures
        views(r@) == sorted_by_key(views(list@), path_keys(views(list@))),
{
    let mut keys: Vec<Vec<u64>> = Vec::new();
    let mut i: usize = 0;
    while i < list.len()
        invariant
            i <= list.len(),
            keys@.len() == i,
            forall|j: int| 0 <= j < i ==> (#[trigger] keys@[j])@ == path_key(list@[j]@),
        decreases list.len() - i,
    {
        let mut key: Vec<u64> = Vec::new();
        push_path_key(&mut key, list[i].as_str());
        assert(key@ =~= path_key(list@[i as int]@));
        keys.push(key);
        i += 1;
    }
    let order: Vec<usize> = sort_order(&keys);
    assert(key_views(keys@) =~= path_keys(views(list@)));
    arrange(list, &order)
}

/// The first `n` paths of an ordered list, each once.
pub open spec fn once_each(list: Seq<Seq<char>>, n: int) -> Seq<Seq<char>>
    decreases n,
{
    if n <= 0 {
        Seq::empty()
    } else {
        let before = once_each(list, n - 1);
        if before.len() > 0 && same_path_text(before.last(), list[n - 1]) {
            before
        } else {
            before.push(list[n - 1])
        }
    }
}

/// Paths in order, each once.
pub fn keep_once(ordered: &Vec<String>) -> (r: Vec<String>)
    ensures
        views(r@) == once_each(views(ordered@), ordered@.len() as int),
{
    let ghost o = views(ordered@);
    let mut out: Vec<String> = Vec::new();
    let mut n: usize = 0;
    assert(views(out@) =~= Seq::empty());
    while n < ordered.len()
        invariant
            n <= ordered.len(),
            o == views(ordered@),
            views(out@) == once_each(o, n as int),
        decreases ordered.len() - n,
    {
        assert(o[n as int] == ordered@[n as int]@);
        let repeated: bool = if out.len() > 0 {
            assert(views(out@).last() == out@.last()@);
            same_path(out[out.len() - 1].as_str(), ordered[n].as_str())
        } else {
            false
        };
        if !repeated {
            let ghost before = out@;
            let item: String = ordered[n].clone();
            out.push(item);
            assert(views(out@) =~= views(before).push(item@));
        }
        n += 1;
    }
    assert(o.len() == ordered@.len());
    out
}

/// The paths of revisions.
pub open spec fn revision_paths(rs: Seq<RevisionView>) -> Seq<Seq<char>> {
    Seq::new(rs.len(), |i: int| rs[i].access.path)
}

/// The files that revisions belong to, in order, each once.
pub open spec fn files_of(rs: Seq<RevisionView>) -> Seq<Seq<char>> {
    let paths = revision_paths(rs);
    let ordered = sorted_by_key(paths, path_keys(paths));
    once_each(ordered, ordered.len() as int)
}

/// The files that revisions belong to, in order, each once.
pub fn list_files(all: &Vec<Revision>) -> (r: Vec<String>)
    ensures
        views(r@) == files_of(all_views(all@)),
{
    let mut paths: Vec<String> = Vec::new();
    let mut i: usize = 0;
    while i < all.len()
        invariant
            i <= all.len(),
            paths@.len() == i,
            forall|j: int| 0 <= j < i ==> (#[trigger] paths@[j])@ == all@[j].access.path@,
        decreases all.len() - i,
    {
        paths.push(all[i].access.path.clone());
        i += 1;
    }
    assert(views(paths@) =~= revision_paths(all_views(all@)));
    keep_once(&sort_paths(&paths))
}

/// Whether a list names a path.
pub open spec fn names_path(list: Seq<Seq<char>>, path: Seq<char>) -> bool {
    exists|i: int| 0 <= i < list.len() && same_path_text(#[trigger] list[i], path)
}

/// Whether each path of a list comes before its successors.
pub open spec fn paths_ascend(list: Seq<Seq<char>>) -> bool {
    forall|i: int, j: int|
        0 <= i < j < list.len() ==> path_less(#[trigger] list[i], #[trigger] list[j])
}

spec fn keys_ascend(list: Seq<Seq<char>>) -> bool {
    forall|i: int, j: int|
        0 <= i < j < list.len() ==> key_less(
            path_key(#[trigger] list[i]),
            path_key(#[trigger] list[j]),
        )
}

proof fn lemma_once_each_is_no_longer(list: Seq<Seq<char>>, n: int)
    requires
        0 <= n,
    ensures
        once_each(list, n).len() <= n,
    decreases n,
{
    if n > 0 {
        lemma_once_each_is_no_longer(list, n - 1);
    }
}

proof fn lemma_once_each(list: Seq<Seq<char>>, n: int)
    requires
        0 <= n <= list.len(),
        forall|i: int, j: int|
            0 <= i < j < list.len() ==> (key_less(
                path_key(#[trigger] list[i]),
                path_key(#[trigger] list[j]),
            ) || path_key(list[i]) == path_key(list[j])),
    ensures
        keys_ascend(once_each(list, n)),
        n > 0 ==> once_each(list, n).len() > 0 && path_key(once_each(list, n).last()) == path_key(
            list[n - 1],
        ),
        forall|k: int| 0 <= k < n ==> names_path(once_each(list, n), #[trigger] list[k]),
        forall|i: int| 0 <= i < once_each(list, n).len() ==> list.contains(
            #[trigger] once_each(list, n)[i],
        ),
    decreases n,
{
    if n > 0 {
        lemma_once_each(list, n - 1);
        let before = once_each(list, n - 1);
        let last = list[n - 1];
        let now = once_each(list, n);
        if before.len() > 0 {
            law_path_keys_are_faithful(before.last(), last);
        }
        if before.len() > 0 && same_path_text(before.last(), last) {
            assert(same_path_text(now[now.len() - 1], last));
        } else {
            assert forall|i: int| 0 <= i < before.len() implies key_less(
                path_key(#[trigger] before[i]),
                path_key(last),
            ) by {
                assert(n > 1);
                assert(key_less(path_key(list[n - 2]), path_key(last)) || path_key(list[n - 2])
                    == path_key(last));
                if i < before.len() - 1 {
                    assert(key_less(path_key(before[i]), path_key(before[before.len() - 1])));
                    lemma_key_transitive(
                        path_key(before[i]),
                        path_key(before.last()),
                        path_key(last),
                    );
                }
            }
            assert(now =~= before.push(last));
            assert(same_path_text(now[now.len() - 1], last));
            assert forall|k: int| 0 <= k < n implies names_path(now, #[trigger] list[k]) by {
                if k < n - 1 {
                    assert(names_path(before, list[k]));
                    let i = choose|i: int|
                        0 <= i < before.len() && same_path_text(#[trigger] before[i], list[k]);
                    assert(same_path_text(now[i], list[k]));
                }
            }
            assert forall|i: int| 0 <= i < now.len() implies list.contains(#[trigger] now[i]) by {
                if i < before.len() {
                    assert(now[i] == before[i]);
                } else {
                    assert(list[n - 1] == now[i]);
                }
            }
        }
    }
}

/// The files of a repository are those that its revisions belong to: each is listed, none twice,
/// and in order.
pub proof fn law_each_file_is_listed_once(rs: Seq<RevisionView>)
    ensures
        files_of(rs).len() <= rs.len(),
        paths_ascend(files_of(rs)),
        forall|i: int, j: int|
            0 <= i < j < files_of(rs).len() ==> !same_path_text(
                #[trigger] files_of(rs)[i],
                #[trigger] files_of(rs)[j],
            ),
        forall|k: int| 0 <= k < rs.len() ==> names_path(files_of(rs), (#[trigger] rs[k]).access.path),
        forall|i: int| 0 <= i < files_of(rs).len() ==> revision_paths(rs).contains(
            #[trigger] files_of(rs)[i],
        ),
{
    let paths = revision_paths(rs);
    let keys = path_keys(paths);
    let ordered = sorted_by_key(paths, keys);
    let order = stable_order(keys);
    law_stable_order(keys);
    law_sorting_keeps_items(paths, keys);
    assert forall|i: int, j: int| 0 <= i < j < ordered.len() implies (key_less(
        path_key(#[trigger] ordered[i]),
        path_key(#[trigger] ordered[j]),
    ) || path_key(ordered[i]) == path_key(ordered[j])) by {
        assert(comes_before(keys, order[i], order[j]));
    }
    lemma_once_each(ordered, ordered.len() as int);
    lemma_once_each_is_no_longer(ordered, ordered.len() as int);
    let files = files_of(rs);
    assert forall|i: int, j: int| 0 <= i < j < files.len() implies path_less(
        #[trigger] files[i],
        #[trigger] files[j],
    ) && !same_path_text(files[i], files[j]) by {
        law_path_keys_order_paths(files[i], files[j]);
        lemma_key_irreflexive(path_key(files[i]), path_key(files[j]));
        law_path_keys_are_faithful(files[i], files[j]);
    }
    assert forall|k: int| 0 <= k < rs.len() implies names_path(
        files,
        (#[trigger] rs[k]).access.path,
    ) by {
        assert(paths[k] == rs[k].access.path);
        assert(paths.contains(rs[k].access.path));
        assert(ordered.contains(rs[k].access.path));
        let i = choose|i: int| 0 <= i < ordered.len() && ordered[i] == rs[k].access.path;
        assert(names_path(files, ordered[i]));
    }
    assert forall|i: int| 0 <= i < files.len() implies paths.contains(#[trigger] files[i]) by {
        assert(ordered.contains(files[i]));
    }
}

/// Revisions are shown with the newest first, and the greater number first at the same time.
pub open spec fn recent_key(r: RevisionView) -> Seq<u64> {
    seq![(u64::MAX - r.access.epoch) as u64, (u64::MAX - r.number) as u64]
}

/// The keys by which recent revisions are ordered.
pub open spec fn recent_keys(rs: Seq<RevisionView>) -> Seq<Seq<u64>> {
    Seq::new(rs.len(), |i: int| recent_key(rs[i]))
}

/// Revisions with the newest first.
pub open spec fn newest_first(rs: Seq<RevisionView>) -> Seq<RevisionView> {
    sorted_by_key(rs, recent_keys(rs))
}

/// Revisions with the newest first.
pub fn sort_newest_first(list: &Vec<Revision>) -> (r: Vec<Revision>)
    ensures
        all_views(r@) == newest_first(all_views(list@)),
{
    let mut keys: Vec<Vec<u64>> = Vec::new();
    let mut i: usize = 0;
    while i < list.len()
        invariant
            i <= list.len(),
            keys@.len() == i,
            forall|j: int| 0 <= j < i ==> (#[trigger] keys@[j])@ == recent_key(list@[j]@),
        decreases list.len() - i,
    {
        let mut key: Vec<u64> = Vec::new();
        key.push(u64::MAX - list[i].access.epoch);
        key.push(u64::MAX - list[i].number);
        assert(key@ =~= recent_key(list@[i as int]@));
        keys.push(key);
        i += 1;
    }
    let order: Vec<usize> = sort_order(&keys);
    assert(key_views(keys@) =~= recent_keys(all_views(list@)));
    arrange(list, &order)
}

/// Whether a revision is newer than another, or as new and of no smaller number.
pub open spec fn no_older(a: RevisionView, b: RevisionView) -> bool {
    a.access.epoch > b.access.epoch || (a.access.epoch == b.access.epoch && a.number >= b.number)
}

proof fn lemma_recent(a: RevisionView, b: RevisionView)
    requires
        key_less(recent_key(a), recent_key(b)) || recent_key(a) == recent_key(b),
    ensures
        no_older(a, b),
{
    let (x, y) = (recent_key(a), recent_key(b));
    assert(x[0] == u64::MAX - a.access.epoch && y[0] == u64::MAX - b.access.epoch);
    assert(x[1] == u64::MAX - a.number && y[1] == u64::MAX - b.number);
    if key_less(x, y) {
        let k = choose|k: int| smaller_at(x, y, k);
        assert(k == 0 || k == 1);
    }
}

/// Sorting revisions by age keeps each of them and never puts an older one before a newer one;
/// of two as old as each other the greater number comes first.
pub proof fn law_newest_come_first(rs: Seq<RevisionView>)
    ensures
        newest_first(rs).to_multiset() == rs.to_multiset(),
        forall|i: int, j: int|
            0 <= i < j < newest_first(rs).len() ==> no_older(
                #[trigger] newest_first(rs)[i],
                #[trigger] newest_first(rs)[j],
            ),
{
    let keys = recent_keys(rs);
    law_sorting_keeps_items(rs, keys);
    law_stable_order(keys);
    let order = stable_order(keys);
    assert forall|i: int, j: int| 0 <= i < j < newest_first(rs).len() implies no_older(
        #[trigger] newest_first(rs)[i],
        #[trigger] newest_first(rs)[j],
    ) by {
        assert(comes_before(keys, order[i], order[j]));
        lemma_recent(rs[order[i]], rs[order[j]]);
    }
}

/// Events, each with what it did.
pub open spec fn events_of(rs: Seq<RevisionView>, kinds: Seq<EventKind>) -> Seq<EventView> {
    Seq::new(rs.len(), |i: int| event_of(rs[i], kinds[i]))
}

/// An event.
pub open spec fn event_of(revision: RevisionView, kind: EventKind) -> EventView {
    EventView { revision, kind }
}

/// The keys by which events are ordered.
pub open spec fn event_keys(es: Seq<EventView>) -> Seq<Seq<u64>> {
    Seq::new(es.len(), |i: int| recent_key(es[i].revision))
}

/// The timeline: events with the newest first.
pub open spec fn timeline_of(rs: Seq<RevisionView>, kinds: Seq<EventKind>) -> Seq<EventView> {
    let es = events_of(rs, kinds);
    sorted_by_key(es, event_keys(es))
}

/// The timeline: events with the newest first.
pub fn make_timeline(all: &Vec<Revision>, kinds: &Vec<EventKind>) -> (r: Vec<TimelineEvent>)
    requires
        kinds@.len() == all@.len(),
    ensures
        all_views(r@) == timeline_of(all_views(all@), kinds@),
{
    let mut events: Vec<TimelineEvent> = Vec::new();
    let mut keys: Vec<Vec<u64>> = Vec::new();
    let mut i: usize = 0;
    while i < all.len()
        invariant
            i <= all.len(),
            kinds@.len() == all@.len(),
            keys@.len() == i,
            events@.len() == i,
            forall|j: int| 0 <= j < i ==> (#[trigger] keys@[j])@ == recent_key(all@[j]@),
            forall|j: int| 0 <= j < i ==> (#[trigger] events@[j])@ == event_of(all@[j]@, kinds@[j]),
        decreases all.len() - i,
    {
        events.push(TimelineEvent { revision: all[i].clone(), kind: kinds[i] });
        let mut key: Vec<u64> = Vec::new();
        key.push(u64::MAX - all[i].access.epoch);
        key.push(u64::MAX - all[i].number);
        assert(key@ =~= recent_key(all@[i as int]@));
        keys.push(key);
        i += 1;
    }
    let order: Vec<usize> = sort_order(&keys);
    assert(all_views(events@) =~= events_of(all_views(all@), kinds@));
    assert(key_views(keys@) =~= event_keys(all_views(events@)));
    arrange(&events, &order)
}

/// The timeline holds one event for each revision, with what that revision did, and never an
/// older one before a newer one.
pub proof fn law_timeline_runs_backwards(rs: Seq<RevisionView>, kinds: Seq<EventKind>)
    requires
        kinds.len() == rs.len(),
    ensures
        timeline_of(rs, kinds).to_multiset() == events_of(rs, kinds).to_multiset(),
        forall|i: int, j: int|
            0 <= i < j < timeline_of(rs, kinds).len() ==> no_older(
                (#[trigger] timeline_of(rs, kinds)[i]).revision,
                (#[trigger] timeline_of(rs, kinds)[j]).revision,
            ),
{
    let es = events_of(rs, kinds);
    let keys = event_keys(es);
    law_sorting_keeps_items(es, keys);
    law_stable_order(keys);
    let order = stable_order(keys);
    assert forall|i: int, j: int| 0 <= i < j < timeline_of(rs, kinds).len() implies no_older(
        (#[trigger] timeline_of(rs, kinds)[i]).revision,
        (#[trigger] timeline_of(rs, kinds)[j]).revision,
    ) by {
        assert(comes_before(keys, order[i], order[j]));
        lemma_recent(es[order[i]].revision, es[order[j]].revision);
    }
}

/// The revisions of a file among the first `n`.
pub open spec fn history_part(rs: Seq<RevisionView>, n: int, path: Seq<char>) -> Seq<RevisionView>
    decreases n,
{
    if n <= 0 {
        Seq::empty()
    } else if same_path_text(rs[n - 1].access.path, path) {
        history_part(rs, n - 1, path).push(rs[n - 1])
    } else {
        history_part(rs, n - 1, path)
    }
}

/// The keys by which a history is ordered.
pub open spec fn history_keys(rs: Seq<RevisionView>) -> Seq<Seq<u64>> {
    Seq::new(rs.len(), |i: int| seq![(u64::MAX - rs[i].number) as u64])
}

/// The revisions of a file, the greatest number first.
pub open spec fn history_of(rs: Seq<RevisionView>, path: Seq<char>) -> Seq<RevisionView> {
    let part = history_part(rs, rs.len() as int, path);
    sorted_by_key(part, history_keys(part))
}

/// The revisions of a file, the greatest number first.
pub fn list_history(all: &Vec<Revision>, path: &str) -> (r: Vec<Revision>)
    ensures
        all_views(r@) == history_of(all_views(all@), path@),
{
    let ghost rs = all_views(all@);
    let mut part: Vec<Revision> = Vec::new();
    let mut keys: Vec<Vec<u64>> = Vec::new();
    let mut n: usize = 0;
    assert(all_views(part@) =~= Seq::empty());
    while n < all.len()
        invariant
            n <= all.len(),
            rs == all_views(all@),
            all_views(part@) == history_part(rs, n as int, path@),
            keys@.len() == part@.len(),
            forall|j: int|
                0 <= j < keys@.len() ==> (#[trigger] keys@[j])@ == seq![
                    (u64::MAX - part@[j].number) as u64,
                ],
        decreases all.len() - n,
    {
        assert(rs[n as int] == all@[n as int]@);
        if same_path(all[n].access.path.as_str(), path) {
            let ghost before = part@;
            let revision: Revision = all[n].clone();
            let mut key: Vec<u64> = Vec::new();
            key.push(u64::MAX - revision.number);
            assert(key@ =~= seq![(u64::MAX - revision.number) as u64]);
            keys.push(key);
            part.push(revision);
            assert(all_views(part@) =~= all_views(before).push(revision@));
        }
        n += 1;
    }
    assert(rs.len() == all@.len());
    let order: Vec<usize> = sort_order(&keys);
    assert(key_views(keys@) =~= history_keys(all_views(part@)));
    arrange(&part, &order)
}

proof fn lemma_history_part(rs: Seq<RevisionView>, n: int, path: Seq<char>)
    requires
        0 <= n <= rs.len(),
    ensures
        history_part(rs, n, path).len() <= n,
        forall|r: RevisionView| #[trigger]
            history_part(rs, n, path).contains(r) <==> rs.take(n).contains(r) && same_path_text(
                r.access.path,
                path,
            ),
    decreases n,
{
    if n > 0 {
        lemma_history_part(rs, n - 1, path);
        let before = history_part(rs, n - 1, path);
        let last = rs[n - 1];
        assert(rs.take(n) =~= rs.take(n - 1).push(last));
        assert forall|r: RevisionView| #[trigger]
            history_part(rs, n, path).contains(r) <==> rs.take(n).contains(r) && same_path_text(
                r.access.path,
                path,
            ) by {
            broadcast use vstd::seq_lib::group_seq_properties;

            assert(before.contains(r) <==> rs.take(n - 1).contains(r) && same_path_text(
                r.access.path,
                path,
            ));
        }
    }
}

/// The history of a file is exactly its own revisions, and their numbers never ascend.
pub proof fn law_history_is_its_own(rs: Seq<RevisionView>, path: Seq<char>)
    ensures
        history_of(rs, path).len() <= rs.len(),
        forall|r: RevisionView| #[trigger]
            history_of(rs, path).contains(r) <==> rs.contains(r) && same_path_text(
                r.access.path,
                path,
            ),
        forall|i: int, j: int|
            0 <= i < j < history_of(rs, path).len() ==> (#[trigger] history_of(rs, path)[i]).number
                >= (#[trigger] history_of(rs, path)[j]).number,
{
    let part = history_part(rs, rs.len() as int, path);
    let keys = history_keys(part);
    lemma_history_part(rs, rs.len() as int, path);
    assert(rs.take(rs.len() as int) =~= rs);
    law_sorting_keeps_items(part, keys);
    law_stable_order(keys);
    let order = stable_order(keys);
    let sorted = history_of(rs, path);
    assert forall|r: RevisionView| #[trigger]
        sorted.contains(r) <==> rs.contains(r) && same_path_text(r.access.path, path) by {
        assert(sorted_by_key(part, keys).contains(r) <==> part.contains(r));
        assert(history_part(rs, rs.len() as int, path).contains(r) <==> rs.contains(r)
            && same_path_text(r.access.path, path));
    }
    assert forall|i: int, j: int| 0 <= i < j < sorted.len() implies (#[trigger] sorted[i]).number
        >= (#[trigger] sorted[j]).number by {
        assert(comes_before(keys, order[i], order[j]));
        let (x, y) = (keys[order[i]], keys[order[j]]);
        assert(x[0] == u64::MAX - sorted[i].number && y[0] == u64::MAX - sorted[j].number);
        if key_less(x, y) {
            let k = choose|k: int| smaller_at(x, y, k);
            assert(k == 0);
        }
    }
}

/// The place of a revision with a number, from `from` on.
pub open spec fn place_of_number(rs: Seq<RevisionView>, number: u64, from: int) -> Option<int>
    decreases rs.len() - from,
{
    if from < 0 || from >= rs.len() {
        None
    } else if rs[from].number == number {
        Some(from)
    } else {
        place_of_number(rs, number, from + 1)
    }
}

/// The place of a number is one where it stands, and there is one exactly where a revision has it.
pub proof fn lemma_place_of_number(rs: Seq<RevisionView>, number: u64, from: int)
    requires
        0 <= from,
    ensures
        match place_of_number(rs, number, from) {
            Some(i) => from <= i < rs.len() && rs[i].number == number,
            None => forall|i: int| from <= i < rs.len() ==> (#[trigger] rs[i]).number != number,
        },
    decreases rs.len() - from,
{
    if from < rs.len() && rs[from].number != number {
        lemma_place_of_number(rs, number, from + 1);
    }
}

/// The place of a revision with a number.
pub fn find_number(list: &Vec<Revision>, number: u64) -> (r: Option<usize>)
    ensures
        match r {
            Some(i) => i < list@.len() && place_of_number(all_views(list@), number, 0) == Some(
                i as int,
            ),
            None => place_of_number(all_views(list@), number, 0) is None,
        },
{
    let ghost all = all_views(list@);
    let mut i: usize = 0;
    while i < list.len()
        invariant
            i <= list.len(),
            all == all_views(list@),
            place_of_number(all, number, 0) == place_of_number(all, number, i as int),
        decreases list.len() - i,
    {
        assert(all[i as int] == list@[i as int]@);
        if list[i].number == number {
            return Some(i);
        }
        i += 1;
    }
    None
}

/// How many of the first `n` revisions changed a file on a day.
pub open spec fn changes_on_day(activity: Seq<RevisionView>, n: int, path: Seq<char>, day: u64) -> nat
    decreases n,
{
    if n <= 0 {
        0
    } else {
        changes_on_day(activity, n - 1, path, day) + (if activity[n - 1].access.epoch / 86400 == day
            && same_path_text(activity[n - 1].access.path, path) {
            1nat
        } else {
            0
        })
    }
}

fn count_changes(activity: &Vec<Revision>, path: &str, day: u64) -> (r: usize)
    ensures
        r == changes_on_day(all_views(activity@), activity@.len() as int, path@, day),
{
    let ghost all = all_views(activity@);
    let mut n: usize = 0;
    let mut count: usize = 0;
    while n < activity.len()
        invariant
            n <= activity.len(),
            count <= n,
            all == all_views(activity@),
            count == changes_on_day(all, n as int, path@, day),
        decreases activity.len() - n,
    {
        assert(all[n as int] == activity@[n as int]@);
        if activity[n].access.epoch / 86400 == day && same_path(
            activity[n].access.path.as_str(),
            path,
        ) {
            count += 1;
        }
        n += 1;
    }
    count
}

/// The directories of the first `n` files, each once.
pub open spec fn directories_of(files: Seq<Seq<char>>, n: int) -> Seq<Seq<char>>
    decreases n,
{
    if n <= 0 {
        Seq::empty()
    } else {
        with_path(directories_of(files, n - 1), directory_of(files[n - 1]))
    }
}

/// How a directory is shown from another.
pub open spec fn directory_label(directory: Seq<char>, cwd: Seq<char>) -> Seq<char> {
    let text = match below(directory, cwd) {
        Some(t) => t,
        None => directory,
    };
    if text.len() == 0 {
        "./"@
    } else {
        text + "/"@
    }
}

/// How a file is shown that changed a number of times today.
pub open spec fn file_label(path: Seq<char>, changes: nat) -> Seq<char> {
    let name = match file_name_of(path) {
        Some(n) => n,
        None => Seq::empty(),
    };
    if changes == 0 {
        name
    } else {
        name + " ["@ + decimal(changes) + " today]"@
    }
}

/// The line of a directory.
pub open spec fn directory_node(directory: Seq<char>, cwd: Seq<char>) -> NodeView {
    NodeView { path: directory, label: directory_label(directory, cwd), directory: true, depth: 0 }
}

/// The line of a file.
pub open spec fn file_node(path: Seq<char>, activity: Seq<RevisionView>, now: u64) -> NodeView {
    NodeView {
        path,
        label: file_label(
            path,
            changes_on_day(activity, activity.len() as int, path, now / 86400),
        ),
        directory: false,
        depth: 1,
    }
}

/// The lines of the files of a directory among the first `n`.
pub open spec fn file_nodes(
    files: Seq<Seq<char>>,
    n: int,
    directory: Seq<char>,
    activity: Seq<RevisionView>,
    now: u64,
) -> Seq<NodeView>
    decreases n,
{
    if n <= 0 {
        Seq::empty()
    } else {
        let before = file_nodes(files, n - 1, directory, activity, now);
        if same_path_text(directory_of(files[n - 1]), directory) {
            before.push(file_node(files[n - 1], activity, now))
        } else {
            before
        }
    }
}

/// The lines of a directory: its own, and those of its files where it is expanded.
pub open spec fn group_nodes(
    files: Seq<Seq<char>>,
    directory: Seq<char>,
    expanded: Seq<Seq<char>>,
    activity: Seq<RevisionView>,
    now: u64,
    cwd: Seq<char>,
) -> Seq<NodeView> {
    seq![directory_node(directory, cwd)] + (if holds_path(expanded, directory) {
        file_nodes(files, files.len() as int, directory, activity, now)
    } else {
        Seq::empty()
    })
}

/// The lines of the first `n` directories.
pub open spec fn tree_part(
    files: Seq<Seq<char>>,
    directories: Seq<Seq<char>>,
    n: int,
    expanded: Seq<Seq<char>>,
    activity: Seq<RevisionView>,
    now: u64,
    cwd: Seq<char>,
) -> Seq<NodeView>
    decreases n,
{
    if n <= 0 {
        Seq::empty()
    } else {
        tree_part(files, directories, n - 1, expanded, activity, now, cwd) + group_nodes(
            files,
            directories[n - 1],
            expanded,
            activity,
            now,
            cwd,
        )
    }
}

/// The tree of files: the directories in order, each with its files where it is expanded.
pub open spec fn tree_of(
    files: Seq<Seq<char>>,
    expanded: Seq<Seq<char>>,
    activity: Seq<RevisionView>,
    now: u64,
    cwd: Seq<char>,
) -> Seq<NodeView> {
    let directories = directories_of(files, files.len() as int);
    let ordered = sorted_by_key(directories, path_keys(directories));
    tree_part(files, ordered, ordered.len() as int, expanded, activity, now, cwd)
}

/// Whether lines show a file.
pub open spec fn shows_file(lines: Seq<NodeView>, path: Seq<char>) -> bool {
    exists|i: int| 0 <= i < lines.len() && !(#[trigger] lines[i]).directory && lines[i].path == path
}

/// Whether lines show a directory.
pub open spec fn shows_directory(lines: Seq<NodeView>, path: Seq<char>) -> bool {
    exists|i: int|
        0 <= i < lines.len() && (#[trigger] lines[i]).directory && same_path_text(
            lines[i].path,
            path,
        )
}

/// Whether a path is the directory of a file.
pub open spec fn is_directory_of_one(files: Seq<Seq<char>>, path: Seq<char>) -> bool {
    exists|k: int| 0 <= k < files.len() && directory_of(#[trigger] files[k]) == path
}

/// Whether a line shows a file, or the directory of one.
pub open spec fn line_is_recorded(
    line: NodeView,
    files: Seq<Seq<char>>,
    expanded: Seq<Seq<char>>,
) -> bool {
    if line.directory {
        is_directory_of_one(files, line.path)
    } else {
        files.contains(line.path) && holds_path(expanded, directory_of(line.path))
    }
}

proof fn lemma_place_of_same(list: Seq<Seq<char>>, a: Seq<char>, b: Seq<char>, from: int)
    requires
        same_path_text(a, b),
    ensures
        place_of_path(list, a, from) == place_of_path(list, b, from),
    decreases list.len() - from,
{
    if 0 <= from < list.len() {
        lemma_place_of_same(list, a, b, from + 1);
    }
}

proof fn lemma_file_nodes(
    files: Seq<Seq<char>>,
    n: int,
    directory: Seq<char>,
    activity: Seq<RevisionView>,
    now: u64,
)
    requires
        0 <= n <= files.len(),
    ensures
        forall|i: int|
            0 <= i < file_nodes(files, n, directory, activity, now).len() ==> {
                let line = #[trigger] file_nodes(files, n, directory, activity, now)[i];
                !line.directory && files.contains(line.path) && same_path_text(
                    directory_of(line.path),
                    directory,
                )
            },
        forall|k: int|
            0 <= k < n && same_path_text(directory_of(#[trigger] files[k]), directory)
                ==> shows_file(file_nodes(files, n, directory, activity, now), files[k]),
    decreases n,
{
    if n > 0 {
        lemma_file_nodes(files, n - 1, directory, activity, now);
        let before = file_nodes(files, n - 1, directory, activity, now);
        let lines = file_nodes(files, n, directory, activity, now);
        let last = files[n - 1];
        assert(files.contains(last));
        assert forall|k: int|
            0 <= k < n && same_path_text(
                directory_of(#[trigger] files[k]),
                directory,
            ) implies shows_file(lines, files[k]) by {
            if k < n - 1 {
                let i = choose|i: int|
                    0 <= i < before.len() && !(#[trigger] before[i]).directory && before[i].path
                        == files[k];
                assert(lines[i] == before[i]);
            } else {
                assert(lines[lines.len() - 1].path == last);
            }
        }
    }
}

proof fn lemma_tree_part(
    files: Seq<Seq<char>>,
    directories: Seq<Seq<char>>,
    n: int,
    expanded: Seq<Seq<char>>,
    activity: Seq<RevisionView>,
    now: u64,
    cwd: Seq<char>,
)
    requires
        0 <= n <= directories.len(),
        forall|d: int|
            0 <= d < directories.len() ==> is_directory_of_one(files, #[trigger] directories[d]),
    ensures
        ({
            let lines = tree_part(files, directories, n, expanded, activity, now, cwd);
            &&& forall|i: int|
                0 <= i < lines.len() ==> line_is_recorded(#[trigger] lines[i], files, expanded)
            &&& forall|d: int| 0 <= d < n ==> shows_directory(lines, #[trigger] directories[d])
            &&& forall|d: int, k: int|
                0 <= d < n && 0 <= k < files.len() && holds_path(expanded, directories[d])
                    && same_path_text(
                    directory_of(#[trigger] files[k]),
                    #[trigger] directories[d],
                ) ==> shows_file(lines, files[k])
        }),
    decreases n,
{
    if n > 0 {
        lemma_tree_part(files, directories, n - 1, expanded, activity, now, cwd);
        let before = tree_part(files, directories, n - 1, expanded, activity, now, cwd);
        let lines = tree_part(files, directories, n, expanded, activity, now, cwd);
        let own = directories[n - 1];
        let group = group_nodes(files, own, expanded, activity, now, cwd);
        let nodes = file_nodes(files, files.len() as int, own, activity, now);
        lemma_file_nodes(files, files.len() as int, own, activity, now);
        assert(lines =~= before + group);
        assert(lines[before.len() as int] == directory_node(own, cwd));
        assert forall|i: int| 0 <= i < lines.len() implies line_is_recorded(
            #[trigger] lines[i],
            files,
            expanded,
        ) by {
            if i < before.len() {
                assert(lines[i] == before[i]);
            } else if i > before.len() {
                let line = nodes[i - before.len() - 1];
                assert(lines[i] == line);
                lemma_place_of_same(expanded, directory_of(line.path), own, 0);
            }
        }
        assert forall|d: int| 0 <= d < n implies shows_directory(lines, #[trigger] directories[d]) by {
            if d < n - 1 {
                assert(shows_directory(before, directories[d]));
                let i = choose|i: int|
                    0 <= i < before.len() && (#[trigger] before[i]).directory && same_path_text(
                        before[i].path,
                        directories[d],
                    );
                assert(lines[i] == before[i]);
            }
        }
        assert forall|d: int, k: int|
            0 <= d < n && 0 <= k < files.len() && holds_path(expanded, directories[d])
                && same_path_text(
                directory_of(#[trigger] files[k]),
                #[trigger] directories[d],
            ) implies shows_file(lines, files[k]) by {
            if d < n - 1 {
                assert(shows_file(before, files[k]));
                let i = choose|i: int|
                    0 <= i < before.len() && !(#[trigger] before[i]).directory && before[i].path
                        == files[k];
                assert(lines[i] == before[i]);
            } else {
                assert(shows_file(nodes, files[k]));
                let i = choose|i: int|
                    0 <= i < nodes.len() && !(#[trigger] nodes[i]).directory && nodes[i].path
                        == files[k];
                assert(lines[before.len() + 1 + i] == nodes[i]);
            }
        }
    }
}

proof fn lemma_place_found(list: Seq<Seq<char>>, path: Seq<char>, from: int)
    requires
        0 <= from,
        place_of_path(list, path, from) is Some,
    ensures
        names_path(list, path),
    decreases list.len() - from,
{
    if from < list.len() && !same_path_text(list[from], path) {
        lemma_place_found(list, path, from + 1);
    }
}

proof fn lemma_directories(files: Seq<Seq<char>>, n: int)
    requires
        0 <= n <= files.len(),
    ensures
        forall|d: int|
            0 <= d < directories_of(files, n).len() ==> is_directory_of_one(
                files,
                #[trigger] directories_of(files, n)[d],
            ),
        forall|k: int|
            0 <= k < n ==> names_path(directories_of(files, n), directory_of(#[trigger] files[k])),
    decreases n,
{
    if n > 0 {
        lemma_directories(files, n - 1);
        let before = directories_of(files, n - 1);
        let own = directory_of(files[n - 1]);
        let all = directories_of(files, n);
        if holds_path(before, own) {
            lemma_place_found(before, own, 0);
        } else {
            assert(all =~= before.push(own));
            assert(same_path_text(all[all.len() - 1], own));
        }
        assert forall|k: int| 0 <= k < n implies names_path(all, directory_of(#[trigger] files[k])) by {
            if k < n - 1 {
                let i = choose|i: int|
                    0 <= i < before.len() && same_path_text(
                        #[trigger] before[i],
                        directory_of(files[k]),
                    );
                assert(all[i] == before[i]);
            }
        }
    }
}

/// The tree shows the files of a repository and nothing else: each line is a file or the
/// directory of one, every directory with a file is shown, and every file whose directory is
/// expanded.
pub proof fn law_tree_shows_the_files(
    files: Seq<Seq<char>>,
    expanded: Seq<Seq<char>>,
    activity: Seq<RevisionView>,
    now: u64,
    cwd: Seq<char>,
)
    ensures
        ({
            let lines = tree_of(files, expanded, activity, now, cwd);
            &&& forall|i: int|
                0 <= i < lines.len() ==> line_is_recorded(#[trigger] lines[i], files, expanded)
            &&& forall|k: int|
                0 <= k < files.len() ==> shows_directory(lines, directory_of(#[trigger] files[k]))
            &&& forall|k: int|
                0 <= k < files.len() && holds_path(expanded, directory_of(#[trigger] files[k]))
                    ==> shows_file(lines, files[k])
        }),
{
    let directories = directories_of(files, files.len() as int);
    let keys = path_keys(directories);
    let ordered = sorted_by_key(directories, keys);
    lemma_directories(files, files.len() as int);
    law_sorting_keeps_items(directories, keys);
    assert forall|d: int| 0 <= d < ordered.len() implies is_directory_of_one(
        files,
        #[trigger] ordered[d],
    ) by {
        assert(ordered.contains(ordered[d]));
        assert(directories.contains(ordered[d]));
        let e = choose|e: int| 0 <= e < directories.len() && directories[e] == ordered[d];
        assert(directories[e] == ordered[d]);
    }
    lemma_tree_part(files, ordered, ordered.len() as int, expanded, activity, now, cwd);
    let lines = tree_of(files, expanded, activity, now, cwd);
    assert forall|k: int| 0 <= k < files.len() implies shows_directory(
        lines,
        directory_of(#[trigger] files[k]),
    ) && (holds_path(expanded, directory_of(files[k])) ==> shows_file(lines, files[k])) by {
        let own = directory_of(files[k]);
        assert(names_path(directories, own));
        let e = choose|e: int|
            0 <= e < directories.len() && same_path_text(#[trigger] directories[e], own);
        assert(directories.contains(directories[e]));
        assert(ordered.contains(directories[e]));
        let d = choose|d: int| 0 <= d < ordered.len() && ordered[d] == directories[e];
        assert(shows_directory(lines, ordered[d]));
        let i = choose|i: int|
            0 <= i < lines.len() && (#[trigger] lines[i]).directory && same_path_text(
                lines[i].path,
                ordered[d],
            );
        assert(same_path_text(lines[i].path, own));
        lemma_place_of_same(expanded, own, ordered[d], 0);
    }
}

fn label_directory(directory: &str, cwd: &str) -> (r: String)
    ensures
        r@ == directory_label(directory@, cwd@),
{
    let text: String = match strip_prefix(directory, cwd) {
        Some(t) => t,
        None => directory.to_owned(),
    };
    if chars_of(text.as_str()).len() == 0 {
        "./".to_owned()
    } else {
        let mut out: String = text;
        out.append("/");
        out
    }
}

fn label_file(path: &str, changes: usize) -> (r: String)
    ensures
        r@ == file_label(path@, changes as nat),
{
    let name: String = match file_name(path) {
        Some(n) => n,
        None => String::new(),
    };
    if changes == 0 {
        name
    } else {
        let mut out: String = name;
        out.append(" [");
        out.append(to_decimal(changes as u64).as_str());
        out.append(" today]");
        out
    }
}

fn list_directories(files: &Vec<String>) -> (r: Vec<String>)
    ensures
        views(r@) == directories_of(views(files@), files@.len() as int),
{
    let ghost all = views(files@);
    let mut out: Vec<String> = Vec::new();
    let mut n: usize = 0;
    assert(views(out@) =~= Seq::empty());
    while n < files.len()
        invariant
            n <= files.len(),
            all == views(files@),
            views(out@) == directories_of(all, n as int),
        decreases files.len() - n,
    {
        assert(all[n as int] == files@[n as int]@);
        let directory: String = parent_or_root(files[n].as_str());
        insert_path(&mut out, directory.as_str());
        n += 1;
    }
    out
}

fn push_file_nodes(
    out: &mut Vec<TreeNode>,
    files: &Vec<String>,
    directory: &str,
    activity: &Vec<Revision>,
    now: u64,
)
    ensures
        all_views(final(out)@) == all_views(old(out)@) + file_nodes(
            views(files@),
            files@.len() as int,
            directory@,
            all_views(activity@),
            now,
        ),
{
    let ghost all = views(files@);
    let ghost acts = all_views(activity@);
    let ghost start = all_views(out@);
    let mut n: usize = 0;
    assert(start + file_nodes(all, 0, directory@, acts, now) =~= start);
    while n < files.len()
        invariant
            n <= files.len(),
            all == views(files@),
            acts == all_views(activity@),
            all_views(out@) == start + file_nodes(all, n as int, directory@, acts, now),
        decreases files.len() - n,
    {
        assert(all[n as int] == files@[n as int]@);
        let own: String = parent_or_root(files[n].as_str());
        if same_path(own.as_str(), directory) {
            let changes: usize = count_changes(activity, files[n].as_str(), now / 86400);
            assert(acts.len() == activity@.len());
            let node: TreeNode = TreeNode {
                path: files[n].clone(),
                label: label_file(files[n].as_str(), changes),
                directory: false,
                depth: 1,
            };
            let ghost before = all_views(out@);
            out.push(node);
            assert(node@ == file_node(all[n as int], acts, now));
            assert(all_views(out@) =~= before.push(node@));
            assert(all_views(out@) =~= start + file_nodes(all, n + 1, directory@, acts, now));
        }
        n += 1;
    }
}

/// The tree of files.
pub fn make_tree(
    files: &Vec<String>,
    expanded: &Vec<String>,
    activity: &Vec<Revision>,
    now: u64,
    cwd: &str,
) -> (r: Vec<TreeNode>)
    ensures
        all_views(r@) == tree_of(
            views(files@),
            views(expanded@),
            all_views(activity@),
            now,
            cwd@,
        ),
{
    let ghost f = views(files@);
    let ghost e = views(expanded@);
    let ghost a = all_views(activity@);
    let directories: Vec<String> = sort_paths(&list_directories(files));
    let ghost d = views(directories@);
    assert(f.len() == files@.len());
    let mut out: Vec<TreeNode> = Vec::new();
    let mut n: usize = 0;
    assert(all_views(out@) =~= Seq::empty());
    while n < directories.len()
        invariant
            n <= directories.len(),
            f == views(files@),
            f.len() == files@.len(),
            e == views(expanded@),
            a == all_views(activity@),
            d == views(directories@),
            all_views(out@) == tree_part(f, d, n as int, e, a, now, cwd@),
        decreases directories.len() - n,
    {
        assert(d[n as int] == directories@[n as int]@);
        let directory: &str = directories[n].as_str();
        let ghost before = all_views(out@);
        let node: TreeNode = TreeNode {
            path: directory.to_owned(),
            label: label_directory(directory, cwd),
            directory: true,
            depth: 0,
        };
        let ghost first = node@;
        out.push(node);
        assert(all_views(out@) =~= before + seq![directory_node(directory@, cwd@)]);
        if find_path(expanded, directory).is_some() {
            push_file_nodes(&mut out, files, directory, activity, now);
        }
        assert(all_views(out@) =~= before + group_nodes(f, directory@, e, a, now, cwd@));
        n += 1;
    }
    assert(d.len() == directories@.len());
    out
}

pub proof fn lemma_with_path(list: Seq<Seq<char>>, path: Seq<char>)
    ensures
        holds_path(with_path(list, path), path),
{
    if !holds_path(list, path) {
        lemma_place_of_path(list.push(path), path, 0);
        assert(same_path_text(list.push(path)[list.len() as int], path));
    }
}

proof fn lemma_without_members(list: Seq<Seq<char>>, n: int, path: Seq<char>, other: Seq<char>)
    requires
        0 <= n <= list.len(),
    ensures
        forall|i: int|
            0 <= i < without_path(list, n, path).len() ==> !same_path_text(
                #[trigger] without_path(list, n, path)[i],
                path,
            ),
        !same_path_text(other, path) ==> ((exists|i: int|
            0 <= i < without_path(list, n, path).len() && same_path_text(
                #[trigger] without_path(list, n, path)[i],
                other,
            )) <==> (exists|i: int| 0 <= i < n && same_path_text(#[trigger] list[i], other))),
    decreases n,
{
    if n > 0 {
        lemma_without_members(list, n - 1, path, other);
        let before = without_path(list, n - 1, path);
        let now = without_path(list, n, path);
        if !same_path_text(list[n - 1], path) {
            assert(now == before.push(list[n - 1]));
            assert forall|i: int| 0 <= i < now.len() implies !same_path_text(#[trigger] now[i], path) by {
                if i < before.len() {
                    assert(now[i] == before[i]);
                }
            }
            if !same_path_text(other, path) {
                if exists|i: int| 0 <= i < n && same_path_text(#[trigger] list[i], other) {
                    let i = choose|i: int| 0 <= i < n && same_path_text(#[trigger] list[i], other);
                    if i < n - 1 {
                        let k = choose|k: int|
                            0 <= k < before.len() && same_path_text(#[trigger] before[k], other);
                        assert(now[k] == before[k]);
                    } else {
                        assert(now[before.len() as int] == list[n - 1]);
                    }
                }
                if exists|i: int| 0 <= i < now.len() && same_path_text(#[trigger] now[i], other) {
                    let i = choose|i: int| 0 <= i < now.len() && same_path_text(#[trigger] now[i], other);
                    if i < before.len() {
                        assert(same_path_text(before[i], other));
                    } else {
                        assert(same_path_text(list[n - 1], other));
                    }
                }
            }
        }
    }
}

pub proof fn lemma_without_path(list: Seq<Seq<char>>, n: int, path: Seq<char>, other: Seq<char>)
    requires
        n == list.len(),
    ensures
        !holds_path(without_path(list, n, path), path),
        !same_path_text(other, path) ==> holds_path(without_path(list, n, path), other)
            == holds_path(list, other),
{
    lemma_without_members(list, n, path, other);
    lemma_place_of_path(without_path(list, n, path), path, 0);
    lemma_place_of_path(without_path(list, n, path), other, 0);
    lemma_place_of_path(list, other, 0);
}

/// What an event is: an access where nothing was changed, the making of a file where there was
/// nothing before, and else an edit.
pub proof fn law_kinds_of_events(has_diff: bool, backup_is_empty: bool)
    ensures
        kind_of(has_diff, backup_is_empty) == EventKind::Access <==> !has_diff,
        kind_of(has_diff, backup_is_empty) == EventKind::Create <==> has_diff && backup_is_empty,
        kind_of(has_diff, backup_is_empty) == EventKind::Edit <==> has_diff && !backup_is_empty,
{
}

/// A text holds itself and every text that is empty.
pub proof fn law_texts_hold_themselves(value: Seq<char>)
    ensures
        holds_fold(value, Seq::empty()),
        holds_fold(value, value),
{
    let low = lower_case(value);
    assert(low.subrange(0, low.len() as int) =~= low);
    assert(occurs_at(low, low, 0));
}

/// The fields of a filter are told apart: what is put into a field is in it, and all others stay as
/// they were.
pub proof fn law_filter_fields_are_told_apart(
    f: FiltersView,
    field: FilterField,
    other: FilterField,
    text: Seq<char>,
)
    ensures
        field_text(with_field(f, field, text), field) == text,
        other != field ==> field_text(with_field(f, field, text), other) == field_text(f, other),
        field_behind(
            field_behind(field_behind(field_behind(field_behind(field)))),
        ) == field,
        field_behind(field) != field,
        field_behind(field_behind(field)) != field,
        field_text(no_filters(), field).len() == 0,
{
}

/// A revision passes the filters where it passes each: its path, tag, actor and editor hold what the
/// filter asks for, and its time does in one of the two ways it is shown. A field that is empty asks
/// for nothing, and filling a field only adds what it asks for.
pub proof fn law_filters_ask_for_all_their_fields(
    f: FiltersView,
    r: RevisionView,
    now: u64,
    field: FilterField,
    text: Seq<char>,
)
    ensures
        lets_through(no_filters(), r, now),
        lets_through(with_field(f, field, text), r, now) <==> lets_through(
            with_field(f, field, Seq::empty()),
            r,
            now,
        ) && (text.len() == 0 || match field {
            FilterField::Path => occurs(lower_case(r.access.path), lower_case(text)),
            FilterField::Tag => occurs(
                lower_case(
                    match r.tag {
                        Some(t) => t,
                        None => Seq::empty(),
                    },
                ),
                lower_case(text),
            ),
            FilterField::Actor => occurs(lower_case(r.actor), lower_case(text)),
            FilterField::Editor => occurs(lower_case(r.access.editor), lower_case(text)),
            FilterField::Date => occurs(lower_case(r.access.stamp), lower_case(text)) || occurs(
                lower_case(shown_time(r.access.epoch, now)),
                lower_case(text),
            ),
        }),
{
}

/// The place of a path in a list is the first where it stands, and there is none exactly where it
/// does not stand in it.
pub proof fn law_place_of_a_path(list: Seq<Seq<char>>, path: Seq<char>, from: int)
    requires
        0 <= from,
    ensures
        match place_of_path(list, path, from) {
            Some(i) => from <= i < list.len() && same_path_text(list[i], path) && forall|j: int|
                from <= j < i ==> !same_path_text(#[trigger] list[j], path),
            None => forall|j: int|
                from <= j < list.len() ==> !same_path_text(#[trigger] list[j], path),
        },
    decreases list.len() - from,
{
    if from < list.len() && !same_path_text(list[from], path) {
        law_place_of_a_path(list, path, from + 1);
    }
}

/// The place of a number among revisions is the first where it stands, and there is none exactly
/// where none has it.
pub proof fn law_place_of_a_number(rs: Seq<RevisionView>, number: u64, from: int)
    requires
        0 <= from,
    ensures
        match place_of_number(rs, number, from) {
            Some(i) => from <= i < rs.len() && rs[i].number == number && forall|j: int|
                from <= j < i ==> (#[trigger] rs[j]).number != number,
            None => forall|j: int| from <= j < rs.len() ==> (#[trigger] rs[j]).number != number,
        },
    decreases rs.len() - from,
{
    if from < rs.len() && rs[from].number != number {
        law_place_of_a_number(rs, number, from + 1);
    }
}

/// Opening a directory puts its path into the list, behind the others, unless it is in it; closing
/// it takes it out and leaves the others in their order.
pub proof fn law_paths_are_put_in_and_taken_out(list: Seq<Seq<char>>, path: Seq<char>)
    ensures
        names_path(with_path(list, path), path),
        forall|i: int| 0 <= i < list.len() ==> #[trigger] with_path(list, path)[i] == list[i],
        with_path(list, path).len() <= list.len() + 1,
        names_path(list, path) ==> with_path(list, path) == list,
        without_path(list, list.len() as int, path) == list.filter(
            |p: Seq<char>| components(p) != components(path),
        ),
        !names_path(without_path(list, list.len() as int, path), path),
{
    law_place_of_a_path(list, path, 0);
    let n = list.len() as int;
    match place_of_path(list, path, 0) {
        Some(i) => {
            assert(same_path_text(with_path(list, path)[i], path));
        },
        None => {
            assert(same_path_text(with_path(list, path)[n], path));
        },
    }
    lemma_others_stay(list, n, path);
    assert(list.take(n) =~= list);
    let rest = without_path(list, n, path);
    let others = |p: Seq<char>| components(p) != components(path);
    assert forall|i: int| 0 <= i < rest.len() implies !same_path_text(#[trigger] rest[i], path) by {
        list.lemma_filter_pred(others, i);
        assert(others(rest[i]));
    }
}

proof fn lemma_others_stay(list: Seq<Seq<char>>, n: int, path: Seq<char>)
    requires
        0 <= n <= list.len(),
    ensures
        without_path(list, n, path) == list.take(n).filter(
            |p: Seq<char>| components(p) != components(path),
        ),
    decreases n,
{
    reveal(Seq::filter);
    if n > 0 {
        lemma_others_stay(list, n - 1, path);
        assert(list.take(n).drop_last() =~= list.take(n - 1));
        assert(list.take(n).last() == list[n - 1]);
    }
}

/// The changes of a file on a day are counted: each revision of the file whose time is on the day
/// counts once, and no other does.
pub proof fn law_changes_of_a_day_are_counted(
    activity: Seq<RevisionView>,
    n: int,
    path: Seq<char>,
    day: u64,
)
    requires
        0 <= n <= activity.len(),
    ensures
        changes_on_day(activity, n, path, day) == activity.take(n).filter(
            |r: RevisionView|
                components(r.access.path) == components(path) && day * 86400 <= r.access.epoch < (day
                    + 1) * 86400,
        ).len(),
    decreases n,
{
    reveal(Seq::filter);
    if n > 0 {
        law_changes_of_a_day_are_counted(activity, n - 1, path, day);
        assert(activity.take(n).drop_last() =~= activity.take(n - 1));
        assert(activity.take(n).last() == activity[n - 1]);
        let epoch = activity[n - 1].access.epoch as int;
        assert(epoch / 86400 == day <==> day * 86400 <= epoch < (day + 1) * 86400);
    }
}

/// A directory is shown by its path from here, with a slash behind it, and this directory by a dot;
/// a file is shown by its name, and with how often it changed today where it did.
pub proof fn law_labels_of_the_tree(
    path: Seq<char>,
    cwd: Seq<char>,
    activity: Seq<RevisionView>,
    now: u64,
)
    ensures
        ({
            let node = directory_node(path, cwd);
            &&& node.directory && node.depth == 0 && node.path == path && node.label.last() == '/'
            &&& same_path_text(path, cwd) ==> node.label == "./"@
            &&& !is_within(path, cwd) && path.len() > 0 ==> node.label == path + "/"@
        }),
        ({
            let node = file_node(path, activity, now);
            let changes = changes_on_day(activity, activity.len() as int, path, now / 86400);
            &&& !node.directory && node.depth == 1 && node.path == path
            &&& file_name_of(path) matches Some(name) ==> begins_with(node.label, name) && (changes
                == 0 ==> node.label == name) && (changes > 0 ==> node.label == name + " ["@ + decimal(
                changes,
            ) + " today]"@)
        }),
{
    reveal_strlit("./");
    reveal_strlit("/");
    if same_path_text(path, cwd) {
        let b = components(cwd);
        assert(b.subrange(0, b.len() as int) =~= b);
    }
    match file_name_of(path) {
        Some(name) => {
            let label = file_node(path, activity, now).label;
            assert(label.subrange(0, name.len() as int) =~= name);
        },
        None => {},
    }
}

/// The directories of the tree are those of the files, each once.
pub proof fn law_directories_are_listed_once(files: Seq<Seq<char>>, n: int)
    requires
        0 <= n <= files.len(),
    ensures
        forall|i: int, j: int|
            0 <= i < j < directories_of(files, n).len() ==> !same_path_text(
                #[trigger] directories_of(files, n)[i],
                #[trigger] directories_of(files, n)[j],
            ),
        forall|k: int|
            0 <= k < n ==> names_path(directories_of(files, n), directory_of(#[trigger] files[k])),
        forall|i: int|
            0 <= i < directories_of(files, n).len() ==> is_directory_of_one(
                files,
                #[trigger] directories_of(files, n)[i],
            ),
    decreases n,
{
    if n > 0 {
        law_directories_are_listed_once(files, n - 1);
        let before = directories_of(files, n - 1);
        let now = directories_of(files, n);
        let own = directory_of(files[n - 1]);
        law_place_of_a_path(before, own, 0);
        law_paths_are_put_in_and_taken_out(before, own);
        assert(now == with_path(before, own));
        assert forall|k: int| 0 <= k < n implies names_path(now, directory_of(#[trigger] files[k])) by {
            if k < n - 1 {
                let i = choose|i: int|
                    0 <= i < before.len() && same_path_text(
                        #[trigger] before[i],
                        directory_of(files[k]),
                    );
                assert(now[i] == before[i]);
            }
        }
        assert forall|i: int| 0 <= i < now.len() implies is_directory_of_one(
            files,
            #[trigger] now[i],
        ) by {
            if i < before.len() {
                assert(now[i] == before[i]);
            } else {
                assert(now[i] == directory_of(files[n - 1]));
            }
        }
        assert forall|i: int, j: int| 0 <= i < j < now.len() implies !same_path_text(
            #[trigger] now[i],
            #[trigger] now[j],
        ) by {
            assert(now[i] == before[i]);
            if j < before.len() {
                assert(now[j] == before[j]);
            }
        }
    }
}

/// The files below a directory of the tree are exactly those of the list whose directory it is, in
/// their order; they stand right behind it where it is open, and are not shown where it is closed.
pub proof fn law_open_directory_shows_its_files(
    files: Seq<Seq<char>>,
    n: int,
    directory: Seq<char>,
    expanded: Seq<Seq<char>>,
    activity: Seq<RevisionView>,
    now: u64,
    cwd: Seq<char>,
)
    requires
        0 <= n <= files.len(),
    ensures
        file_nodes(files, n, directory, activity, now) == files.take(n).filter(
            |p: Seq<char>| components(directory_of(p)) == components(directory),
        ).map(|i: int, p: Seq<char>| file_node(p, activity, now)),
        ({
            let group = group_nodes(files, directory, expanded, activity, now, cwd);
            &&& group[0] == directory_node(directory, cwd)
            &&& group.skip(1) == if names_path(expanded, directory) {
                file_nodes(files, files.len() as int, directory, activity, now)
            } else {
                Seq::<NodeView>::empty()
            }
        }),
    decreases n,
{
    law_place_of_a_path(expanded, directory, 0);
    let group = group_nodes(files, directory, expanded, activity, now, cwd);
    assert(group.skip(1) =~= if names_path(expanded, directory) {
        file_nodes(files, files.len() as int, directory, activity, now)
    } else {
        Seq::<NodeView>::empty()
    });
    reveal(Seq::filter);
    let own = |p: Seq<char>| components(directory_of(p)) == components(directory);
    let node = |i: int, p: Seq<char>| file_node(p, activity, now);
    let kept = files.take(n).filter(own);
    if n > 0 {
        law_open_directory_shows_its_files(
            files,
            n - 1,
            directory,
            expanded,
            activity,
            now,
            cwd,
        );
        assert(files.take(n).drop_last() =~= files.take(n - 1));
        assert(files.take(n).last() == files[n - 1]);
        let before = files.take(n - 1).filter(own);
        if own(files[n - 1]) {
            assert(kept == before.push(files[n - 1]));
            assert(kept.map(node) =~= before.map(node).push(file_node(files[n - 1], activity, now)));
        }
    } else {
        assert(kept.len() == 0);
        assert(kept.map(node) =~= Seq::<NodeView>::empty());
    }
}

/// The history of a file holds each of its revisions as often as it is recorded.
pub proof fn law_history_holds_each_revision(rs: Seq<RevisionView>, path: Seq<char>)
    ensures
        history_of(rs, path).to_multiset() == rs.filter(
            |r: RevisionView| components(r.access.path) == components(path),
        ).to_multiset(),
{
    let n = rs.len() as int;
    lemma_history_filtered(rs, n, path);
    assert(rs.take(n) =~= rs);
    let part = history_part(rs, n, path);
    law_sorting_keeps_items(part, history_keys(part));
}

proof fn lemma_history_filtered(rs: Seq<RevisionView>, n: int, path: Seq<char>)
    requires
        0 <= n <= rs.len(),
    ensures
        history_part(rs, n, path) == rs.take(n).filter(
            |r: RevisionView| components(r.access.path) == components(path),
        ),
    decreases n,
{
    reveal(Seq::filter);
    if n > 0 {
        lemma_history_filtered(rs, n - 1, path);
        assert(rs.take(n).drop_last() =~= rs.take(n - 1));
        assert(rs.take(n).last() == rs[n - 1]);
    }
}

/// The tree is made of its directories one after another, each with what is shown of it; the
/// directories stand in the order of their paths, each once.
pub proof fn law_tree_stands_in_order(
    files: Seq<Seq<char>>,
    directories: Seq<Seq<char>>,
    n: int,
    expanded: Seq<Seq<char>>,
    activity: Seq<RevisionView>,
    now: u64,
    cwd: Seq<char>,
)
    requires
        0 <= n < directories.len(),
    ensures
        tree_part(files, directories, n + 1, expanded, activity, now, cwd) == tree_part(
            files,
            directories,
            n,
            expanded,
            activity,
            now,
            cwd,
        ) + group_nodes(files, directories[n], expanded, activity, now, cwd),
        tree_part(files, directories, 0, expanded, activity, now, cwd).len() == 0,
        ({
            let found = directories_of(files, files.len() as int);
            let ordered = sorted_by_key(found, path_keys(found));
            &&& ordered.to_multiset() == found.to_multiset()
            &&& paths_ascend(ordered)
            &&& tree_of(files, expanded, activity, now, cwd) == tree_part(
                files,
                ordered,
                ordered.len() as int,
                expanded,
                activity,
                now,
                cwd,
            )
        }),
{
    let found = directories_of(files, files.len() as int);
    let keys = path_keys(found);
    law_directories_are_listed_once(files, files.len() as int);
    law_sorting_keeps_items(found, keys);
    law_stable_order(keys);
    let places = stable_order(keys);
    let ordered = sorted_by_key(found, keys);
    assert forall|i: int, j: int| 0 <= i < j < ordered.len() implies path_less(
        #[trigger] ordered[i],
        #[trigger] ordered[j],
    ) by {
        assert(comes_before(keys, places[i], places[j]));
        let (a, b) = (found[places[i]], found[places[j]]);
        law_path_keys_order_paths(a, b);
        law_path_keys_are_faithful(a, b);
        assert(places[i] != places[j]);
        if places[i] < places[j] {
            assert(!same_path_text(found[places[i]], found[places[j]]));
        } else {
            assert(!same_path_text(found[places[j]], found[places[i]]));
        }
    }
}

/// The model of a result of a search has all that is known of it.
pub proof fn law_model_of_a_result_of_a_search(x: SearchResult)
    ensures
        x@.path == x.path@,
        x@.revision == x.revision,
        x@.matches == x.matches,
        x@.epoch == x.epoch,
        x@.editor == x.editor@,
        x@.actor == x.actor@,
        x@.tag == opt_view(x.tag),
        x@.preview == x.preview@,
        x@.kind == x.kind,
{
}

/// The model of a line of the tree has all that is known of it.
pub proof fn law_model_of_a_line_of_the_tree(x: TreeNode)
    ensures
        x@.path == x.path@,
        x@.label == x.label@,
        x@.directory == x.directory,
        x@.depth == x.depth,
{
}

/// The model of the filters has all that is known of it.
pub proof fn law_model_of_the_filters(x: SearchFilters)
    ensures
        x@.path == x.path@,
        x@.tag == x.tag@,
        x@.actor == x.actor@,
        x@.editor == x.editor@,
        x@.date == x.date@,
{
}

} // verus!
