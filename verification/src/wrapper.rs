//! An editing session: which files it tracks, when it publishes, and what it reports.

use crate::config::Config;
use crate::editor::{alias, EditorAlias, EditorFamily};
use crate::encoding::{copy_bytes, decode, lossy, raw, same_bytes};
use crate::failure::{Failure, FailureKind};
use crate::order::{arrange, sort_order, Replicate};
use crate::path::{
    file_name, is_absolute, join as join_path, parent, push_path_key, same_path, starts_with_path,
};
use crate::text::{
    chars_of, contains, ends_with, join, lines, parse_bounded, same, split, split_once, starts_with,
    to_ascii_lowercase, to_decimal, trim,
};
#[allow(unused_imports)]
use crate::{
    config::ConfigView,
    editor::alias_of,
    encoding::{lossy_text, raw_text},
    failure::fails,
    mutation::opt_bytes,
    order::{
        ascends, comes_before, key_less, key_views, law_sorting_keeps_items, law_stable_order,
        lemma_same_ascending, sorted_by_key, stable_order,
    },
    path::{
        components, file_name_of, is_rooted, is_within, joined_path, law_path_keys_are_faithful,
        law_path_keys_order_paths, parent_of, path_key, path_less, same_path_text,
    },
    text::{
        all_views, begins_with, cut_at, decimal, ends_cleanly, finishes_with, joined,
        law_lines_end_at_line_feeds, law_lowering_changes_great_letters,
        law_occurrence_splits_a_text, lemma_ends_cleanly, lemma_pieces_last, lemma_pieces_step,
        line_seq, lowered, occurs, occurs_at, one_line, opt_str, opt_view, parsed, pieces, trimmed,
        views,
    },
};
use vstd::prelude::*;
#[allow(unused_imports)]
use vstd::utf8::{decode_utf8, valid_utf8};

verus! {

/// A command that wraps an editor.
pub struct WrapperSpec {
    pub wrapper: &'static str,
    pub editor: &'static str,
}

/// The editor that a wrapper runs, if nothing else is chosen.
pub open spec fn wrapped_editor(wrapper: Seq<char>) -> Option<Seq<char>> {
    if wrapper == "bed"@ {
        Some("ed"@)
    } else if wrapper == "bvi"@ {
        Some("vi"@)
    } else if wrapper == "bnvim"@ {
        Some("nvim"@)
    } else if wrapper == "bemacs"@ {
        Some("emacs"@)
    } else {
        None
    }
}

/// Whether a program name is that of a wrapper, or of the payload behind it.
pub open spec fn runs_as(program: Seq<char>, wrapper: Seq<char>) -> bool {
    program == wrapper || program == wrapper + "-rust"@
}

fn is_run_as(program: &str, wrapper: &str) -> (r: bool)
    ensures
        r == runs_as(program@, wrapper@),
{
    let mut payload: String = wrapper.to_owned();
    payload.append("-rust");
    same(program, wrapper) || same(program, payload.as_str())
}

/// The wrapper that a program is by its name; none for another program.
pub fn wrapper_of_program(program: &str) -> (r: Option<WrapperSpec>)
    ensures
        match r {
            Some(spec) => runs_as(program@, spec.wrapper@) && wrapped_editor(spec.wrapper@) == Some(
                spec.editor@,
            ),
            None => forall|w: Seq<char>| #[trigger]
                wrapped_editor(w) is Some ==> !runs_as(program@, w),
        },
{
    if is_run_as(program, "bed") {
        Some(WrapperSpec { wrapper: "bed", editor: "ed" })
    } else if is_run_as(program, "bvi") {
        proof {
            reveal_strlit("bed");
            reveal_strlit("bvi");
            assert("bed"@[1] != "bvi"@[1]);
        }
        Some(WrapperSpec { wrapper: "bvi", editor: "vi" })
    } else if is_run_as(program, "bnvim") {
        proof {
            reveal_strlit("bed");
            reveal_strlit("bvi");
            reveal_strlit("bnvim");
        }
        Some(WrapperSpec { wrapper: "bnvim", editor: "nvim" })
    } else if is_run_as(program, "bemacs") {
        proof {
            reveal_strlit("bed");
            reveal_strlit("bvi");
            reveal_strlit("bnvim");
            reveal_strlit("bemacs");
        }
        Some(WrapperSpec { wrapper: "bemacs", editor: "emacs" })
    } else {
        None
    }
}

/// A file that a session watches.
#[derive(Debug, PartialEq, Eq)]
pub struct Track {
    pub path: String,
    pub leaf: String,
    pub baseline: Vec<u8>,
    pub observed: Option<Vec<u8>>,
    pub published: bool,
}

/// The model of a track.
pub struct TrackView {
    pub path: Seq<char>,
    pub leaf: Seq<char>,
    pub baseline: Seq<u8>,
    pub observed: Option<Seq<u8>>,
    pub published: bool,
}

impl View for Track {
    type V = TrackView;

    open spec fn view(&self) -> TrackView {
        TrackView {
            path: self.path@,
            leaf: self.leaf@,
            baseline: self.baseline@,
            observed: opt_bytes(self.observed),
            published: self.published,
        }
    }
}

/// What a look at a track asks for.
#[derive(Debug, PartialEq, Eq)]
pub enum PollAction {
    /// Nothing.
    Nothing,
    /// Another read, to see that the content has settled; this was the first.
    ReadAgain(Vec<u8>),
    /// The publication of this content.
    Publish(Vec<u8>),
}

/// The model of what a look asks for.
pub enum PollView {
    Nothing,
    ReadAgain(Seq<u8>),
    Publish(Seq<u8>),
}

impl View for PollAction {
    type V = PollView;

    open spec fn view(&self) -> PollView {
        match self {
            PollAction::Nothing => PollView::Nothing,
            PollAction::ReadAgain(b) => PollView::ReadAgain(b@),
            PollAction::Publish(b) => PollView::Publish(b@),
        }
    }
}

/// What settled content asks for.
pub open spec fn settled(track: TrackView, current: Seq<u8>) -> (TrackView, PollView) {
    if current != track.baseline {
        (track, PollView::Publish(current))
    } else {
        (TrackView { observed: Some(current), ..track }, PollView::Nothing)
    }
}

/// What the first read of a file asks for: nothing where the file cannot be read, or was seen like
/// this before and the session goes on.
pub open spec fn polled(track: TrackView, final_flush: bool, first: Option<Seq<u8>>) -> (
    TrackView,
    PollView,
) {
    match first {
        None => (track, PollView::Nothing),
        Some(first) => if final_flush {
            settled(track, first)
        } else if track.observed == Some(first) {
            (track, PollView::Nothing)
        } else {
            (track, PollView::ReadAgain(first))
        },
    }
}

/// What the second read asks for: nothing where it differs from the first.
pub open spec fn polled_again(track: TrackView, first: Seq<u8>, second: Option<Seq<u8>>) -> (
    TrackView,
    PollView,
) {
    match second {
        Some(second) if second == first => settled(track, second),
        _ => (track, PollView::Nothing),
    }
}

/// A track whose content was published.
pub open spec fn after_publication(track: TrackView, current: Seq<u8>) -> TrackView {
    TrackView { baseline: current, observed: Some(current), published: true, ..track }
}

/// A track of a file whose content counts from a baseline.
pub open spec fn new_track_view(path: Seq<char>, leaf: Seq<char>, baseline: Seq<u8>) -> TrackView {
    TrackView { path, leaf, baseline, observed: Some(baseline), published: false }
}

/// A track after a report that its file was created: what was there counts as new, unless
/// something was published already.
pub open spec fn promoted(track: TrackView, created: bool) -> TrackView {
    if created && !track.published {
        TrackView { baseline: Seq::empty(), observed: None, ..track }
    } else {
        track
    }
}

impl Track {
    /// A track of a file whose content counts from a baseline.
    pub fn new(path: &str, leaf: &str, baseline: Vec<u8>) -> (r: Self)
        ensures
            r@ == new_track_view(path@, leaf@, baseline@),
    {
        Track {
            path: path.to_owned(),
            leaf: leaf.to_owned(),
            observed: Some(copy_bytes(&baseline)),
            baseline,
            published: false,
        }
    }

    fn settle(&mut self, current: Vec<u8>) -> (r: PollAction)
        ensures
            (final(self)@, r@) == settled(old(self)@, current@),
    {
        if same_bytes(&current, &self.baseline) {
            self.observed = Some(current);
            PollAction::Nothing
        } else {
            PollAction::Publish(current)
        }
    }

    /// Takes in the first read of the file.
    pub fn poll_track(&mut self, final_flush: bool, first: Option<Vec<u8>>) -> (r: PollAction)
        ensures
            (final(self)@, r@) == polled(old(self)@, final_flush, opt_bytes(first)),
    {
        match first {
            None => PollAction::Nothing,
            Some(first) => {
                if final_flush {
                    return self.settle(first);
                }
                let seen: bool = match &self.observed {
                    Some(o) => same_bytes(o, &first),
                    None => false,
                };
                if seen {
                    PollAction::Nothing
                } else {
                    PollAction::ReadAgain(first)
                }
            },
        }
    }

    /// Takes in the second read of the file.
    pub fn poll_again(&mut self, first: &Vec<u8>, second: Option<Vec<u8>>) -> (r: PollAction)
        ensures
            (final(self)@, r@) == polled_again(old(self)@, first@, opt_bytes(second)),
    {
        match second {
            None => PollAction::Nothing,
            Some(second) => if same_bytes(&second, first) {
                self.settle(second)
            } else {
                PollAction::Nothing
            },
        }
    }

    /// Takes in that content was published.
    pub fn mark_published(&mut self, current: Vec<u8>)
        ensures
            final(self)@ == after_publication(old(self)@, current@),
    {
        self.observed = Some(copy_bytes(&current));
        self.baseline = current;
        self.published = true;
    }

    /// Takes in a report that the file was opened or created.
    pub fn promote(&mut self, created: bool)
        ensures
            final(self)@ == promoted(old(self)@, created),
    {
        if created && !self.published {
            self.baseline = Vec::new();
            self.observed = None;
            assert(self.baseline@ =~= Seq::empty());
        }
    }
}

/// What was published is not published again: a look at the same content, at any time and also
/// when the session ends, asks for nothing and changes nothing.
pub proof fn law_published_content_stays_quiet(track: TrackView, current: Seq<u8>, final_flush: bool)
    ensures
        polled(after_publication(track, current), final_flush, Some(current)) == (
            after_publication(track, current),
            PollView::Nothing,
        ),
{
}

/// Asking for a publication consumes nothing: as long as it does not succeed the track stays as it
/// was, and the same content asks for it again.
pub proof fn law_unpublished_content_is_not_lost(track: TrackView, current: Seq<u8>)
    requires
        current != track.baseline,
    ensures
        polled(track, true, Some(current)) == (track, PollView::Publish(current)),
        polled_again(track, current, Some(current)) == (track, PollView::Publish(current)),
{
}

/// Content that has not settled is neither published nor remembered.
pub proof fn law_unstable_content_is_deferred(track: TrackView, first: Seq<u8>, second: Seq<u8>)
    requires
        first != second,
        track.observed != Some(first),
    ensures
        polled(track, false, Some(first)) == (track, PollView::ReadAgain(first)),
        polled_again(track, first, Some(second)) == (track, PollView::Nothing),
{
}

/// A late report that a file was created lets its first save be published: unless the file is
/// empty, the next look asks for it.
pub proof fn law_late_creation_keeps_first_save(track: TrackView, current: Seq<u8>)
    requires
        !track.published,
        current.len() > 0,
    ensures
        polled(promoted(track, true), true, Some(current)) == (
            promoted(track, true),
            PollView::Publish(current),
        ),
        polled(promoted(track, true), false, Some(current)).1 == PollView::ReadAgain(current),
{
}

/// What a session did to one file.
pub struct FileSessionResult {
    pub path: String,
    pub leaf: String,
    pub revisions: Vec<u64>,
    pub last_diff: String,
    pub fallback_revisions: Vec<u64>,
}

/// The model of what a session did to one file.
pub struct FileResultView {
    pub path: Seq<char>,
    pub leaf: Seq<char>,
    pub revisions: Seq<u64>,
    pub last_diff: Seq<char>,
    pub fallback_revisions: Seq<u64>,
}

impl View for FileSessionResult {
    type V = FileResultView;

    open spec fn view(&self) -> FileResultView {
        FileResultView {
            path: self.path@,
            leaf: self.leaf@,
            revisions: self.revisions@,
            last_diff: self.last_diff@,
            fallback_revisions: self.fallback_revisions@,
        }
    }
}

fn copy_numbers(v: &Vec<u64>) -> (r: Vec<u64>)
    ensures
        r@ == v@,
{
    let r: Vec<u64> = v.clone();
    assert(r@ =~= v@);
    r
}

impl Replicate for FileSessionResult {
    fn replicate(&self) -> (r: Self) {
        FileSessionResult {
            path: self.path.clone(),
            leaf: self.leaf.clone(),
            revisions: copy_numbers(&self.revisions),
            last_diff: self.last_diff.clone(),
            fallback_revisions: copy_numbers(&self.fallback_revisions),
        }
    }
}

/// What a session did: one entry for each file, and the warnings of the mirror.
pub struct SessionResults {
    pub files: Vec<FileSessionResult>,
    pub mirror_warnings: Vec<String>,
}

/// The model of what a session did.
pub struct ResultsView {
    pub files: Seq<FileResultView>,
    pub mirror_warnings: Seq<Seq<char>>,
}

impl View for SessionResults {
    type V = ResultsView;

    open spec fn view(&self) -> ResultsView {
        ResultsView {
            files: all_views(self.files@),
            mirror_warnings: views(self.mirror_warnings@),
        }
    }
}

/// The place of a file among results, from `from` on.
pub open spec fn place_of_file(files: Seq<FileResultView>, path: Seq<char>, from: int) -> Option<int>
    decreases files.len() - from,
{
    if from < 0 || from >= files.len() {
        None
    } else if same_path_text(files[from].path, path) {
        Some(from)
    } else {
        place_of_file(files, path, from + 1)
    }
}

/// What a session did to a file, with one more revision.
pub open spec fn with_revision(
    result: FileResultView,
    revision: u64,
    diff: Seq<char>,
    fallback: bool,
) -> FileResultView {
    FileResultView {
        revisions: result.revisions.push(revision),
        last_diff: diff,
        fallback_revisions: if fallback {
            result.fallback_revisions.push(revision)
        } else {
            result.fallback_revisions
        },
        ..result
    }
}

/// What a session did to a file that it had not captured.
pub open spec fn no_revision(track: TrackView) -> FileResultView {
    FileResultView {
        path: track.path,
        leaf: track.leaf,
        revisions: Seq::empty(),
        last_diff: Seq::empty(),
        fallback_revisions: Seq::empty(),
    }
}

/// What a session did, with one more revision of a tracked file.
pub open spec fn captured_view(
    results: ResultsView,
    track: TrackView,
    revision: u64,
    diff: Seq<char>,
    fallback: bool,
    warning: Option<Seq<char>>,
) -> ResultsView {
    ResultsView {
        files: match place_of_file(results.files, track.path, 0) {
            Some(i) => results.files.update(
                i,
                with_revision(results.files[i], revision, diff, fallback),
            ),
            None => results.files.push(
                with_revision(no_revision(track), revision, diff, fallback),
            ),
        },
        mirror_warnings: match warning {
            Some(w) => results.mirror_warnings.push(track.leaf + ": "@ + w),
            None => results.mirror_warnings,
        },
    }
}

/// Text for one of the two output streams.
#[derive(Debug, PartialEq, Eq)]
pub struct Report {
    pub is_error: bool,
    pub text: String,
}

/// The model of a report.
#[verifier::ext_equal]
pub struct ReportView {
    pub is_error: bool,
    pub text: Seq<char>,
}

impl View for Report {
    type V = ReportView;

    open spec fn view(&self) -> ReportView {
        ReportView { is_error: self.is_error, text: self.text@ }
    }
}

/// The ending of a plural.
pub open spec fn plural(n: nat) -> Seq<char> {
    if n == 1 {
        Seq::empty()
    } else {
        "s"@
    }
}

/// The decimal digits of each number.
pub open spec fn decimals(n: Seq<u64>) -> Seq<Seq<char>> {
    Seq::new(n.len(), |i: int| decimal(n[i] as nat))
}

/// What is said of one file at the end of a session.
pub open spec fn file_report(f: FileResultView) -> Seq<ReportView> {
    let first = ReportView {
        is_error: false,
        text: f.leaf + ": "@ + decimal(f.revisions.len()) + " revision"@ + plural(f.revisions.len())
            + " captured\n"@,
    };
    let fallbacks = if f.fallback_revisions.len() > 0 {
        seq![
            ReportView {
                is_error: true,
                text: "bedit: warning: diff failed for "@ + f.leaf
                    + "; preserved backup-only revision"@ + plural(f.fallback_revisions.len())
                    + " "@ + joined(decimals(f.fallback_revisions), ", "@) + "\n"@,
            },
        ]
    } else {
        Seq::empty()
    };
    let diff = if f.last_diff.len() > 0 {
        seq![
            ReportView {
                is_error: false,
                text: "\n"@ + f.last_diff + (if f.last_diff.last() == '\n' {
                    Seq::empty()
                } else {
                    "\n"@
                }),
            },
        ]
    } else {
        Seq::empty()
    };
    seq![first] + fallbacks + diff
}

/// What is said of the first `n` files.
pub open spec fn file_reports(files: Seq<FileResultView>, n: int) -> Seq<ReportView>
    decreases n,
{
    if n <= 0 {
        Seq::empty()
    } else {
        file_reports(files, n - 1) + file_report(files[n - 1])
    }
}

/// What is said of warnings.
pub open spec fn warning_reports(warnings: Seq<Seq<char>>) -> Seq<ReportView> {
    Seq::new(
        warnings.len(),
        |i: int|
            ReportView { is_error: true, text: "bedit: warning: "@ + warnings[i] + "\n"@ },
    )
}

/// The keys by which the results of a session are ordered.
pub open spec fn result_keys(files: Seq<FileResultView>) -> Seq<Seq<u64>> {
    Seq::new(files.len(), |i: int| path_key(files[i].path))
}

/// What is said at the end of a session: the files in the order of their paths, then the warnings.
pub open spec fn session_report(results: ResultsView) -> Seq<ReportView> {
    let files = sorted_by_key(results.files, result_keys(results.files));
    file_reports(files, files.len() as int) + warning_reports(results.mirror_warnings)
}

fn push_plural(text: &mut String, n: usize)
    ensures
        final(text)@ == old(text)@ + plural(n as nat),
{
    if n != 1 {
        text.append("s");
    } else {
        assert(text@ =~= old(text)@ + Seq::empty());
    }
}

fn number_list(numbers: &Vec<u64>) -> (r: String)
    ensures
        r@ == joined(decimals(numbers@), ", "@),
{
    let mut out: Vec<String> = Vec::new();
    let mut i: usize = 0;
    while i < numbers.len()
        invariant
            i <= numbers.len(),
            out@.len() == i,
            forall|j: int| 0 <= j < i ==> (#[trigger] out@[j])@ == decimal(numbers@[j] as nat),
        decreases numbers.len() - i,
    {
        out.push(to_decimal(numbers[i]));
        i += 1;
    }
    assert(views(out@) =~= decimals(numbers@));
    join(&out, ", ")
}

fn report_file(f: &FileSessionResult) -> (r: Vec<Report>)
    ensures
        all_views(r@) == file_report(f@),
{
    let mut out: Vec<Report> = Vec::new();
    let mut text: String = f.leaf.clone();
    text.append(": ");
    text.append(to_decimal(f.revisions.len() as u64).as_str());
    text.append(" revision");
    push_plural(&mut text, f.revisions.len());
    text.append(" captured\n");
    out.push(Report { is_error: false, text });
    if f.fallback_revisions.len() > 0 {
        let mut text: String = "bedit: warning: diff failed for ".to_owned();
        text.append(f.leaf.as_str());
        text.append("; preserved backup-only revision");
        push_plural(&mut text, f.fallback_revisions.len());
        text.append(" ");
        text.append(number_list(&f.fallback_revisions).as_str());
        text.append("\n");
        out.push(Report { is_error: true, text });
    }
    let diff: Vec<char> = chars_of(f.last_diff.as_str());
    if diff.len() > 0 {
        let mut text: String = "\n".to_owned();
        text.append(f.last_diff.as_str());
        if diff[diff.len() - 1] != '\n' {
            text.append("\n");
        } else {
            assert(text@ =~= text@ + Seq::empty());
        }
        out.push(Report { is_error: false, text });
    }
    assert(all_views(out@) =~= file_report(f@));
    out
}

impl SessionResults {
    /// A session that did nothing yet.
    pub fn new() -> (r: Self)
        ensures
            r@ == (ResultsView { files: Seq::empty(), mirror_warnings: Seq::empty() }),
    {
        let r: SessionResults = SessionResults { files: Vec::new(), mirror_warnings: Vec::new() };
        assert(all_views(r.files@) =~= Seq::empty());
        assert(views(r.mirror_warnings@) =~= Seq::empty());
        r
    }

    /// Takes in one more revision of a tracked file.
    pub fn captured(
        &mut self,
        track: &Track,
        revision: u64,
        diff: String,
        fallback: bool,
        mirror_warning: Option<String>,
    )
        ensures
            final(self)@ == captured_view(
                old(self)@,
                track@,
                revision,
                diff@,
                fallback,
                opt_view(mirror_warning),
            ),
    {
        let ghost before = old(self)@;
        let mut i: usize = 0;
        while i < self.files.len() && !same_path(self.files[i].path.as_str(), track.path.as_str())
            invariant
                i <= self.files.len(),
                self@ == before,
                place_of_file(before.files, track@.path, 0) == place_of_file(
                    before.files,
                    track@.path,
                    i as int,
                ),
            decreases self.files.len() - i,
        {
            assert(before.files[i as int] == self.files@[i as int]@);
            i += 1;
        }
        assert(before.files.len() == self.files@.len());
        if i == self.files.len() {
            let fresh: FileSessionResult = FileSessionResult {
                path: track.path.clone(),
                leaf: track.leaf.clone(),
                revisions: Vec::new(),
                last_diff: String::new(),
                fallback_revisions: Vec::new(),
            };
            assert(fresh@ == no_revision(track@));
            let mut fresh: FileSessionResult = fresh;
            fresh.revisions.push(revision);
            fresh.last_diff = diff;
            if fallback {
                fresh.fallback_revisions.push(revision);
            }
            let ghost added = fresh@;
            self.files.push(fresh);
            assert(all_views(self.files@) =~= before.files.push(added));
        } else {
            assert(before.files[i as int] == self.files@[i as int]@);
            let mut entry: FileSessionResult = self.files[i].replicate();
            entry.revisions.push(revision);
            entry.last_diff = diff;
            if fallback {
                entry.fallback_revisions.push(revision);
            }
            let ghost changed = entry@;
            self.files.set(i, entry);
            assert(all_views(self.files@) =~= before.files.update(i as int, changed));
        }
        match mirror_warning {
            Some(w) => {
                let mut text: String = track.leaf.clone();
                text.append(": ");
                text.append(w.as_str());
                let ghost said = text@;
                self.mirror_warnings.push(text);
                assert(views(self.mirror_warnings@) =~= before.mirror_warnings.push(said));
            },
            None => {},
        }
    }

    /// What is said at the end of a session.
    pub fn render(&self) -> (r: Vec<Report>)
        ensures
            all_views(r@) == session_report(self@),
    {
        let mut keys: Vec<Vec<u64>> = Vec::new();
        let mut i: usize = 0;
        while i < self.files.len()
            invariant
                i <= self.files.len(),
                keys@.len() == i,
                forall|j: int| 0 <= j < i ==> (#[trigger] keys@[j])@ == path_key(self.files@[j].path@),
            decreases self.files.len() - i,
        {
            let mut key: Vec<u64> = Vec::new();
            push_path_key(&mut key, self.files[i].path.as_str());
            assert(key@ =~= path_key(self.files@[i as int].path@));
            keys.push(key);
            i += 1;
        }
        let order: Vec<usize> = sort_order(&keys);
        assert(key_views(keys@) =~= result_keys(self@.files));
        let files: Vec<FileSessionResult> = arrange(&self.files, &order);
        let mut out: Vec<Report> = Vec::new();
        let mut i: usize = 0;
        assert(all_views(out@) =~= Seq::empty());
        while i < files.len()
            invariant
                i <= files.len(),
                all_views(out@) == file_reports(all_views(files@), i as int),
            decreases files.len() - i,
        {
            let ghost before = out@;
            let mut more: Vec<Report> = report_file(&files[i]);
            let ghost added = more@;
            out.append(&mut more);
            assert(all_views(out@) =~= all_views(before) + all_views(added));
            i += 1;
        }
        let ghost so_far = all_views(out@);
        let mut i: usize = 0;
        assert(warning_reports(self@.mirror_warnings).take(0) =~= Seq::empty());
        assert(so_far + Seq::empty() =~= so_far);
        while i < self.mirror_warnings.len()
            invariant
                i <= self.mirror_warnings.len(),
                all_views(out@) == so_far + warning_reports(self@.mirror_warnings).take(i as int),
            decreases self.mirror_warnings.len() - i,
        {
            let mut text: String = "bedit: warning: ".to_owned();
            text.append(self.mirror_warnings[i].as_str());
            text.append("\n");
            let ghost before = out@;
            let report: Report = Report { is_error: true, text };
            out.push(report);
            proof {
                let w = warning_reports(self@.mirror_warnings);
                assert(w.take(i + 1) =~= w.take(i as int).push(report@));
                assert(all_views(out@) =~= all_views(before).push(report@));
                assert(all_views(out@) =~= so_far + w.take(i + 1));
            }
            i += 1;
        }
        proof {
            let w = warning_reports(self@.mirror_warnings);
            assert(w.take(w.len() as int) =~= w);
            assert(w.len() == self.mirror_warnings@.len());
            assert(all_views(files@).len() == files@.len());
        }
        out
    }
}

/// A report on a file in a watched directory.
#[derive(Debug, PartialEq, Eq)]
pub struct DirectoryEvent {
    pub path: String,
    pub created: bool,
}

impl View for DirectoryEvent {
    type V = (Seq<char>, bool);

    open spec fn view(&self) -> (Seq<char>, bool) {
        (self.path@, self.created)
    }
}

impl Replicate for DirectoryEvent {
    fn replicate(&self) -> (r: Self) {
        DirectoryEvent { path: self.path.clone(), created: self.created }
    }
}

/// The place of a path among events, from `from` on.
pub open spec fn place_of_event(events: Seq<(Seq<char>, bool)>, path: Seq<char>, from: int) -> Option<
    int,
>
    decreases events.len() - from,
{
    if from < 0 || from >= events.len() {
        None
    } else if same_path_text(events[from].0, path) {
        Some(from)
    } else {
        place_of_event(events, path, from + 1)
    }
}

/// Events with one more taken in: one event for each path, created if any was.
pub open spec fn with_event(events: Seq<(Seq<char>, bool)>, e: (Seq<char>, bool)) -> Seq<
    (Seq<char>, bool),
> {
    match place_of_event(events, e.0, 0) {
        Some(i) => events.update(i, (events[i].0, events[i].1 || e.1)),
        None => events.push(e),
    }
}

/// The first `n` events, one for each path.
pub open spec fn merged_events(events: Seq<(Seq<char>, bool)>, n: int) -> Seq<(Seq<char>, bool)>
    decreases n,
{
    if n <= 0 {
        Seq::empty()
    } else {
        with_event(merged_events(events, n - 1), events[n - 1])
    }
}

/// The keys by which events are ordered.
pub open spec fn event_keys(events: Seq<(Seq<char>, bool)>) -> Seq<Seq<u64>> {
    Seq::new(events.len(), |i: int| path_key(events[i].0))
}

/// Events as they are handed on: one for each path, in the order of the paths.
pub open spec fn coalesced(events: Seq<(Seq<char>, bool)>) -> Seq<(Seq<char>, bool)> {
    let merged = merged_events(events, events.len() as int);
    sorted_by_key(merged, event_keys(merged))
}

/// Events as they are handed on: one for each path, in the order of the paths.
pub fn coalesce_directory_events(events: Vec<DirectoryEvent>) -> (r: Vec<DirectoryEvent>)
    ensures
        all_views(r@) == coalesced(all_views(events@)),
{
    let ghost given = all_views(events@);
    let mut out: Vec<DirectoryEvent> = Vec::new();
    let mut n: usize = 0;
    assert(all_views(out@) =~= Seq::empty());
    while n < events.len()
        invariant
            n <= events.len(),
            given == all_views(events@),
            all_views(out@) == merged_events(given, n as int),
        decreases events.len() - n,
    {
        let ghost before = all_views(out@);
        let ghost e = given[n as int];
        let mut i: usize = 0;
        while i < out.len() && !same_path(out[i].path.as_str(), events[n].path.as_str())
            invariant
                n < events.len(),
                i <= out.len(),
                e == events@[n as int]@,
                before == all_views(out@),
                place_of_event(before, e.0, 0) == place_of_event(before, e.0, i as int),
            decreases out.len() - i,
        {
            assert(before[i as int] == out@[i as int]@);
            i += 1;
        }
        if i == out.len() {
            let event: DirectoryEvent = events[n].replicate();
            out.push(event);
            assert(all_views(out@) =~= before.push(e));
        } else {
            assert(before[i as int] == out@[i as int]@);
            let event: DirectoryEvent = DirectoryEvent {
                path: out[i].path.clone(),
                created: out[i].created || events[n].created,
            };
            let ghost changed = event@;
            out.set(i, event);
            assert(all_views(out@) =~= before.update(i as int, changed));
        }
        n += 1;
    }
    let mut keys: Vec<Vec<u64>> = Vec::new();
    let mut i: usize = 0;
    while i < out.len()
        invariant
            i <= out.len(),
            keys@.len() == i,
            forall|j: int| 0 <= j < i ==> (#[trigger] keys@[j])@ == path_key(out@[j].path@),
        decreases out.len() - i,
    {
        let mut key: Vec<u64> = Vec::new();
        push_path_key(&mut key, out[i].path.as_str());
        assert(key@ =~= path_key(out@[i as int].path@));
        keys.push(key);
        i += 1;
    }
    let order: Vec<usize> = sort_order(&keys);
    assert(key_views(keys@) =~= event_keys(all_views(out@)));
    assert(given.len() == events@.len());
    arrange(&out, &order)
}

proof fn lemma_place_of_event(events: Seq<(Seq<char>, bool)>, path: Seq<char>, from: int)
    requires
        0 <= from <= events.len(),
    ensures
        match place_of_event(events, path, from) {
            Some(i) => from <= i < events.len() && same_path_text(events[i].0, path) && forall|j: int|
                from <= j < i ==> !same_path_text((#[trigger] events[j]).0, path),
            None => forall|j: int|
                from <= j < events.len() ==> !same_path_text((#[trigger] events[j]).0, path),
        },
    decreases events.len() - from,
{
    if from < events.len() && !same_path_text(events[from].0, path) {
        lemma_place_of_event(events, path, from + 1);
    }
}

/// Whether a path has an event that says as much.
pub open spec fn reports(events: Seq<(Seq<char>, bool)>, path: Seq<char>, created: bool) -> bool {
    exists|i: int|
        0 <= i < events.len() && same_path_text((#[trigger] events[i]).0, path) && (created ==> events[i].1)
}

/// Merging loses no event: every path that was reported is reported once, and as created if any
/// of its events said so.
pub proof fn law_merged_events_keep_creation(events: Seq<(Seq<char>, bool)>, n: int, k: int)
    requires
        0 <= k < n <= events.len(),
    ensures
        reports(merged_events(events, n), events[k].0, events[k].1),
        forall|i: int, j: int|
            0 <= i < j < merged_events(events, n).len() ==> !same_path_text(
                (#[trigger] merged_events(events, n)[i]).0,
                (#[trigger] merged_events(events, n)[j]).0,
            ),
    decreases n,
{
    let before = merged_events(events, n - 1);
    let now = merged_events(events, n);
    let e = events[n - 1];
    lemma_merged_distinct(events, n);
    lemma_place_of_event(before, e.0, 0);
    if k < n - 1 {
        law_merged_events_keep_creation(events, n - 1, k);
        let i = choose|i: int|
            0 <= i < before.len() && same_path_text((#[trigger] before[i]).0, events[k].0) && (
            events[k].1 ==> before[i].1);
        assert(same_path_text(now[i].0, events[k].0) && (events[k].1 ==> now[i].1));
    } else {
        match place_of_event(before, e.0, 0) {
            Some(i) => {
                assert(same_path_text(now[i].0, e.0));
            },
            None => {
                assert(now[before.len() as int] == e);
            },
        }
    }
}

proof fn lemma_merged_distinct(events: Seq<(Seq<char>, bool)>, n: int)
    requires
        0 <= n <= events.len(),
    ensures
        forall|i: int, j: int|
            0 <= i < j < merged_events(events, n).len() ==> !same_path_text(
                (#[trigger] merged_events(events, n)[i]).0,
                (#[trigger] merged_events(events, n)[j]).0,
            ),
    decreases n,
{
    if n > 0 {
        lemma_merged_distinct(events, n - 1);
        lemma_place_of_event(merged_events(events, n - 1), events[n - 1].0, 0);
    }
}

/// Whether events tell of a path.
pub open spec fn tells_of(events: Seq<(Seq<char>, bool)>, path: Seq<char>) -> bool {
    reports(events, path, false)
}

/// Whether events tell that a path is new.
pub open spec fn tells_new(events: Seq<(Seq<char>, bool)>, path: Seq<char>) -> bool {
    reports(events, path, true)
}

proof fn lemma_reports_push(
    events: Seq<(Seq<char>, bool)>,
    e: (Seq<char>, bool),
    path: Seq<char>,
    created: bool,
)
    ensures
        reports(events.push(e), path, created) <==> reports(events, path, created) || (
        same_path_text(e.0, path) && (created ==> e.1)),
{
    let all = events.push(e);
    if reports(events, path, created) {
        let i = choose|i: int|
            0 <= i < events.len() && same_path_text((#[trigger] events[i]).0, path) && (created
                ==> events[i].1);
        assert(same_path_text(all[i].0, path) && (created ==> all[i].1));
    }
    if same_path_text(e.0, path) && (created ==> e.1) {
        assert(all[events.len() as int] == e);
    }
    if reports(all, path, created) {
        let i = choose|i: int|
            0 <= i < all.len() && same_path_text((#[trigger] all[i]).0, path) && (created
                ==> all[i].1);
        if i < events.len() {
            assert(all[i] == events[i]);
        }
    }
}

proof fn lemma_merged_tells(
    events: Seq<(Seq<char>, bool)>,
    n: int,
    path: Seq<char>,
    created: bool,
)
    requires
        0 <= n <= events.len(),
    ensures
        reports(merged_events(events, n), path, created) <==> reports(
            events.take(n),
            path,
            created,
        ),
    decreases n,
{
    if n > 0 {
        lemma_merged_tells(events, n - 1, path, created);
        lemma_merged_distinct(events, n - 1);
        let before = merged_events(events, n - 1);
        let now = merged_events(events, n);
        let e = events[n - 1];
        assert(events.take(n) =~= events.take(n - 1).push(e));
        lemma_reports_push(events.take(n - 1), e, path, created);
        lemma_place_of_event(before, e.0, 0);
        match place_of_event(before, e.0, 0) {
            None => {
                lemma_reports_push(before, e, path, created);
            },
            Some(k) => {
                if reports(before, path, created) {
                    let i = choose|i: int|
                        0 <= i < before.len() && same_path_text((#[trigger] before[i]).0, path) && (
                        created ==> before[i].1);
                    assert(same_path_text(now[i].0, path) && (created ==> now[i].1));
                }
                if same_path_text(e.0, path) && (created ==> e.1) {
                    assert(same_path_text(now[k].0, path) && (created ==> now[k].1));
                }
                if reports(now, path, created) {
                    let i = choose|i: int|
                        0 <= i < now.len() && same_path_text((#[trigger] now[i]).0, path) && (created
                            ==> now[i].1);
                    if i != k || before[k].1 || !created {
                        assert(same_path_text(before[i].0, path) && (created ==> before[i].1));
                    }
                }
            },
        }
    } else {
        assert(events.take(0) =~= Seq::empty());
    }
}

/// What is handed on of events is in the order of the paths, none of them twice. It tells of
/// exactly the paths that the events tell of, and that a path is new where any of them did.
pub proof fn law_coalesced_events_are_complete(events: Seq<(Seq<char>, bool)>)
    ensures
        forall|i: int, j: int|
            0 <= i < j < coalesced(events).len() ==> path_less(
                (#[trigger] coalesced(events)[i]).0,
                (#[trigger] coalesced(events)[j]).0,
            ),
        forall|path: Seq<char>| #[trigger] tells_of(coalesced(events), path) <==> tells_of(events, path),
        forall|i: int|
            0 <= i < coalesced(events).len() ==> ((#[trigger] coalesced(events)[i]).1 <==> tells_new(
                events,
                coalesced(events)[i].0,
            )),
{
    lemma_coalesced(events);
    let out = coalesced(events);
    let keys = event_keys(out);
    assert forall|i: int, j: int| 0 <= i < j < out.len() implies path_less(
        (#[trigger] out[i]).0,
        (#[trigger] out[j]).0,
    ) by {
        assert(key_less(keys[i], keys[j]));
        law_path_keys_order_paths(out[i].0, out[j].0);
    }
}

proof fn lemma_coalesced(events: Seq<(Seq<char>, bool)>)
    ensures
        ascends(event_keys(coalesced(events))),
        forall|path: Seq<char>| #[trigger] tells_of(coalesced(events), path) <==> tells_of(events, path),
        forall|i: int|
            0 <= i < coalesced(events).len() ==> ((#[trigger] coalesced(events)[i]).1 <==> tells_new(
                events,
                coalesced(events)[i].0,
            )),
{
    let n = events.len() as int;
    let merged = merged_events(events, n);
    let keys = event_keys(merged);
    let out = coalesced(events);
    let order = stable_order(keys);
    law_stable_order(keys);
    law_sorting_keeps_items(merged, keys);
    lemma_merged_distinct(events, n);
    assert(events.take(n) =~= events);
    assert forall|i: int, j: int| 0 <= i < j < out.len() implies key_less(
        #[trigger] event_keys(out)[i],
        #[trigger] event_keys(out)[j],
    ) by {
        assert(comes_before(keys, order[i], order[j]));
        let (a, b) = (order[i], order[j]);
        law_path_keys_are_faithful(merged[a].0, merged[b].0);
        if a < b {
            assert(!same_path_text(merged[a].0, merged[b].0));
        } else if b < a {
            assert(!same_path_text(merged[b].0, merged[a].0));
        }
        assert(event_keys(out)[i] == keys[a] && event_keys(out)[j] == keys[b]);
    }
    assert forall|path: Seq<char>| #[trigger] tells_of(out, path) <==> tells_of(events, path) by {
        lemma_merged_tells(events, n, path, false);
        if tells_of(out, path) {
            let i = choose|i: int| 0 <= i < out.len() && same_path_text((#[trigger] out[i]).0, path);
            assert(out.contains(out[i]));
            assert(merged.contains(out[i]));
            let k = choose|k: int| 0 <= k < merged.len() && merged[k] == out[i];
            assert(same_path_text(merged[k].0, path));
        }
        if tells_of(merged, path) {
            let k = choose|k: int|
                0 <= k < merged.len() && same_path_text((#[trigger] merged[k]).0, path);
            assert(merged.contains(merged[k]));
            assert(out.contains(merged[k]));
            let i = choose|i: int| 0 <= i < out.len() && out[i] == merged[k];
            assert(same_path_text(out[i].0, path));
        }
    }
    assert forall|i: int| 0 <= i < out.len() implies ((#[trigger] out[i]).1 <==> tells_new(
        events,
        out[i].0,
    )) by {
        let path = out[i].0;
        lemma_merged_tells(events, n, path, true);
        assert(out.contains(out[i]));
        assert(merged.contains(out[i]));
        let k = choose|k: int| 0 <= k < merged.len() && merged[k] == out[i];
        if merged[k].1 {
            assert(same_path_text(merged[k].0, path));
        }
        if reports(merged, path, true) {
            let m = choose|m: int|
                0 <= m < merged.len() && same_path_text((#[trigger] merged[m]).0, path) && merged[m].1;
            if m < k {
                assert(!same_path_text(merged[m].0, merged[k].0));
            } else if k < m {
                assert(!same_path_text(merged[k].0, merged[m].0));
            }
        }
    }
}

proof fn lemma_reports_same(
    a: Seq<(Seq<char>, bool)>,
    b: Seq<(Seq<char>, bool)>,
    path: Seq<char>,
    created: bool,
)
    requires
        a.to_multiset() == b.to_multiset(),
        reports(a, path, created),
    ensures
        reports(b, path, created),
{
    let i = choose|i: int|
        0 <= i < a.len() && same_path_text((#[trigger] a[i]).0, path) && (created ==> a[i].1);
    a.to_multiset_ensures();
    b.to_multiset_ensures();
    assert(a.contains(a[i]));
    assert(b.to_multiset().count(a[i]) > 0);
    assert(b.contains(a[i]));
    let j = choose|j: int| 0 <= j < b.len() && b[j] == a[i];
    assert(same_path_text(b[j].0, path));
}

/// What is handed on does not depend on the order in which the events came: the same paths, in
/// the same places, and as new or not. Of several ways to write one path the first that came is
/// kept; where each path was written in one way, the result is the same to the letter.
pub proof fn law_order_of_events_does_not_matter(
    events: Seq<(Seq<char>, bool)>,
    other: Seq<(Seq<char>, bool)>,
)
    requires
        events.to_multiset() == other.to_multiset(),
    ensures
        coalesced(events).len() == coalesced(other).len(),
        forall|i: int|
            0 <= i < coalesced(events).len() ==> same_path_text(
                (#[trigger] coalesced(events)[i]).0,
                coalesced(other)[i].0,
            ) && coalesced(events)[i].1 == coalesced(other)[i].1,
        (forall|i: int, j: int|
            0 <= i < events.len() && 0 <= j < events.len() && same_path_text(
                (#[trigger] events[i]).0,
                (#[trigger] events[j]).0,
            ) ==> events[i].0 == events[j].0) ==> coalesced(events) == coalesced(other),
{
    let (a, b) = (coalesced(events), coalesced(other));
    let (x, y) = (event_keys(a), event_keys(b));
    lemma_coalesced(events);
    lemma_coalesced(other);
    assert forall|k: Seq<u64>| #[trigger] x.contains(k) <==> y.contains(k) by {
        if x.contains(k) {
            lemma_key_moves(events, other, k);
        }
        if y.contains(k) {
            lemma_key_moves(other, events, k);
        }
    }
    lemma_same_ascending(x, y);
    assert(a.len() == x.len() && b.len() == y.len());
    assert forall|i: int| 0 <= i < a.len() implies same_path_text((#[trigger] a[i]).0, b[i].0)
        && a[i].1 == b[i].1 by {
        assert(x[i] == path_key(a[i].0) && y[i] == path_key(b[i].0));
        law_path_keys_are_faithful(a[i].0, b[i].0);
        if a[i].1 {
            lemma_reports_same(events, other, a[i].0, true);
            lemma_reports_alike(other, a[i].0, b[i].0, true);
        }
        if b[i].1 {
            lemma_reports_same(other, events, b[i].0, true);
            lemma_reports_alike(events, b[i].0, a[i].0, true);
        }
    }
    if forall|i: int, j: int|
        0 <= i < events.len() && 0 <= j < events.len() && same_path_text(
            (#[trigger] events[i]).0,
            (#[trigger] events[j]).0,
        ) ==> events[i].0 == events[j].0 {
        assert forall|i: int| 0 <= i < a.len() implies a[i] == b[i] by {
            lemma_coalesced_text(events, i);
            lemma_coalesced_text(other, i);
            let m = choose|m: int| 0 <= m < events.len() && (#[trigger] events[m]).0 == a[i].0;
            let k = choose|k: int| 0 <= k < other.len() && (#[trigger] other[k]).0 == b[i].0;
            events.to_multiset_ensures();
            other.to_multiset_ensures();
            assert(other.contains(other[k]));
            assert(events.to_multiset().count(other[k]) > 0);
            assert(events.contains(other[k]));
            let j = choose|j: int| 0 <= j < events.len() && events[j] == other[k];
            assert(same_path_text(events[m].0, events[j].0));
        }
        assert(a =~= b);
    }
}

proof fn lemma_reports_alike(
    events: Seq<(Seq<char>, bool)>,
    a: Seq<char>,
    b: Seq<char>,
    created: bool,
)
    requires
        same_path_text(a, b),
        reports(events, a, created),
    ensures
        reports(events, b, created),
{
    let i = choose|i: int|
        0 <= i < events.len() && same_path_text((#[trigger] events[i]).0, a) && (created
            ==> events[i].1);
    assert(same_path_text(events[i].0, b));
}

proof fn lemma_key_moves(
    events: Seq<(Seq<char>, bool)>,
    other: Seq<(Seq<char>, bool)>,
    key: Seq<u64>,
)
    requires
        events.to_multiset() == other.to_multiset(),
        event_keys(coalesced(events)).contains(key),
    ensures
        event_keys(coalesced(other)).contains(key),
{
    let (a, b) = (coalesced(events), coalesced(other));
    lemma_coalesced(events);
    lemma_coalesced(other);
    let i = choose|i: int| 0 <= i < event_keys(a).len() && event_keys(a)[i] == key;
    assert(same_path_text(a[i].0, a[i].0));
    assert(tells_of(a, a[i].0));
    lemma_reports_same(events, other, a[i].0, false);
    assert(tells_of(b, a[i].0));
    let j = choose|j: int| 0 <= j < b.len() && same_path_text((#[trigger] b[j]).0, a[i].0);
    law_path_keys_are_faithful(b[j].0, a[i].0);
    assert(event_keys(b)[j] == key);
}

proof fn lemma_merged_text(events: Seq<(Seq<char>, bool)>, n: int, i: int)
    requires
        0 <= n <= events.len(),
        0 <= i < merged_events(events, n).len(),
    ensures
        exists|k: int|
            0 <= k < n && (#[trigger] events[k]).0 == merged_events(events, n)[i].0,
    decreases n,
{
    if n > 0 {
        let before = merged_events(events, n - 1);
        lemma_place_of_event(before, events[n - 1].0, 0);
        if i < before.len() {
            lemma_merged_text(events, n - 1, i);
            assert(merged_events(events, n)[i].0 == before[i].0);
        } else {
            assert(merged_events(events, n)[i] == events[n - 1]);
        }
    }
}

proof fn lemma_coalesced_text(events: Seq<(Seq<char>, bool)>, i: int)
    requires
        0 <= i < coalesced(events).len(),
    ensures
        exists|k: int|
            0 <= k < events.len() && (#[trigger] events[k]).0 == coalesced(events)[i].0,
{
    let n = events.len() as int;
    let merged = merged_events(events, n);
    law_sorting_keeps_items(merged, event_keys(merged));
    assert(coalesced(events).contains(coalesced(events)[i]));
    assert(merged.contains(coalesced(events)[i]));
    let m = choose|m: int| 0 <= m < merged.len() && merged[m] == coalesced(events)[i];
    lemma_merged_text(events, n, m);
}

/// Whether an option of an editor is followed by a value.
pub open spec fn takes_value(wrapper: Seq<char>, arg: Seq<char>) -> bool {
    (arg == "-t"@ || arg == "-T"@ || arg == "-u"@ || arg == "-U"@ || arg == "-i"@ || arg == "-p"@ || arg == "-c"@ || arg == "-S"@ || arg == "-o"@ || arg == "-O"@) || (wrapper == "bemacs"@ && (arg == "--eval"@ || arg == "--execute"@))
}

/// Whether an option of an editor is followed by a value.
pub fn option_takes_value(spec: &WrapperSpec, arg: &str) -> (r: bool)
    ensures
        r == takes_value(spec.wrapper@, arg@),
{
    (same(arg, "-t") || same(arg, "-T") || same(arg, "-u") || same(arg, "-U") || same(arg, "-i") || same(arg, "-p") || same(arg, "-c") || same(arg, "-S") || same(arg, "-o") || same(arg, "-O")) || (same(spec.wrapper, "bemacs") && (same(arg, "--eval") || same(arg, "--execute")))
}

/// The arguments from `from` on that name files, when the one at `from` may be a value.
pub open spec fn file_arguments(
    wrapper: Seq<char>,
    args: Seq<Seq<char>>,
    from: int,
    is_value: bool,
) -> Seq<Seq<char>>
    decreases args.len() - from,
{
    if from < 0 || from >= args.len() {
        Seq::empty()
    } else if is_value {
        file_arguments(wrapper, args, from + 1, false)
    } else {
        let arg = args[from];
        if arg == "--"@ || begins_with(arg, "+"@) {
            file_arguments(wrapper, args, from + 1, false)
        } else if takes_value(wrapper, arg) {
            file_arguments(wrapper, args, from + 1, true)
        } else if begins_with(arg, "-"@) {
            file_arguments(wrapper, args, from + 1, false)
        } else {
            seq![arg] + file_arguments(wrapper, args, from + 1, false)
        }
    }
}

/// The arguments of an editor that name files.
pub fn target_arguments(spec: &WrapperSpec, args: &Vec<String>) -> (r: Vec<String>)
    ensures
        views(r@) == file_arguments(spec.wrapper@, views(args@), 0, false),
{
    let ghost all = views(args@);
    let ghost w = spec.wrapper@;
    let mut out: Vec<String> = Vec::new();
    let mut consume_next: bool = false;
    let mut i: usize = 0;
    assert(views(out@) + file_arguments(w, all, 0, false) =~= file_arguments(w, all, 0, false));
    while i < args.len()
        invariant
            i <= args.len(),
            all == views(args@),
            w == spec.wrapper@,
            views(out@) + file_arguments(w, all, i as int, consume_next) == file_arguments(
                w,
                all,
                0,
                false,
            ),
        decreases args.len() - i,
    {
        let arg: &str = args[i].as_str();
        assert(all[i as int] == arg@);
        if consume_next {
            consume_next = false;
        } else if same(arg, "--") || starts_with(arg, "+") {
        } else if option_takes_value(spec, arg) {
            consume_next = true;
        } else if starts_with(arg, "-") {
        } else {
            let ghost before = out@;
            out.push(arg.to_owned());
            proof {
                assert(views(out@) =~= views(before).push(arg@));
                assert(views(out@) + file_arguments(w, all, i + 1, false) =~= views(before)
                    + file_arguments(w, all, i as int, false));
            }
        }
        i += 1;
    }
    assert(views(out@) + Seq::empty() =~= views(out@));
    assert(all.len() == args@.len());
    out
}

/// The full path of an argument.
pub open spec fn full_path(arg: Seq<char>, cwd: Seq<char>) -> Seq<char> {
    if is_rooted(arg) {
        arg
    } else {
        joined_path(cwd, arg)
    }
}

/// The directory and the name of the file that an argument means.
pub fn local_parts(arg: &str, cwd: &str) -> (r: (String, String))
    ensures
        r.0@ == match parent_of(full_path(arg@, cwd@)) {
            Some(p) => p,
            None => "."@,
        },
        r.1@ == match file_name_of(full_path(arg@, cwd@)) {
            Some(n) => n,
            None => Seq::<char>::empty(),
        },
{
    let full: String = if is_absolute(arg) {
        arg.to_owned()
    } else {
        join_path(cwd, arg)
    };
    let directory: String = match parent(full.as_str()) {
        Some(p) => p,
        None => ".".to_owned(),
    };
    let name: String = match file_name(full.as_str()) {
        Some(n) => n,
        None => String::new(),
    };
    (directory, name)
}

/// The path of the file that an argument means, in its directory as the file system has it.
pub fn absolute_local(directory: &str, name: &str) -> (r: String)
    ensures
        r@ == joined_path(directory@, name@),
{
    join_path(directory, name)
}

/// Whether a value matches a pattern with at most one `*` that counts.
pub open spec fn matches_pattern(pattern: Seq<char>, value: Seq<char>) -> bool {
    match cut_at(pattern, "*"@) {
        Some((left, right)) => begins_with(value, left) && finishes_with(value, right),
        None => pattern == value,
    }
}

/// Whether a value matches a pattern with at most one `*` that counts.
pub fn wildcard(pattern: &str, value: &str) -> (r: bool)
    ensures
        r == matches_pattern(pattern@, value@),
{
    match split_once(pattern, "*") {
        Some((left, right)) => starts_with(value, left.as_str()) && ends_with(value, right.as_str()),
        None => same(pattern, value),
    }
}

/// Whether the exclusion at a place of the list matches a file.
pub open spec fn exclusion_matches(exclude: Seq<char>, i: int, path: Seq<char>, leaf: Seq<char>) -> bool {
    let pattern = trimmed(pieces(exclude, ","@)[i]);
    pattern.len() > 0 && (matches_pattern(pattern, path) || matches_pattern(pattern, leaf))
}

/// Whether a file is not to be tracked: it lies in the repository, or an exclusion matches its
/// path or its name.
pub open spec fn is_excluded(config: ConfigView, path: Seq<char>, leaf: Seq<char>) -> bool {
    is_within(path, config.root) || exists|i: int|
        0 <= i < pieces(config.exclude, ","@).len() && #[trigger] exclusion_matches(
            config.exclude,
            i,
            path,
            leaf,
        )
}

/// Whether a file is not to be tracked.
pub fn excluded(config: &Config, path: &str, leaf: &str) -> (r: bool)
    ensures
        r == is_excluded(config@, path@, leaf@),
{
    if starts_with_path(path, config.root.as_str()) {
        return true;
    }
    proof {
        reveal_strlit(",");
    }
    let list: Vec<String> = split(config.exclude.as_str(), ",");
    let ghost p = pieces(config.exclude@, ","@);
    let mut i: usize = 0;
    assert(p.len() == list@.len());
    while i < list.len()
        invariant
            i <= list.len(),
            p == pieces(config.exclude@, ","@),
            views(list@) == p,
            p.len() == list@.len(),
            !is_within(path@, config@.root),
            forall|j: int|
                0 <= j < i ==> !#[trigger] exclusion_matches(config.exclude@, j, path@, leaf@),
        decreases list.len() - i,
    {
        assert(p[i as int] == list@[i as int]@);
        let pattern: String = trim(list[i].as_str());
        if chars_of(pattern.as_str()).len() > 0 && (wildcard(pattern.as_str(), path) || wildcard(
            pattern.as_str(),
            leaf,
        )) {
            assert(config@.exclude == config.exclude@);
            assert(exclusion_matches(config@.exclude, i as int, path@, leaf@));
            return true;
        }
        i += 1;
    }
    false
}

/// What is to be done with a file that an argument means.
#[derive(Clone, Copy, Debug, PartialEq, Eq, Structural)]
pub enum TargetAction {
    Skip,
    Create,
    Keep,
}

/// What is to be done with a file that an argument means: directories and excluded files are not
/// tracked, and a missing file is created.
pub fn target_action(config: &Config, path: &str, leaf: &str, is_dir: bool, present: bool) -> (r:
    TargetAction)
    ensures
        r == if is_dir || is_excluded(config@, path@, leaf@) {
            TargetAction::Skip
        } else if !present {
            TargetAction::Create
        } else {
            TargetAction::Keep
        },
{
    if is_dir || excluded(config, path, leaf) {
        TargetAction::Skip
    } else if !present {
        TargetAction::Create
    } else {
        TargetAction::Keep
    }
}

/// How an editor opens files, as far as finding them out goes.
#[derive(Clone, Copy, Debug, PartialEq, Eq, Structural)]
pub enum DiscoveryProfile {
    Vim,
    Neovim,
    Nano,
    Emacs,
}

/// Why a file that an editor opened is not tracked.
#[derive(Clone, Copy, Debug, PartialEq, Eq, Structural)]
pub enum DiscoveryRejection {
    Deleted,
    NotAbsolute,
    NotRegular,
    PseudoFilesystem,
    RepositoryInternal,
    AlreadyTracked,
    VimAsset,
    VimTemporary,
    Excluded,
    InvalidPath,
}

/// The profile of a family of editors.
pub fn family_discovery_profile(family: EditorFamily) -> (r: Option<DiscoveryProfile>)
    ensures
        r == match family {
            EditorFamily::Vim => Some(DiscoveryProfile::Vim),
            EditorFamily::Neovim => Some(DiscoveryProfile::Neovim),
            EditorFamily::Nano => Some(DiscoveryProfile::Nano),
            EditorFamily::Emacs => Some(DiscoveryProfile::Emacs),
            _ => None,
        },
{
    match family {
        EditorFamily::Vim => Some(DiscoveryProfile::Vim),
        EditorFamily::Neovim => Some(DiscoveryProfile::Neovim),
        EditorFamily::Nano => Some(DiscoveryProfile::Nano),
        EditorFamily::Emacs => Some(DiscoveryProfile::Emacs),
        EditorFamily::Ed | EditorFamily::Micro | EditorFamily::Joe | EditorFamily::Jed
        | EditorFamily::McEdit => None,
    }
}

/// The profile of a wrapper.
pub open spec fn wrapper_profile(wrapper: Seq<char>) -> Option<DiscoveryProfile> {
    if wrapper == "bvi"@ {
        Some(DiscoveryProfile::Vim)
    } else if wrapper == "bnvim"@ {
        Some(DiscoveryProfile::Neovim)
    } else if wrapper == "bnano"@ {
        Some(DiscoveryProfile::Nano)
    } else if wrapper == "bemacs"@ {
        Some(DiscoveryProfile::Emacs)
    } else {
        None
    }
}

/// The profile of a wrapper.
pub fn discovery_profile(wrapper: &str) -> (r: Option<DiscoveryProfile>)
    ensures
        r == wrapper_profile(wrapper@),
{
    if same(wrapper, "bvi") {
        Some(DiscoveryProfile::Vim)
    } else if same(wrapper, "bnvim") {
        Some(DiscoveryProfile::Neovim)
    } else if same(wrapper, "bnano") {
        Some(DiscoveryProfile::Nano)
    } else if same(wrapper, "bemacs") {
        Some(DiscoveryProfile::Emacs)
    } else {
        None
    }
}

/// Whether a path lies below one of some roots.
pub open spec fn below_any(path: Seq<char>, roots: Seq<Seq<char>>) -> bool {
    exists|i: int| 0 <= i < roots.len() && is_within(path, #[trigger] roots[i])
}

/// Whether a path lies below one of some roots.
pub fn is_below_any(path: &str, roots: &Vec<String>) -> (r: bool)
    ensures
        r == below_any(path@, views(roots@)),
{
    let ghost all = views(roots@);
    let mut i: usize = 0;
    while i < roots.len()
        invariant
            i <= roots.len(),
            all == views(roots@),
            forall|j: int| 0 <= j < i ==> !is_within(path@, #[trigger] all[j]),
        decreases roots.len() - i,
    {
        assert(all[i as int] == roots@[i as int]@);
        if starts_with_path(path, roots[i].as_str()) {
            return true;
        }
        i += 1;
    }
    assert(all.len() == roots@.len());
    false
}

/// The directories in which an editor keeps its own files.
pub open spec fn asset_roots(profile: DiscoveryProfile, home: Seq<char>) -> Seq<Seq<char>> {
    match profile {
        DiscoveryProfile::Vim => seq![
            joined_path(home, ".vim"@),
            joined_path(home, ".config/vim"@),
            joined_path(home, ".local/share/vim"@),
            "/etc/vim"@,
            "/usr/share/vim"@,
            "/usr/local/share/vim"@,
        ],
        DiscoveryProfile::Neovim => seq![
            joined_path(home, ".config/nvim"@),
            joined_path(home, ".local/share/nvim"@),
            joined_path(home, ".cache/nvim"@),
            joined_path(home, ".local/state/nvim"@),
            "/etc/xdg/nvim"@,
            "/usr/share/nvim"@,
            "/usr/local/share/nvim"@,
        ],
        DiscoveryProfile::Nano => seq![
            joined_path(home, ".config/nano"@),
        ],
        DiscoveryProfile::Emacs => seq![
            joined_path(home, ".emacs.d"@),
            joined_path(home, ".config/emacs"@),
            joined_path(home, ".local/share/emacs"@),
        ],
    }
}

/// Whether a name is one of those that an editor's own files have.
pub open spec fn is_asset_name(profile: DiscoveryProfile, leaf: Seq<char>) -> bool {
    match profile {
        DiscoveryProfile::Vim => leaf == "vimrc"@ || leaf == ".vimrc"@ || leaf == "syntax.vim"@ || leaf == "synload.vim"@ || leaf == "syncolor.vim"@ || leaf == "filetype.vim"@ || leaf == "netrwPlugin.vim"@ || leaf == ".viminfo"@ || finishes_with(leaf, ".vim"@),
        DiscoveryProfile::Neovim => leaf == "vimrc"@ || leaf == ".vimrc"@ || leaf == "syntax.vim"@ || leaf == "synload.vim"@ || leaf == "syncolor.vim"@ || leaf == "filetype.vim"@ || leaf == "netrwPlugin.vim"@ || leaf == "shada.main"@ || leaf == "main.shada"@,
        DiscoveryProfile::Nano => leaf == "nanorc"@ || leaf == ".nanorc"@,
        DiscoveryProfile::Emacs => leaf == ".emacs"@ || leaf == "early-init.el"@ || leaf == "init.el"@,
    }
}

/// Whether a file belongs to the editor itself: by its name, or by where it stands.
pub open spec fn is_asset(
    profile: DiscoveryProfile,
    path: Seq<char>,
    leaf: Seq<char>,
    home: Seq<char>,
    roots: Seq<Seq<char>>,
) -> bool {
    is_asset_name(profile, leaf) || below_any(path, asset_roots(profile, home)) || below_any(path, roots)
}

fn known_asset_name(profile: DiscoveryProfile, leaf: &str) -> (r: bool)
    ensures
        r == is_asset_name(profile, leaf@),
{
    match profile {
        DiscoveryProfile::Vim => same(leaf, "vimrc") || same(leaf, ".vimrc") || same(leaf, "syntax.vim") || same(leaf, "synload.vim") || same(leaf, "syncolor.vim") || same(leaf, "filetype.vim") || same(leaf, "netrwPlugin.vim") || same(leaf, ".viminfo") || ends_with(leaf, ".vim"),
        DiscoveryProfile::Neovim => same(leaf, "vimrc") || same(leaf, ".vimrc") || same(leaf, "syntax.vim") || same(leaf, "synload.vim") || same(leaf, "syncolor.vim") || same(leaf, "filetype.vim") || same(leaf, "netrwPlugin.vim") || same(leaf, "shada.main") || same(leaf, "main.shada"),
        DiscoveryProfile::Nano => same(leaf, "nanorc") || same(leaf, ".nanorc"),
        DiscoveryProfile::Emacs => same(leaf, ".emacs") || same(leaf, "early-init.el") || same(leaf, "init.el"),
    }
}

fn known_asset_roots(profile: DiscoveryProfile, home: &str) -> (r: Vec<String>)
    ensures
        views(r@) == asset_roots(profile, home@),
{
    let mut out: Vec<String> = Vec::new();
    match profile {
        DiscoveryProfile::Vim => {
            out.push(join_path(home, ".vim"));
            out.push(join_path(home, ".config/vim"));
            out.push(join_path(home, ".local/share/vim"));
            out.push("/etc/vim".to_owned());
            out.push("/usr/share/vim".to_owned());
            out.push("/usr/local/share/vim".to_owned());
        },
        DiscoveryProfile::Neovim => {
            out.push(join_path(home, ".config/nvim"));
            out.push(join_path(home, ".local/share/nvim"));
            out.push(join_path(home, ".cache/nvim"));
            out.push(join_path(home, ".local/state/nvim"));
            out.push("/etc/xdg/nvim".to_owned());
            out.push("/usr/share/nvim".to_owned());
            out.push("/usr/local/share/nvim".to_owned());
        },
        DiscoveryProfile::Nano => {
            out.push(join_path(home, ".config/nano"));
        },
        DiscoveryProfile::Emacs => {
            out.push(join_path(home, ".emacs.d"));
            out.push(join_path(home, ".config/emacs"));
            out.push(join_path(home, ".local/share/emacs"));
        },
    }
    assert(views(out@) =~= asset_roots(profile, home@));
    out
}

/// Whether a file belongs to the editor itself.
pub fn editor_asset(
    profile: DiscoveryProfile,
    path: &str,
    leaf: &str,
    home: &str,
    runtime_roots: &Vec<String>,
) -> (r: bool)
    ensures
        r == is_asset(profile, path@, leaf@, home@, views(runtime_roots@)),
{
    known_asset_name(profile, leaf) || is_below_any(path, &known_asset_roots(profile, home))
        || is_below_any(path, runtime_roots)
}

/// Whether a name ends in `.sw` and one small letter, whatever the case.
pub open spec fn is_swap_name(leaf: Seq<char>) -> bool {
    let lower = lowered(leaf);
    let n = lower.len() as int;
    n >= 4 && lower[n - 4] == '.' && lower[n - 3] == 's' && lower[n - 2] == 'w' && 'a' <= lower[n - 1] <= 'z'
}

/// Whether a name is that of a temporary file of any editor.
pub open spec fn is_temporary_name(leaf: Seq<char>) -> bool {
    let lower = lowered(leaf);
    is_swap_name(leaf) || finishes_with(leaf, "~"@) || finishes_with(lower, ".tmp"@)
        || finishes_with(lower, ".temp"@) || finishes_with(lower, ".lock"@) || begins_with(
        leaf,
        ".#"@,
    ) || begins_with(leaf, ".tmp"@)
}

/// Whether a name is that of a temporary file of an editor.
pub open spec fn is_editor_temporary(profile: DiscoveryProfile, leaf: Seq<char>) -> bool {
    is_temporary_name(leaf) || (profile == DiscoveryProfile::Emacs && (begins_with(leaf, ".#"@) || (
    begins_with(leaf, "#"@) && finishes_with(leaf, "#"@))))
}

/// Whether a name is that of a temporary file of any editor.
pub fn vim_temporary(leaf: &str) -> (r: bool)
    ensures
        r == is_temporary_name(leaf@),
{
    let lower: String = to_ascii_lowercase(leaf);
    let x: Vec<char> = chars_of(lower.as_str());
    let n: usize = x.len();
    let swap: bool = n >= 4 && x[n - 4] == '.' && x[n - 3] == 's' && x[n - 2] == 'w' && x[n - 1] >= 'a'
        && x[n - 1] <= 'z';
    swap || ends_with(leaf, "~") || ends_with(lower.as_str(), ".tmp") || ends_with(
        lower.as_str(),
        ".temp",
    ) || ends_with(lower.as_str(), ".lock") || starts_with(leaf, ".#") || starts_with(leaf, ".tmp")
}

/// Whether a name is that of a temporary file of an editor.
pub fn editor_temporary(profile: DiscoveryProfile, leaf: &str) -> (r: bool)
    ensures
        r == is_editor_temporary(profile, leaf@),
{
    vim_temporary(leaf) || (profile == DiscoveryProfile::Emacs && (starts_with(leaf, ".#") || (
    starts_with(leaf, "#") && ends_with(leaf, "#"))))
}

/// The runtime directory of an editor, where the environment gives one.
pub open spec fn runtime_root(runtime: Option<Seq<char>>) -> Seq<Seq<char>> {
    match runtime {
        Some(root) => seq![root],
        None => Seq::empty(),
    }
}

/// The directories below which an editor opens files of its own.
pub open spec fn roots_of_profile(
    profile: DiscoveryProfile,
    home: Seq<char>,
    runtime: Option<Seq<char>>,
) -> Seq<Seq<char>> {
    match profile {
        DiscoveryProfile::Vim => runtime_root(runtime) + seq![
            joined_path(home, ".vim"@),
            joined_path(home, ".config/vim"@),
        ],
        DiscoveryProfile::Neovim => runtime_root(runtime) + seq![
            joined_path(home, ".config/nvim"@),
            joined_path(home, ".local/share/nvim"@),
            joined_path(home, ".cache/nvim"@),
            joined_path(home, ".local/state/nvim"@),
            "/usr/share/nvim"@,
            "/usr/local/share/nvim"@,
        ],
        DiscoveryProfile::Nano => seq![
            "/usr/share/nano"@,
            "/usr/local/share/nano"@,
        ],
        DiscoveryProfile::Emacs => seq![
            "/usr/share/emacs"@,
            "/usr/local/share/emacs"@,
            "/usr/share/emacs/site-lisp"@,
            "/usr/local/share/emacs/site-lisp"@,
        ],
    }
}

/// The directories below which an editor opens files of its own on macOS, beyond the others.
pub open spec fn macos_roots(profile: DiscoveryProfile) -> Seq<Seq<char>> {
    match profile {
        DiscoveryProfile::Vim => seq![
            "/Applications/MacVim.app/Contents"@,
            "/Applications/Vim.app/Contents"@,
        ],
        DiscoveryProfile::Neovim => Seq::empty(),
        DiscoveryProfile::Nano => seq![
            "/opt/homebrew/share/nano"@,
            "/usr/local/share/nano"@,
        ],
        DiscoveryProfile::Emacs => seq![
            "/Applications/Emacs.app/Contents"@,
            "/Applications/Aquamacs.app/Contents"@,
            "/Library/Application Support/Emacs"@,
        ],
    }
}

fn push_runtime(out: &mut Vec<String>, runtime: Option<&str>)
    ensures
        views(final(out)@) == views(old(out)@) + runtime_root(opt_str(runtime)),
{
    match runtime {
        Some(root) => {
            let ghost before = out@;
            out.push(root.to_owned());
            assert(views(out@) =~= views(before) + seq![root@]);
        },
        None => {
            assert(views(out@) =~= views(out@) + Seq::empty());
        },
    }
}

/// The directories below which an editor opens files of its own.
pub fn discovery_roots(profile: DiscoveryProfile, home: &str, runtime: Option<&str>) -> (r: Vec<String>)
    ensures
        views(r@) == roots_of_profile(profile, home@, opt_str(runtime)),
{
    let mut out: Vec<String> = Vec::new();
    assert(views(out@) =~= Seq::empty());
    match profile {
        DiscoveryProfile::Vim => {
            push_runtime(&mut out, runtime);
            out.push(join_path(home, ".vim"));
            out.push(join_path(home, ".config/vim"));
        },
        DiscoveryProfile::Neovim => {
            push_runtime(&mut out, runtime);
            out.push(join_path(home, ".config/nvim"));
            out.push(join_path(home, ".local/share/nvim"));
            out.push(join_path(home, ".cache/nvim"));
            out.push(join_path(home, ".local/state/nvim"));
            out.push("/usr/share/nvim".to_owned());
            out.push("/usr/local/share/nvim".to_owned());
        },
        DiscoveryProfile::Nano => {
            out.push("/usr/share/nano".to_owned());
            out.push("/usr/local/share/nano".to_owned());
        },
        DiscoveryProfile::Emacs => {
            out.push("/usr/share/emacs".to_owned());
            out.push("/usr/local/share/emacs".to_owned());
            out.push("/usr/share/emacs/site-lisp".to_owned());
            out.push("/usr/local/share/emacs/site-lisp".to_owned());
        },
    }
    assert(views(out@) =~= roots_of_profile(profile, home@, opt_str(runtime)));
    out
}

/// The directories below which an editor opens files of its own on macOS.
pub fn macos_discovery_roots(profile: DiscoveryProfile, home: &str, runtime: Option<&str>) -> (r: Vec<
    String,
>)
    ensures
        views(r@) == roots_of_profile(profile, home@, opt_str(runtime)) + macos_roots(profile),
{
    let mut out: Vec<String> = discovery_roots(profile, home, runtime);
    let ghost base = views(out@);
    match profile {
        DiscoveryProfile::Vim => {
            out.push("/Applications/MacVim.app/Contents".to_owned());
            out.push("/Applications/Vim.app/Contents".to_owned());
        },
        DiscoveryProfile::Neovim => {
        },
        DiscoveryProfile::Nano => {
            out.push("/opt/homebrew/share/nano".to_owned());
            out.push("/usr/local/share/nano".to_owned());
        },
        DiscoveryProfile::Emacs => {
            out.push("/Applications/Emacs.app/Contents".to_owned());
            out.push("/Applications/Aquamacs.app/Contents".to_owned());
            out.push("/Library/Application Support/Emacs".to_owned());
        },
    }
    assert(views(out@) =~= base + macos_roots(profile));
    out
}

/// The directories below which an editor opens files of its own on a platform.
pub fn platform_discovery_roots(
    macos: bool,
    profile: DiscoveryProfile,
    home: &str,
    runtime: Option<&str>,
) -> (r: Vec<String>)
    ensures
        views(r@) == roots_of_profile(profile, home@, opt_str(runtime)) + (if macos {
            macos_roots(profile)
        } else {
            Seq::empty()
        }),
{
    if macos {
        macos_discovery_roots(profile, home, runtime)
    } else {
        let out: Vec<String> = discovery_roots(profile, home, runtime);
        assert(views(out@) =~= views(out@) + Seq::empty());
        out
    }
}

/// Whether a file belongs to macOS itself, or lies directly in a user's temporary directory there.
pub open spec fn is_macos_asset(path: Seq<char>) -> bool {
    is_within(path, "/System/Library"@) || is_within(path, "/usr/lib"@) || is_within(
        path,
        "/private/var/run"@,
    ) || ((is_within(path, "/private/var/folders"@) || is_within(path, "/var/folders"@)) && (match cut_at(
        path,
        "/T/"@,
    ) {
        Some((_, relative)) => !occurs(relative, "/"@),
        None => false,
    }))
}

/// Whether a file belongs to macOS itself, or lies directly in a user's temporary directory there.
pub fn macos_system_asset(path: &str) -> (r: bool)
    ensures
        r == is_macos_asset(path@),
{
    starts_with_path(path, "/System/Library") || starts_with_path(path, "/usr/lib")
        || starts_with_path(path, "/private/var/run") || ((starts_with_path(
        path,
        "/private/var/folders",
    ) || starts_with_path(path, "/var/folders")) && (match split_once(path, "/T/") {
        Some((_, relative)) => !contains(relative.as_str(), "/"),
        None => false,
    }))
}

/// A file that an editor may have opened, as the file system has it.
pub struct Probe {
    pub target: String,
    pub is_file: bool,
    pub canonical: Option<String>,
}

/// What discovery goes by: the repository's directories, the home directory and the directories
/// of the editor, as the file system has them.
pub struct Surroundings {
    pub macos: bool,
    pub repository: Vec<String>,
    pub home: String,
    pub runtime_roots: Vec<String>,
}

/// Whether a path is one of some paths.
pub open spec fn is_among(path: Seq<char>, paths: Seq<Seq<char>>) -> bool {
    exists|i: int| 0 <= i < paths.len() && same_path_text(#[trigger] paths[i], path)
}

/// The directories that hold no files to track.
pub open spec fn pseudo_roots() -> Seq<Seq<char>> {
    seq!["/proc"@, "/sys"@, "/dev"@, "/run"@]
}

/// The file that a probe means, or why it is not tracked.
pub open spec fn candidate(
    config: ConfigView,
    profile: DiscoveryProfile,
    around: Surroundings,
    watched: Seq<Seq<char>>,
    probe: Probe,
) -> Result<Seq<char>, DiscoveryRejection> {
    if finishes_with(probe.target@, " (deleted)"@) {
        Err(DiscoveryRejection::Deleted)
    } else if !is_rooted(probe.target@) {
        Err(DiscoveryRejection::NotAbsolute)
    } else if !probe.is_file {
        Err(DiscoveryRejection::NotRegular)
    } else {
        match probe.canonical {
            None => Err(DiscoveryRejection::InvalidPath),
            Some(path) => if below_any(path@, pseudo_roots()) || (around.macos && is_macos_asset(path@)) {
                Err(DiscoveryRejection::PseudoFilesystem)
            } else if below_any(path@, views(around.repository@)) {
                Err(DiscoveryRejection::RepositoryInternal)
            } else if is_among(path@, watched) {
                Err(DiscoveryRejection::AlreadyTracked)
            } else {
                match file_name_of(path@) {
                    None => Err(DiscoveryRejection::InvalidPath),
                    Some(leaf) => if is_asset(
                        profile,
                        path@,
                        leaf,
                        around.home@,
                        views(around.runtime_roots@),
                    ) {
                        Err(DiscoveryRejection::VimAsset)
                    } else if is_editor_temporary(profile, leaf) {
                        Err(DiscoveryRejection::VimTemporary)
                    } else if is_excluded(config, path@, leaf) {
                        Err(DiscoveryRejection::Excluded)
                    } else {
                        Ok(path@)
                    },
                }
            },
        }
    }
}

fn among(path: &str, paths: &Vec<String>) -> (r: bool)
    ensures
        r == is_among(path@, views(paths@)),
{
    let ghost all = views(paths@);
    let mut i: usize = 0;
    while i < paths.len()
        invariant
            i <= paths.len(),
            all == views(paths@),
            forall|j: int| 0 <= j < i ==> !same_path_text(#[trigger] all[j], path@),
        decreases paths.len() - i,
    {
        assert(all[i as int] == paths@[i as int]@);
        if same_path(paths[i].as_str(), path) {
            return true;
        }
        i += 1;
    }
    assert(all.len() == paths@.len());
    false
}

fn known_pseudo_roots() -> (r: Vec<String>)
    ensures
        views(r@) == pseudo_roots(),
{
    let mut out: Vec<String> = Vec::new();
    out.push("/proc".to_owned());
    out.push("/sys".to_owned());
    out.push("/dev".to_owned());
    out.push("/run".to_owned());
    assert(views(out@) =~= pseudo_roots());
    out
}

/// The file that a probe means, or why it is not tracked.
pub fn profiled_discovery_candidate(
    config: &Config,
    profile: DiscoveryProfile,
    around: &Surroundings,
    watched: &Vec<String>,
    probe: &Probe,
) -> (r: Result<String, DiscoveryRejection>)
    ensures
        match r {
            Ok(path) => candidate(config@, profile, *around, views(watched@), *probe) == Ok::<
                _,
                DiscoveryRejection,
            >(path@),
            Err(e) => candidate(config@, profile, *around, views(watched@), *probe) == Err::<
                Seq<char>,
                _,
            >(e),
        },
{
    if ends_with(probe.target.as_str(), " (deleted)") {
        return Err(DiscoveryRejection::Deleted);
    }
    if !is_absolute(probe.target.as_str()) {
        return Err(DiscoveryRejection::NotAbsolute);
    }
    if !probe.is_file {
        return Err(DiscoveryRejection::NotRegular);
    }
    let path: &str = match &probe.canonical {
        Some(p) => p.as_str(),
        None => {
            return Err(DiscoveryRejection::InvalidPath);
        },
    };
    if is_below_any(path, &known_pseudo_roots()) || (around.macos && macos_system_asset(path)) {
        return Err(DiscoveryRejection::PseudoFilesystem);
    }
    if is_below_any(path, &around.repository) {
        return Err(DiscoveryRejection::RepositoryInternal);
    }
    if among(path, watched) {
        return Err(DiscoveryRejection::AlreadyTracked);
    }
    let leaf: String = match file_name(path) {
        Some(leaf) => leaf,
        None => {
            return Err(DiscoveryRejection::InvalidPath);
        },
    };
    if editor_asset(profile, path, leaf.as_str(), around.home.as_str(), &around.runtime_roots) {
        return Err(DiscoveryRejection::VimAsset);
    }
    if editor_temporary(profile, leaf.as_str()) {
        return Err(DiscoveryRejection::VimTemporary);
    }
    if excluded(config, path, leaf.as_str()) {
        return Err(DiscoveryRejection::Excluded);
    }
    Ok(path.to_owned())
}

/// The tracked path that is a path, from `from` on, where the tracks' paths are as the file system
/// has them.
pub open spec fn place_of_track(canonical: Seq<Option<String>>, path: Seq<char>, from: int) -> Option<
    int,
>
    decreases canonical.len() - from,
{
    if from < 0 || from >= canonical.len() {
        None
    } else {
        match canonical[from] {
            Some(p) if same_path_text(p@, path) => Some(from),
            _ => place_of_track(canonical, path, from + 1),
        }
    }
}

/// The paths that are there.
pub open spec fn present_paths(canonical: Seq<Option<String>>, n: int) -> Seq<Seq<char>>
    decreases n,
{
    if n <= 0 {
        Seq::empty()
    } else {
        match canonical[n - 1] {
            Some(p) => present_paths(canonical, n - 1).push(p@),
            None => present_paths(canonical, n - 1),
        }
    }
}

/// The tracks after a probe, and the file that is to be tracked newly.
pub open spec fn considered(
    config: ConfigView,
    profile: DiscoveryProfile,
    around: Surroundings,
    tracks: Seq<TrackView>,
    canonical: Seq<Option<String>>,
    probe: Probe,
    created: bool,
) -> (Seq<TrackView>, Option<Seq<char>>) {
    match probe.canonical {
        Some(path) if probe.is_file => match place_of_track(canonical, path@, 0) {
            Some(i) => (tracks.update(i, promoted(tracks[i], created)), None),
            None => match candidate(
                config,
                profile,
                around,
                present_paths(canonical, canonical.len() as int),
                probe,
            ) {
                Ok(p) => (tracks, Some(p)),
                Err(_) => (tracks, None),
            },
        },
        _ => (tracks, None),
    }
}

impl Replicate for Track {
    fn replicate(&self) -> (r: Self) {
        Track {
            path: self.path.clone(),
            leaf: self.leaf.clone(),
            baseline: copy_bytes(&self.baseline),
            observed: match &self.observed {
                Some(o) => Some(copy_bytes(o)),
                None => None,
            },
            published: self.published,
        }
    }
}

/// Takes in a probe: a file that is tracked already is promoted where it was created; another one
/// is to be tracked, and named, where nothing speaks against it. `canonical` holds the path of
/// each track as the file system has it.
pub fn consider_target(
    config: &Config,
    profile: DiscoveryProfile,
    around: &Surroundings,
    tracks: &mut Vec<Track>,
    canonical: &Vec<Option<String>>,
    probe: &Probe,
    created: bool,
) -> (r: Option<String>)
    requires
        canonical@.len() == old(tracks)@.len(),
    ensures
        (all_views(final(tracks)@), opt_view(r)) == considered(
            config@,
            profile,
            *around,
            all_views(old(tracks)@),
            canonical@,
            *probe,
            created,
        ),
{
    let ghost before = all_views(tracks@);
    let path: &str = match &probe.canonical {
        Some(p) => p.as_str(),
        None => {
            return None;
        },
    };
    if !probe.is_file {
        return None;
    }
    let mut watched: Vec<String> = Vec::new();
    let mut i: usize = 0;
    assert(views(watched@) =~= Seq::empty());
    while i < canonical.len()
        invariant
            i <= canonical.len(),
            canonical@.len() == tracks@.len(),
            before == all_views(tracks@),
            tracks@ == old(tracks)@,
            path@ == probe.canonical->0@,
            probe.canonical is Some,
            probe.is_file,
            views(watched@) == present_paths(canonical@, i as int),
            place_of_track(canonical@, path@, 0) == place_of_track(canonical@, path@, i as int),
        decreases canonical.len() - i,
    {
        match &canonical[i] {
            Some(p) => {
                if same_path(p.as_str(), path) {
                    let mut track: Track = tracks[i].replicate();
                    assert(track@ == before[i as int]);
                    track.promote(created);
                    let ghost now = track@;
                    tracks.set(i, track);
                    assert(all_views(tracks@) =~= before.update(i as int, now));
                    return None;
                }
                let ghost had = watched@;
                watched.push(p.clone());
                assert(views(watched@) =~= views(had).push(p@));
            },
            None => {},
        }
        i += 1;
    }
    match profiled_discovery_candidate(config, profile, around, &watched, probe) {
        Ok(p) => Some(p),
        Err(_) => None,
    }
}

/// A track of a file that was discovered with a content: where it was created, all of it is new.
pub fn discovered_track(path: &str, content: Vec<u8>, created: bool) -> (r: Option<Track>)
    ensures
        match file_name_of(path@) {
            Some(leaf) => r matches Some(t) && t@ == new_track_view(
                path@,
                leaf,
                if created {
                    Seq::empty()
                } else {
                    content@
                },
            ),
            None => r is None,
        },
{
    match file_name(path) {
        Some(leaf) => {
            if created {
                let empty: Vec<u8> = Vec::new();
                assert(empty@ =~= Seq::empty());
                Some(Track::new(path, leaf.as_str(), empty))
            } else {
                Some(Track::new(path, leaf.as_str(), content))
            }
        },
        None => None,
    }
}

/// Whether it is time to look at what the editor has open: it was never looked at, or at least as
/// long ago as the pause between two looks is.
pub fn look_is_due(elapsed: Option<u64>, pause: u64) -> (r: bool)
    ensures
        r == match elapsed {
            Some(e) => e >= pause,
            None => true,
        },
{
    match elapsed {
        Some(e) => e >= pause,
        None => true,
    }
}

/// How long a session pauses between two rounds: as long as between two looks at its tracks, or
/// between two looks at what the editor has open where that is shorter and is looked at.
pub fn session_pause(poll: u64, look: Option<u64>) -> (r: u64)
    ensures
        r == match look {
            Some(l) => if l < poll {
                l
            } else {
                poll
            },
            None => poll,
        },
{
    match look {
        Some(l) => if l < poll {
            l
        } else {
            poll
        },
        None => poll,
    }
}

/// Whether the name of a descriptor is that of a file that an editor may have opened.
pub fn discoverable_fd_name(name: &str) -> (r: bool)
    ensures
        r == !(name@ == "0"@ || name@ == "1"@ || name@ == "2"@),
{
    !(same(name, "0") || same(name, "1") || same(name, "2"))
}

/// Where the line that holds position `from` ends.
pub open spec fn line_end(bytes: Seq<u8>, from: int) -> int
    decreases bytes.len() - from,
{
    if from < 0 || from >= bytes.len() || bytes[from] == 10 {
        from
    } else {
        line_end(bytes, from + 1)
    }
}

/// Whether a field names a descriptor beyond the standard ones.
pub open spec fn is_open_descriptor(value: Seq<u8>) -> bool {
    valid_utf8(value) && (match parsed(decode_utf8(value), u32::MAX as nat) {
        Some(n) => n > 2,
        None => false,
    })
}

/// What reading machine output of `lsof` has come to: whether a name counts, and the paths so far.
pub open spec fn after_record(line: Seq<u8>, accept: bool, paths: Seq<Seq<char>>) -> (
    bool,
    Seq<Seq<char>>,
) {
    if line.len() == 0 {
        (accept, paths)
    } else {
        let value = line.subrange(1, line.len() as int);
        if line[0] == 102 {
            (is_open_descriptor(value), paths)
        } else if line[0] == 110 && accept && value.len() > 0 && value[0] == 47 {
            if is_among(raw_text(value), paths) {
                (false, paths)
            } else {
                (false, paths.push(raw_text(value)))
            }
        } else if line[0] == 112 {
            (false, paths)
        } else {
            (accept, paths)
        }
    }
}

/// The paths in machine output of `lsof` from `from` on, behind those so far.
pub open spec fn lsof_paths(bytes: Seq<u8>, from: int, accept: bool, paths: Seq<Seq<char>>) -> Seq<
    Seq<char>,
>
    decreases bytes.len() - from + 1,
{
    if from < 0 || from >= bytes.len() {
        paths
    } else {
        let end = line_end(bytes, from);
        if end < from || end > bytes.len() {
            paths
        } else {
            let after = after_record(bytes.subrange(from, end), accept, paths);
            lsof_paths(bytes, end + 1, after.0, after.1)
        }
    }
}

proof fn lemma_line_end(bytes: Seq<u8>, from: int)
    requires
        0 <= from <= bytes.len(),
    ensures
        from <= line_end(bytes, from) <= bytes.len(),
    decreases bytes.len() - from,
{
    if from < bytes.len() && bytes[from] != 10 {
        lemma_line_end(bytes, from + 1);
    }
}

fn byte_range(bytes: &Vec<u8>, from: usize, to: usize) -> (r: Vec<u8>)
    requires
        from <= to <= bytes@.len(),
    ensures
        r@ == bytes@.subrange(from as int, to as int),
{
    let mut out: Vec<u8> = Vec::new();
    let mut i: usize = from;
    while i < to
        invariant
            from <= i <= to <= bytes@.len(),
            out@ == bytes@.subrange(from as int, i as int),
        decreases to - i,
    {
        out.push(bytes[i]);
        assert(bytes@.subrange(from as int, i + 1) =~= bytes@.subrange(from as int, i as int).push(
            bytes@[i as int],
        ));
        i += 1;
    }
    out
}

fn opens_descriptor(value: Vec<u8>) -> (r: bool)
    ensures
        r == is_open_descriptor(value@),
{
    match decode(value) {
        Ok(text) => match parse_bounded(text.as_str(), u32::MAX as u64) {
            Some(n) => n > 2,
            None => false,
        },
        Err(_) => false,
    }
}

/// The paths of the files that machine output of `lsof` says are open, each once, with one
/// character for each byte.
pub fn parse_lsof_paths(output: &Vec<u8>) -> (r: Vec<String>)
    ensures
        views(r@) == lsof_paths(output@, 0, false, Seq::empty()),
{
    let ghost all = lsof_paths(output@, 0, false, Seq::empty());
    let mut paths: Vec<String> = Vec::new();
    let mut accept_name: bool = false;
    let mut i: usize = 0;
    assert(views(paths@) =~= Seq::empty());
    while i < output.len()
        invariant
            i <= output.len(),
            lsof_paths(output@, i as int, accept_name, views(paths@)) == all,
        decreases output.len() - i,
    {
        proof {
            lemma_line_end(output@, i as int);
        }
        let start: usize = i;
        let mut end: usize = i;
        while end < output.len() && output[end] != 10
            invariant
                start <= end <= output.len(),
                line_end(output@, start as int) == line_end(output@, end as int),
            decreases output.len() - end,
        {
            end += 1;
        }
        let ghost had = paths@;
        let ghost line = output@.subrange(start as int, end as int);
        let ghost accepted = accept_name;
        if end > start {
            let value: Vec<u8> = byte_range(output, start + 1, end);
            assert(value@ =~= line.subrange(1, line.len() as int));
            assert(line[0] == output@[start as int]);
            let field: u8 = output[start];
            if field == 102 {
                accept_name = opens_descriptor(value);
            } else if field == 110 && accept_name && value.len() > 0 && value[0] == 47 {
                let path: String = raw(&value);
                if !among(path.as_str(), &paths) {
                    let ghost text = path@;
                    paths.push(path);
                    assert(views(paths@) =~= views(had).push(text));
                }
                accept_name = false;
            } else if field == 112 {
                accept_name = false;
            }
        }
        assert((accept_name, views(paths@)) == after_record(line, accepted, views(had)));
        assert(line_end(output@, start as int) == end);
        assert(lsof_paths(output@, start as int, accepted, views(had)) == lsof_paths(
            output@,
            end + 1,
            accept_name,
            views(paths@),
        ));
        if end < output.len() {
            i = end + 1;
        } else {
            i = end;
        }
    }
    paths
}

/// What a run of `lsof` gives.
pub fn lsof_result(succeeded: bool, status: &str, output: &Vec<u8>) -> (r: Result<Vec<String>, Failure>)
    ensures
        if succeeded {
            r matches Ok(v) && views(v@) == lsof_paths(output@, 0, false, Seq::empty())
        } else {
            r matches Err(f) && f@ == fails(FailureKind::Other, "lsof exited with "@ + status@)
        },
{
    if succeeded {
        Ok(parse_lsof_paths(output))
    } else {
        let mut message: String = "lsof exited with ".to_owned();
        message.append(status);
        Err(Failure { kind: FailureKind::Other, message })
    }
}

/// The lines from `from` on, each with a line feed behind it.
pub open spec fn lines_text(lines: Seq<Seq<char>>, from: int) -> Seq<char>
    decreases lines.len() - from,
{
    if from < 0 || from >= lines.len() {
        Seq::empty()
    } else {
        lines[from] + "\n"@ + lines_text(lines, from + 1)
    }
}

/// The last lines of a text.
pub open spec fn last_lines(text: Seq<char>, count: nat) -> Seq<char> {
    let all = line_seq(text);
    lines_text(
        all,
        if all.len() > count {
            all.len() - count
        } else {
            0
        },
    )
}

/// The end of the output of `diff`.
pub open spec fn tail_of_diff(code: Option<i32>, stdout: Seq<u8>, tail_lines: nat) -> Seq<char> {
    if code == Some(0i32) || code == Some(1i32) {
        last_lines(lossy_text(stdout), tail_lines)
    } else {
        Seq::empty()
    }
}

/// The last lines of a text.
pub fn text_tail(text: &str, count: usize) -> (r: String)
    ensures
        r@ == last_lines(text@, count as nat),
{
    let all: Vec<String> = lines(text);
    let ghost a = line_seq(text@);
    assert(a.len() == all@.len());
    let start: usize = if all.len() > count {
        all.len() - count
    } else {
        0
    };
    let mut out: String = String::new();
    let mut i: usize = start;
    assert(out@ + lines_text(a, start as int) =~= lines_text(a, start as int));
    while i < all.len()
        invariant
            start <= i <= all.len(),
            a == views(all@),
            out@ + lines_text(a, i as int) == lines_text(a, start as int),
        decreases all.len() - i,
    {
        let ghost before = out@;
        assert(a[i as int] == all@[i as int]@);
        out.append(all[i].as_str());
        out.append("\n");
        assert(out@ + lines_text(a, i + 1) =~= before + lines_text(a, i as int));
        i += 1;
    }
    assert(out@ + Seq::empty() =~= out@);
    out
}

/// The end of the output of `diff`: its last lines.
pub fn diff_tail(code: Option<i32>, stdout: &Vec<u8>, tail_lines: usize) -> (r: String)
    ensures
        r@ == tail_of_diff(code, stdout@, tail_lines as nat),
{
    let good: bool = match code {
        Some(n) => n == 0 || n == 1,
        None => false,
    };
    if !good {
        return String::new();
    }
    text_tail(lossy(stdout).as_str(), tail_lines)
}

/// The alias that a transparent session runs for.
pub fn transparent_alias(name: &str) -> (r: Result<EditorAlias, Failure>)
    ensures
        match alias_of(name@) {
            Some(a) if a.supported => r matches Ok(x) && x@ == a,
            _ => r matches Err(f) && f@ == fails(
                FailureKind::InvalidInput,
                "bedit: unsupported editor alias: "@ + name@,
            ),
        },
{
    match alias(name) {
        Some(a) => if a.supported {
            return Ok(a);
        },
        None => {},
    }
    let mut message: String = "bedit: unsupported editor alias: ".to_owned();
    message.append(name);
    Err(Failure { kind: FailureKind::InvalidInput, message })
}

/// The profile by which a session discovers files: on Linux that of the alias's family, or else
/// that of the wrapper; on macOS that of the wrapper; elsewhere none.
pub fn session_profile(
    linux: bool,
    macos: bool,
    family: Option<EditorFamily>,
    wrapper: &str,
) -> (r: Option<DiscoveryProfile>)
    ensures
        linux && family is None ==> r == wrapper_profile(wrapper@),
        family matches Some(f) ==> linux ==> r == match f {
            EditorFamily::Vim => Some(DiscoveryProfile::Vim),
            EditorFamily::Neovim => Some(DiscoveryProfile::Neovim),
            EditorFamily::Nano => Some(DiscoveryProfile::Nano),
            EditorFamily::Emacs => Some(DiscoveryProfile::Emacs),
            _ => if macos {
                wrapper_profile(wrapper@)
            } else {
                None
            },
        },
        !linux ==> r == if macos {
            wrapper_profile(wrapper@)
        } else {
            None
        },
{
    if linux {
        let found: Option<DiscoveryProfile> = match family {
            Some(f) => family_discovery_profile(f),
            None => discovery_profile(wrapper),
        };
        if found.is_some() {
            return found;
        }
    }
    if macos {
        discovery_profile(wrapper)
    } else {
        None
    }
}

/// The code that a session ends with: that of a signal that it got, else that of the editor.
pub fn session_exit_code(signal: i32, editor: Option<i32>) -> (r: i32)
    requires
        signal <= i32::MAX - 128,
    ensures
        r == if signal > 0 {
            128 + signal
        } else {
            match editor {
                Some(code) => code as int,
                None => 0,
            }
        },
{
    if signal > 0 {
        128 + signal
    } else {
        match editor {
            Some(code) => code,
            None => 0,
        }
    }
}

proof fn lemma_arguments_behind(
    wrapper: Seq<char>,
    front: Seq<Seq<char>>,
    args: Seq<Seq<char>>,
    from: int,
    is_value: bool,
)
    requires
        0 <= from <= args.len(),
    ensures
        file_arguments(wrapper, front + args, front.len() + from, is_value) == file_arguments(
            wrapper,
            args,
            from,
            is_value,
        ),
    decreases args.len() - from,
{
    if from < args.len() {
        assert((front + args)[front.len() + from] == args[from]);
        lemma_arguments_behind(wrapper, front, args, from + 1, false);
        lemma_arguments_behind(wrapper, front, args, from + 1, true);
    }
}

/// A name among the arguments of an editor is a target, and so are those behind it; an option, and
/// the value behind one that takes a value, are none, and change nothing of what stands behind
/// them.
pub proof fn law_targets_are_the_names(
    wrapper: Seq<char>,
    arg: Seq<char>,
    value: Seq<char>,
    args: Seq<Seq<char>>,
)
    ensures
        ({
            let rest = file_arguments(wrapper, args, 0, false);
            let all = file_arguments(wrapper, seq![arg] + args, 0, false);
            let behind = file_arguments(wrapper, seq![arg, value] + args, 0, false);
            &&& arg.len() == 0 || (arg[0] != '-' && arg[0] != '+') ==> all == seq![arg] + rest
            &&& arg.len() > 0 && arg[0] == '+' ==> all == rest
            &&& arg.len() > 0 && arg[0] == '-' && !takes_value(wrapper, arg) ==> all == rest
            &&& arg.len() > 0 && arg[0] == '-' && takes_value(wrapper, arg) ==> behind == rest
        }),
        file_arguments(wrapper, Seq::empty(), 0, false) == Seq::<Seq<char>>::empty(),
{
    reveal_strlit("--");
    reveal_strlit("-");
    reveal_strlit("+");
    lemma_value_options(wrapper, arg);
    lemma_arguments_behind(wrapper, seq![arg], args, 0, false);
    lemma_arguments_behind(wrapper, seq![arg], args, 0, true);
    lemma_arguments_behind(wrapper, seq![arg, value], args, 0, false);
    let (one, two) = (seq![arg] + args, seq![arg, value] + args);
    assert(one[0] == arg && two[0] == arg && two[1] == value);
    if arg.len() > 0 {
        assert(arg.subrange(0, 1) =~= seq![arg[0]]);
        assert("-"@ =~= seq!['-'] && "+"@ =~= seq!['+']);
        assert(seq![arg[0]] == seq!['-'] ==> seq![arg[0]][0] == seq!['-'][0]);
        assert(seq![arg[0]] == seq!['+'] ==> seq![arg[0]][0] == seq!['+'][0]);
        if arg == "--"@ {
            assert(arg[0] == '-');
        }
    }
    reveal_with_fuel(file_arguments, 3);
}

proof fn lemma_value_options(wrapper: Seq<char>, arg: Seq<char>)
    ensures
        takes_value(wrapper, arg) ==> arg.len() > 0 && arg[0] == '-',
        arg == "--"@ ==> !takes_value(wrapper, arg),
{
    reveal_strlit("--");
    reveal_strlit("-t");
    reveal_strlit("-T");
    reveal_strlit("-u");
    reveal_strlit("-U");
    reveal_strlit("-i");
    reveal_strlit("-p");
    reveal_strlit("-c");
    reveal_strlit("-S");
    reveal_strlit("-o");
    reveal_strlit("-O");
    reveal_strlit("--eval");
    reveal_strlit("--execute");
    if arg == "--"@ {
        assert(arg[1] == '-' && arg.len() == 2);
        assert("-t"@[1] == 't' && "-T"@[1] == 'T' && "-u"@[1] == 'u' && "-U"@[1] == 'U' && "-i"@[1]
            == 'i' && "-p"@[1] == 'p' && "-c"@[1] == 'c' && "-S"@[1] == 'S' && "-o"@[1] == 'o'
            && "-O"@[1] == 'O');
        assert("--eval"@.len() == 6 && "--execute"@.len() == 9);
    }
}

/// An option of two characters takes a value exactly where its letter is one of these; of the
/// longer ones only two of one editor do.
pub proof fn law_options_that_take_a_value(wrapper: Seq<char>, arg: Seq<char>)
    ensures
        arg.len() == 2 && arg[0] == '-' ==> (takes_value(wrapper, arg) <==> "tTuUipcSoO"@.contains(
            arg[1],
        )),
        arg.len() != 2 ==> (takes_value(wrapper, arg) <==> wrapper == "bemacs"@ && (arg
            == "--eval"@ || arg == "--execute"@)),
        takes_value(wrapper, arg) ==> arg.len() > 0 && arg[0] == '-',
{
    lemma_value_options(wrapper, arg);
    reveal_strlit("tTuUipcSoO");
    reveal_strlit("-t");
    reveal_strlit("-T");
    reveal_strlit("-u");
    reveal_strlit("-U");
    reveal_strlit("-i");
    reveal_strlit("-p");
    reveal_strlit("-c");
    reveal_strlit("-S");
    reveal_strlit("-o");
    reveal_strlit("-O");
    reveal_strlit("--eval");
    reveal_strlit("--execute");
    let letters = "tTuUipcSoO"@;
    if arg.len() == 2 && arg[0] == '-' {
        assert(arg =~= seq!['-', arg[1]]);
        assert("-t"@ =~= seq!['-', letters[0]] && "-T"@ =~= seq!['-', letters[1]] && "-u"@ =~= seq![
            '-',
            letters[2],
        ] && "-U"@ =~= seq!['-', letters[3]] && "-i"@ =~= seq!['-', letters[4]] && "-p"@ =~= seq![
            '-',
            letters[5],
        ] && "-c"@ =~= seq!['-', letters[6]] && "-S"@ =~= seq!['-', letters[7]] && "-o"@ =~= seq![
            '-',
            letters[8],
        ] && "-O"@ =~= seq!['-', letters[9]]);
        if takes_value(wrapper, arg) {
            assert(exists|i: int| 0 <= i < 10 && #[trigger] letters[i] == arg[1]);
        }
        if letters.contains(arg[1]) {
            let i = choose|i: int| 0 <= i < letters.len() && letters[i] == arg[1];
            assert(takes_value(wrapper, arg));
        }
    }
}

/// Every name among the arguments that does not stand behind an option which takes a value is a
/// target. The targets are arguments, none of them begins like an option, and they keep the order
/// that the arguments have; names without an option among them are all targets.
pub proof fn law_no_named_file_is_passed_over(wrapper: Seq<char>, args: Seq<Seq<char>>) -> (places:
    Seq<int>)
    ensures
        ({
            let targets = file_arguments(wrapper, args, 0, false);
            &&& targets.len() == places.len()
            &&& forall|i: int, j: int| 0 <= i < j < places.len() ==> places[i] < places[j]
            &&& forall|i: int|
                0 <= i < places.len() ==> 0 <= #[trigger] places[i] < args.len() && targets[i]
                    == args[places[i]] && (targets[i].len() == 0 || (targets[i][0] != '-'
                    && targets[i][0] != '+'))
            &&& forall|k: int|
                0 <= k < args.len() && ((#[trigger] args[k]).len() == 0 || (args[k][0] != '-'
                    && args[k][0] != '+')) && (k == 0 || !takes_value(wrapper, args[k - 1]))
                    ==> places.contains(k)
            &&& (forall|k: int|
                0 <= k < args.len() ==> (#[trigger] args[k]).len() == 0 || (args[k][0] != '-'
                    && args[k][0] != '+')) ==> targets == args
        }),
{
    let places = lemma_target_places(wrapper, args, 0, false);
    if forall|k: int|
        0 <= k < args.len() ==> (#[trigger] args[k]).len() == 0 || (args[k][0] != '-' && args[k][0]
            != '+') {
        assert forall|k: int| 0 <= k < args.len() implies places.contains(k) by {
            if k > 0 {
                lemma_value_options(wrapper, args[k - 1]);
            }
            assert(args[k].len() == 0 || (args[k][0] != '-' && args[k][0] != '+'));
        }
        lemma_all_places(places, args.len() as int);
        let targets = file_arguments(wrapper, args, 0, false);
        assert forall|i: int| 0 <= i < args.len() implies targets[i] == args[i] by {
            assert(places[i] == i);
        }
        assert(file_arguments(wrapper, args, 0, false) =~= args);
    }
    places
}

proof fn lemma_all_places(places: Seq<int>, n: int)
    requires
        0 <= n,
        forall|i: int, j: int| 0 <= i < j < places.len() ==> places[i] < places[j],
        forall|i: int| 0 <= i < places.len() ==> 0 <= #[trigger] places[i] < n,
        forall|k: int| 0 <= k < n ==> places.contains(k),
    ensures
        places.len() == n,
        forall|i: int| 0 <= i < n ==> places[i] == i,
    decreases n,
{
    if n == 0 {
        if places.len() > 0 {
            let first = places[0];
            assert(0 <= first < n);
        }
    } else {
        assert(places.contains(n - 1));
        let at = choose|at: int| 0 <= at < places.len() && places[at] == n - 1;
        if at < places.len() - 1 {
            assert(places[at] < places[at + 1]);
        }
        let front = places.drop_last();
        assert forall|k: int| 0 <= k < n - 1 implies front.contains(k) by {
            assert(places.contains(k));
            let i = choose|i: int| 0 <= i < places.len() && places[i] == k;
            assert(front[i] == k);
        }
        assert forall|i: int| 0 <= i < front.len() implies 0 <= #[trigger] front[i] < n - 1 by {
            assert(places[i] < places[at]);
        }
        lemma_all_places(front, n - 1);
        assert forall|i: int| 0 <= i < n implies places[i] == i by {
            if i < n - 1 {
                assert(places[i] == front[i]);
            } else {
                assert(at == places.len() - 1);
            }
        }
    }
}

proof fn lemma_target_places(
    wrapper: Seq<char>,
    args: Seq<Seq<char>>,
    from: int,
    is_value: bool,
) -> (places: Seq<int>)
    requires
        0 <= from <= args.len(),
    ensures
        ({
            let targets = file_arguments(wrapper, args, from, is_value);
            &&& targets.len() == places.len()
            &&& forall|i: int, j: int| 0 <= i < j < places.len() ==> places[i] < places[j]
            &&& forall|i: int|
                0 <= i < places.len() ==> from <= #[trigger] places[i] < args.len() && targets[i]
                    == args[places[i]] && (targets[i].len() == 0 || (targets[i][0] != '-'
                    && targets[i][0] != '+'))
            &&& forall|k: int|
                from <= k < args.len() && ((#[trigger] args[k]).len() == 0 || (args[k][0] != '-'
                    && args[k][0] != '+')) && (if k == from {
                    !is_value
                } else {
                    !takes_value(wrapper, args[k - 1])
                }) ==> places.contains(k)
        }),
    decreases args.len() - from,
{
    if from >= args.len() {
        Seq::empty()
    } else {
        let arg = args[from];
        reveal_strlit("--");
        reveal_strlit("-");
        reveal_strlit("+");
        lemma_value_options(wrapper, arg);
        if arg.len() > 0 {
            assert(arg.subrange(0, 1) =~= seq![arg[0]]);
            assert("-"@ =~= seq!['-'] && "+"@ =~= seq!['+']);
            assert(seq![arg[0]] == seq!['-'] ==> seq![arg[0]][0] == seq!['-'][0]);
            assert(seq![arg[0]] == seq!['+'] ==> seq![arg[0]][0] == seq!['+'][0]);
            if arg == "--"@ {
                assert(arg[0] == '-');
            }
        }
        let plain = arg.len() == 0 || (arg[0] != '-' && arg[0] != '+');
        if !is_value && plain {
            let rest = lemma_target_places(wrapper, args, from + 1, false);
            let places = seq![from] + rest;
            assert forall|k: int|
                from <= k < args.len() && ((#[trigger] args[k]).len() == 0 || (args[k][0] != '-'
                    && args[k][0] != '+')) && (if k == from {
                    !is_value
                } else {
                    !takes_value(wrapper, args[k - 1])
                }) implies places.contains(k) by {
                if k == from {
                    assert(places[0] == k);
                } else {
                    assert(rest.contains(k));
                    let i = choose|i: int| 0 <= i < rest.len() && rest[i] == k;
                    assert(places[i + 1] == k);
                }
            }
            places
        } else {
            let value = !is_value && takes_value(wrapper, arg);
            assert(file_arguments(wrapper, args, from, is_value) == file_arguments(
                wrapper,
                args,
                from + 1,
                value,
            ));
            lemma_target_places(wrapper, args, from + 1, value)
        }
    }
}

/// A pattern without a star matches itself alone. One with a star matches what begins with the text
/// in front of its first star and ends with the text behind it.
pub proof fn law_star_stands_for_any_text(left: Seq<char>, right: Seq<char>, value: Seq<char>)
    requires
        forall|i: int| 0 <= i < left.len() ==> #[trigger] left[i] != '*',
    ensures
        matches_pattern(left, value) <==> value == left,
        matches_pattern(left + seq!['*'] + right, value) <==> (exists|rest: Seq<char>|
            value == #[trigger] (left + rest)) && (exists|front: Seq<char>|
            value == #[trigger] (front + right)),
        matches_pattern(left + seq!['*'] + right, left + value + right),
{
    reveal_strlit("*");
    assert("*"@ =~= seq!['*']);
    lemma_ends_cleanly(left, "*"@);
    lemma_pieces_step(left, "*"@, right);
    assert(!occurs(left, "*"@)) by {
        if occurs(left, "*"@) {
            let i = choose|i: int| occurs_at(left, "*"@, i);
            assert(left.subrange(i, i + 1)[0] == '*');
        }
    }
    lemma_pieces_last(left, "*"@);
    law_occurrence_splits_a_text(value, left);
    law_occurrence_splits_a_text(value, right);
    let whole = left + value + right;
    law_occurrence_splits_a_text(whole, left);
    law_occurrence_splits_a_text(whole, right);
    assert(whole =~= left + (value + right));
    assert(begins_with(whole, left));
    assert(finishes_with(whole, right));
}

/// A file is left out where it lies in the repository, or where a pattern of the list, without the
/// spaces around it, matches its path or its name. An empty pattern matches nothing, and putting
/// one more pattern in front of a list adds what it matches and nothing else.
pub proof fn law_every_pattern_leaves_files_out(
    config: ConfigView,
    pattern: Seq<char>,
    path: Seq<char>,
    leaf: Seq<char>,
)
    requires
        forall|i: int| 0 <= i < pattern.len() ==> #[trigger] pattern[i] != ',',
    ensures
        is_within(path, config.root) ==> is_excluded(config, path, leaf),
        ({
            let longer = ConfigView { exclude: pattern + seq![','] + config.exclude, ..config };
            let single = ConfigView { exclude: pattern, ..config };
            let t = trimmed(pattern);
            let hit = t.len() > 0 && (matches_pattern(t, path) || matches_pattern(t, leaf));
            &&& is_excluded(longer, path, leaf) <==> hit || is_excluded(config, path, leaf)
            &&& is_excluded(single, path, leaf) <==> hit || is_within(path, config.root)
        }),
{
    reveal_strlit(",");
    assert(","@ =~= seq![',']);
    lemma_ends_cleanly(pattern, ","@);
    lemma_pieces_step(pattern, ","@, config.exclude);
    assert(!occurs(pattern, ","@)) by {
        if occurs(pattern, ","@) {
            let i = choose|i: int| occurs_at(pattern, ","@, i);
            assert(pattern.subrange(i, i + 1)[0] == ',');
        }
    }
    lemma_pieces_last(pattern, ","@);
    let longer = ConfigView { exclude: pattern + seq![','] + config.exclude, ..config };
    let single = ConfigView { exclude: pattern, ..config };
    let old_list = pieces(config.exclude, ","@);
    let new_list = pieces(longer.exclude, ","@);
    assert(new_list == seq![pattern] + old_list);
    assert(new_list[0] == pattern);
    let t = trimmed(pattern);
    let hit = t.len() > 0 && (matches_pattern(t, path) || matches_pattern(t, leaf));
    assert(exclusion_matches(longer.exclude, 0, path, leaf) == hit);
    assert(pieces(pattern, ","@)[0] == pattern);
    assert(exclusion_matches(pattern, 0, path, leaf) == hit);
    assert(single.exclude == pattern && pieces(single.exclude, ","@).len() == 1);
    assert(exclusion_matches(single.exclude, 0, path, leaf) == hit);
    assert forall|i: int| 0 <= i < old_list.len() implies #[trigger] exclusion_matches(
        config.exclude,
        i,
        path,
        leaf,
    ) == exclusion_matches(longer.exclude, i + 1, path, leaf) by {
        assert(new_list[i + 1] == old_list[i]);
    }
    if is_excluded(longer, path, leaf) && !is_within(path, config.root) && !hit {
        let i = choose|i: int|
            0 <= i < new_list.len() && #[trigger] exclusion_matches(longer.exclude, i, path, leaf);
        assert(exclusion_matches(config.exclude, i - 1, path, leaf));
    }
    if is_excluded(config, path, leaf) && !is_within(path, config.root) {
        let i = choose|i: int|
            0 <= i < old_list.len() && #[trigger] exclusion_matches(config.exclude, i, path, leaf);
        assert(exclusion_matches(longer.exclude, i + 1, path, leaf));
    }
    if is_excluded(single, path, leaf) && !is_within(path, config.root) {
        let i = choose|i: int|
            0 <= i < pieces(pattern, ","@).len() && #[trigger] exclusion_matches(
                pattern,
                i,
                path,
                leaf,
            );
        assert(i == 0);
    }
}

/// The editor behind a wrapper has the wrapper's name without its first letter, and there are four
/// of them. A wrapper is meant by its name, and by its name with a suffix.
pub proof fn law_wrapper_is_named_for_its_editor(wrapper: Seq<char>, program: Seq<char>)
    ensures
        wrapped_editor(wrapper) matches Some(e) ==> wrapper == seq!['b'] + e,
        wrapped_editor(wrapper) is Some <==> wrapper == "bed"@ || wrapper == "bvi"@ || wrapper
            == "bnvim"@ || wrapper == "bemacs"@,
        runs_as(program, wrapper) <==> program == wrapper || program == wrapper + "-rust"@,
{
    reveal_strlit("bed");
    reveal_strlit("ed");
    reveal_strlit("bvi");
    reveal_strlit("vi");
    reveal_strlit("bnvim");
    reveal_strlit("nvim");
    reveal_strlit("bemacs");
    reveal_strlit("emacs");
    assert("bed"@ =~= seq!['b'] + "ed"@);
    assert("bvi"@ =~= seq!['b'] + "vi"@);
    assert("bnvim"@ =~= seq!['b'] + "nvim"@);
    assert("bemacs"@ =~= seq!['b'] + "emacs"@);
}

/// A name is temporary where it ends with a tilde, or with one of the endings of temporary files and
/// locks in great or small letters, or where it begins as one; and so is the name of a swap file,
/// which ends with a dot, `sw` and a letter.
pub proof fn law_temporary_names(name: Seq<char>, front: Seq<char>, a: char, b: char, c: char)
    ensures
        is_temporary_name(front + seq!['~']),
        lowered(name) == ".tmp"@ || lowered(name) == ".temp"@ || lowered(name) == ".lock"@
            ==> is_temporary_name(front + name),
        is_temporary_name(".#"@ + name) && is_temporary_name(".tmp"@ + name),
        (a == 's' || a == 'S') && (b == 'w' || b == 'W') && ('a' <= c <= 'z' || 'A' <= c <= 'Z')
            ==> is_temporary_name(front + seq!['.', a, b, c]),
        is_temporary_name(name) ==> name.len() > 0 && (name[0] == '.' || name.last() == '~' || {
            let c = lowered(name).last();
            'a' <= c <= 'z'
        }),
{
    reveal_strlit("~");
    reveal_strlit(".tmp");
    reveal_strlit(".temp");
    reveal_strlit(".lock");
    reveal_strlit(".#");
    let tilde = front + seq!['~'];
    assert(tilde.subrange(tilde.len() - 1, tilde.len() as int) =~= "~"@);
    assert(finishes_with(tilde, "~"@));
    let whole = front + name;
    assert(lowered(whole) =~= lowered(front) + lowered(name));
    let n = lowered(name).len() as int;
    let low = lowered(whole);
    assert(low.subrange(low.len() - n, low.len() as int) =~= lowered(name));
    assert((".#"@ + name).subrange(0, 2) =~= ".#"@);
    assert((".tmp"@ + name).subrange(0, 4) =~= ".tmp"@);
    let swap = front + seq!['.', a, b, c];
    let k = front.len() as int;
    law_lowering_changes_great_letters(swap, k);
    law_lowering_changes_great_letters(swap, k + 1);
    law_lowering_changes_great_letters(swap, k + 2);
    law_lowering_changes_great_letters(swap, k + 3);
    assert(swap[k] == '.' && swap[k + 1] == a && swap[k + 2] == b && swap[k + 3] == c);
    if (a == 's' || a == 'S') && (b == 'w' || b == 'W') && ('a' <= c <= 'z' || 'A' <= c <= 'Z') {
        assert(is_swap_name(swap));
    }
    if is_temporary_name(name) {
        let lower = lowered(name);
        assert(lower.len() == name.len());
        let m = lower.len() as int;
        if finishes_with(name, "~"@) {
            assert(name.subrange(m - 1, m)[0] == '~');
        } else if finishes_with(lower, ".tmp"@) {
            assert(lower.subrange(m - 4, m)[3] == 'p');
        } else if finishes_with(lower, ".temp"@) {
            assert(lower.subrange(m - 5, m)[4] == 'p');
        } else if finishes_with(lower, ".lock"@) {
            assert(lower.subrange(m - 5, m)[4] == 'k');
        } else if begins_with(name, ".#"@) {
            assert(name.subrange(0, 2)[0] == '.');
        } else if begins_with(name, ".tmp"@) {
            assert(name.subrange(0, 4)[0] == '.');
        }
    }
}

/// A file that an editor has open is tracked exactly where nothing speaks against it: it is there, a
/// plain file with an absolute path, in no pseudo file system, not of the repository, not tracked
/// yet, neither the editor's own nor temporary, and not left out by the configuration. It is tracked
/// under its canonical path.
pub proof fn law_file_is_tracked_unless_something_speaks_against_it(
    config: ConfigView,
    profile: DiscoveryProfile,
    around: Surroundings,
    watched: Seq<Seq<char>>,
    probe: Probe,
)
    ensures
        match candidate(config, profile, around, watched, probe) {
            Ok(p) => {
                &&& probe.canonical matches Some(c) && c@ == p
                &&& probe.is_file && probe.target@.len() > 0 && probe.target@[0] == '/'
                &&& !finishes_with(probe.target@, " (deleted)"@)
                &&& !is_within(p, "/proc"@) && !is_within(p, "/sys"@) && !is_within(p, "/dev"@)
                    && !is_within(p, "/run"@)
                &&& forall|i: int|
                    0 <= i < around.repository@.len() ==> !is_within(
                        p,
                        (#[trigger] around.repository@[i])@,
                    )
                &&& forall|i: int|
                    0 <= i < watched.len() ==> components(#[trigger] watched[i]) != components(p)
                &&& around.macos ==> !is_macos_asset(p)
                &&& file_name_of(p) matches Some(leaf) && !is_editor_temporary(profile, leaf)
                    && !is_excluded(config, p, leaf) && !is_asset_name(profile, leaf)
            },
            Err(e) => {
                ||| finishes_with(probe.target@, " (deleted)"@)
                ||| !(probe.target@.len() > 0 && probe.target@[0] == '/')
                ||| !probe.is_file
                ||| probe.canonical is None
                ||| (probe.canonical matches Some(c) && ({
                    ||| is_within(c@, "/proc"@)
                    ||| is_within(c@, "/sys"@)
                    ||| is_within(c@, "/dev"@)
                    ||| is_within(c@, "/run"@)
                    ||| around.macos && is_macos_asset(c@)
                    ||| exists|i: int|
                        0 <= i < around.repository@.len() && is_within(
                            c@,
                            (#[trigger] around.repository@[i])@,
                        )
                    ||| exists|i: int|
                        0 <= i < watched.len() && components(#[trigger] watched[i]) == components(
                            c@,
                        )
                    ||| file_name_of(c@) is None
                    ||| file_name_of(c@) matches Some(leaf) && (is_asset(
                        profile,
                        c@,
                        leaf,
                        around.home@,
                        views(around.runtime_roots@),
                    ) || is_editor_temporary(profile, leaf) || is_excluded(config, c@, leaf))
                }))
            },
        },
{
    match probe.canonical {
        Some(c) => {
            let p = c@;
            let roots = pseudo_roots();
            assert(roots[0] == "/proc"@ && roots[1] == "/sys"@ && roots[2] == "/dev"@ && roots[3]
                == "/run"@);
            assert(below_any(p, roots) <==> is_within(p, "/proc"@) || is_within(p, "/sys"@)
                || is_within(p, "/dev"@) || is_within(p, "/run"@));
            let own = views(around.repository@);
            assert forall|i: int| 0 <= i < own.len() implies own[i]
                == (#[trigger] around.repository@[i])@ by {}
            assert(below_any(p, own) <==> exists|i: int|
                0 <= i < around.repository@.len() && is_within(
                    p,
                    (#[trigger] around.repository@[i])@,
                )) by {
                if below_any(p, own) {
                    let i = choose|i: int| 0 <= i < own.len() && is_within(p, #[trigger] own[i]);
                    assert(is_within(p, around.repository@[i]@));
                }
                if exists|i: int|
                    0 <= i < around.repository@.len() && is_within(
                        p,
                        (#[trigger] around.repository@[i])@,
                    ) {
                    let i = choose|i: int|
                        0 <= i < around.repository@.len() && is_within(
                            p,
                            (#[trigger] around.repository@[i])@,
                        );
                    assert(is_within(p, own[i]));
                }
            }
        },
        None => {},
    }
}

/// The tracked file of a path is the first with this canonical path, and there is none exactly where
/// no tracked file has it.
pub proof fn law_tracked_file_has_the_path(
    canonical: Seq<Option<String>>,
    path: Seq<char>,
    from: int,
)
    requires
        0 <= from,
    ensures
        match place_of_track(canonical, path, from) {
            Some(i) => from <= i < canonical.len() && (canonical[i] matches Some(p)
                && same_path_text(p@, path)) && forall|j: int|
                from <= j < i ==> !(#[trigger] canonical[j] matches Some(p) && same_path_text(
                    p@,
                    path,
                )),
            None => forall|j: int|
                from <= j < canonical.len() ==> !(#[trigger] canonical[j] matches Some(p)
                    && same_path_text(p@, path)),
        },
    decreases canonical.len() - from,
{
    if from < canonical.len() {
        match canonical[from] {
            Some(p) if same_path_text(p@, path) => {},
            _ => {
                law_tracked_file_has_the_path(canonical, path, from + 1);
            },
        }
    }
}

/// The known paths are exactly those of the tracked files that are there, in their order.
pub proof fn law_known_paths_are_those_of_the_tracked_files(
    canonical: Seq<Option<String>>,
    n: int,
)
    requires
        0 <= n <= canonical.len(),
    ensures
        present_paths(canonical, n) == canonical.take(n).filter(
            |c: Option<String>| c is Some,
        ).map(|i: int, c: Option<String>| c->Some_0@),
    decreases n,
{
    reveal(Seq::filter);
    let there = |c: Option<String>| c is Some;
    let text = |i: int, c: Option<String>| c->Some_0@;
    let kept = canonical.take(n).filter(there);
    if n > 0 {
        law_known_paths_are_those_of_the_tracked_files(canonical, n - 1);
        assert(canonical.take(n).drop_last() =~= canonical.take(n - 1));
        assert(canonical.take(n).last() == canonical[n - 1]);
        let before = canonical.take(n - 1).filter(there);
        if canonical[n - 1] is Some {
            assert(kept == before.push(canonical[n - 1]));
            assert(kept.map(text) =~= before.map(text).push(canonical[n - 1]->Some_0@));
        }
    } else {
        assert(kept.len() == 0);
        assert(kept.map(text) =~= Seq::<Seq<char>>::empty());
    }
}

/// A capture adds its revision to the file it is of, behind the earlier ones, and keeps the newest
/// difference; a file without an earlier capture is added. What is known of all other files stays,
/// and a warning is added behind the earlier ones.
pub proof fn law_capture_adds_a_revision(
    results: ResultsView,
    track: TrackView,
    revision: u64,
    diff: Seq<char>,
    fallback: bool,
    warning: Option<Seq<char>>,
)
    ensures
        ({
            let after = captured_view(results, track, revision, diff, fallback, warning);
            let (olds, news) = (results.files, after.files);
            let known = exists|i: int|
                0 <= i < olds.len() && components((#[trigger] olds[i]).path) == components(
                    track.path,
                );
            &&& news.len() == olds.len() + if known {
                0int
            } else {
                1int
            }
            &&& exists|k: int|
                #![trigger news[k]]
                {
                    &&& 0 <= k < news.len() && components(news[k].path) == components(track.path)
                    &&& news[k].last_diff == diff && news[k].revisions.len() > 0
                        && news[k].revisions.last() == revision
                    &&& k < olds.len() ==> news[k].revisions.drop_last() == olds[k].revisions
                        && news[k].leaf == olds[k].leaf && news[k].fallback_revisions == if fallback {
                        olds[k].fallback_revisions.push(revision)
                    } else {
                        olds[k].fallback_revisions
                    }
                    &&& k == olds.len() ==> news[k].revisions.len() == 1 && news[k].leaf == track.leaf
                        && news[k].fallback_revisions == if fallback {
                        seq![revision]
                    } else {
                        Seq::<u64>::empty()
                    }
                    &&& forall|j: int|
                        0 <= j < olds.len() && j != k ==> #[trigger] news[j] == olds[j]
                }
            &&& after.mirror_warnings == match warning {
                Some(w) => results.mirror_warnings + seq![track.leaf + ": "@ + w],
                None => results.mirror_warnings,
            }
        }),
{
    lemma_place_of_file(results.files, track.path, 0);
    let after = captured_view(results, track, revision, diff, fallback, warning);
    let (olds, news) = (results.files, after.files);
    match place_of_file(olds, track.path, 0) {
        Some(k) => {
            assert(olds[k].path == news[k].path);
            assert(news[k].revisions.drop_last() =~= olds[k].revisions);
        },
        None => {
            let k = olds.len() as int;
            assert(news[k].revisions =~= seq![revision]);
            assert(Seq::<u64>::empty().push(revision) =~= seq![revision]);
            assert(same_path_text(news[k].path, track.path));
        },
    }
    match warning {
        Some(w) => {
            assert(after.mirror_warnings =~= results.mirror_warnings + seq![
                track.leaf + ": "@ + w,
            ]);
        },
        None => {},
    }
}

proof fn lemma_place_of_file(files: Seq<FileResultView>, path: Seq<char>, from: int)
    requires
        0 <= from,
    ensures
        match place_of_file(files, path, from) {
            Some(i) => from <= i < files.len() && same_path_text(files[i].path, path),
            None => forall|j: int|
                from <= j < files.len() ==> !same_path_text((#[trigger] files[j]).path, path),
        },
    decreases files.len() - from,
{
    if from < files.len() && !same_path_text(files[from].path, path) {
        lemma_place_of_file(files, path, from + 1);
    }
}

proof fn lemma_reports_hold(files: Seq<FileResultView>, n: int, k: int)
    requires
        0 <= k < n <= files.len(),
    ensures
        forall|r: ReportView| #[trigger]
            file_report(files[k]).contains(r) ==> file_reports(files, n).contains(r),
    decreases n,
{
    assert forall|r: ReportView| #[trigger] file_report(files[k]).contains(r) implies file_reports(
        files,
        n,
    ).contains(r) by {
        let before = file_reports(files, n - 1);
        let last = file_report(files[n - 1]);
        if k < n - 1 {
            lemma_reports_hold(files, n - 1, k);
            let i = choose|i: int| 0 <= i < before.len() && before[i] == r;
            assert((before + last)[i] == r);
        } else {
            let i = choose|i: int| 0 <= i < last.len() && last[i] == r;
            assert((before + last)[before.len() + i] == r);
        }
    }
}

/// A session reports, of every file it captured, how many revisions there are, the revisions for
/// which no difference could be made, and the last difference; and it reports every warning.
pub proof fn law_session_reports_everything(results: ResultsView, k: int, w: int)
    requires
        0 <= k < results.files.len(),
    ensures
        ({
            let f = results.files[k];
            let report = session_report(results);
            &&& report.contains(
                (ReportView {
                    is_error: false,
                    text: f.leaf + ": "@ + decimal(f.revisions.len()) + if f.revisions.len() == 1 {
                        " revision captured\n"@
                    } else {
                        " revisions captured\n"@
                    },
                }),
            )
            &&& f.last_diff.len() > 0 ==> report.contains(
                (ReportView {
                    is_error: false,
                    text: "\n"@ + f.last_diff + if f.last_diff.last() == '\n' {
                        Seq::<char>::empty()
                    } else {
                        "\n"@
                    },
                }),
            )
            &&& f.fallback_revisions.len() > 0 ==> report.contains(
                (ReportView {
                    is_error: true,
                    text: "bedit: warning: diff failed for "@ + f.leaf
                        + "; preserved backup-only revision"@ + (if f.fallback_revisions.len()
                        == 1 {
                        " "@
                    } else {
                        "s "@
                    }) + joined(
                        Seq::new(
                            f.fallback_revisions.len(),
                            |i: int| decimal(f.fallback_revisions[i] as nat),
                        ),
                        ", "@,
                    ) + "\n"@,
                }),
            )
        }),
        0 <= w < results.mirror_warnings.len() ==> session_report(results).contains(
            (ReportView {
                is_error: true,
                text: "bedit: warning: "@ + results.mirror_warnings[w] + "\n"@,
            }),
        ),
{
    reveal_strlit(" revision");
    reveal_strlit(" captured\n");
    reveal_strlit(" revision captured\n");
    reveal_strlit(" revisions captured\n");
    reveal_strlit("s");
    reveal_strlit("s ");
    reveal_strlit(" ");
    let f = results.files[k];
    let keys = result_keys(results.files);
    law_sorting_keeps_items(results.files, keys);
    let files = sorted_by_key(results.files, keys);
    assert(results.files.contains(f));
    assert(files.contains(f));
    let at = choose|at: int| 0 <= at < files.len() && files[at] == f;
    let n = files.len() as int;
    lemma_reports_hold(files, n, at);
    let own = file_reports(files, n);
    let warnings = warning_reports(results.mirror_warnings);
    let all = session_report(results);
    let mine = file_report(f);
    assert forall|r: ReportView| #[trigger] mine.contains(r) implies all.contains(r) by {
        assert(own.contains(r));
        let i = choose|i: int| 0 <= i < own.len() && own[i] == r;
        assert(all[i] == r);
    }
    let end = if f.revisions.len() == 1 {
        " revision captured\n"@
    } else {
        " revisions captured\n"@
    };
    let head = f.leaf + ": "@ + decimal(f.revisions.len());
    assert(head + " revision"@ + plural(f.revisions.len()) + " captured\n"@ =~= head + end);
    assert(mine[0].text == head + end);
    assert(mine.contains(mine[0]));
    if f.fallback_revisions.len() > 0 {
        let front = "bedit: warning: diff failed for "@ + f.leaf
            + "; preserved backup-only revision"@;
        let middle = if f.fallback_revisions.len() == 1 {
            " "@
        } else {
            "s "@
        };
        assert(front + plural(f.fallback_revisions.len()) + " "@ =~= front + middle);
        assert(decimals(f.fallback_revisions) =~= Seq::new(
            f.fallback_revisions.len(),
            |i: int| decimal(f.fallback_revisions[i] as nat),
        ));
        assert(mine.contains(mine[1]));
    }
    if f.last_diff.len() > 0 {
        assert(mine.contains(mine.last()));
    }
    if 0 <= w < results.mirror_warnings.len() {
        assert(all[own.len() + w] == warnings[w]);
    }
}

proof fn lemma_lines_of_lines(lines: Seq<Seq<char>>, from: int)
    requires
        0 <= from <= lines.len(),
        forall|i: int|
            from <= i < lines.len() ==> one_line(#[trigger] lines[i]) && !(lines[i].len() > 0
                && lines[i].last() == '\r'),
    ensures
        line_seq(lines_text(lines, from)) == lines.subrange(from, lines.len() as int),
    decreases lines.len() - from,
{
    reveal_strlit("\n");
    let none = Seq::<char>::empty();
    if from == lines.len() {
        law_lines_end_at_line_feeds(none, none);
        assert(lines_text(lines, from) =~= none);
        assert(lines.subrange(from, from) =~= Seq::empty());
    } else {
        lemma_lines_of_lines(lines, from + 1);
        law_lines_end_at_line_feeds(lines[from], lines_text(lines, from + 1));
        assert("\n"@ =~= seq!['\n']);
        assert(lines.subrange(from, lines.len() as int) =~= seq![lines[from]] + lines.subrange(
            from + 1,
            lines.len() as int,
        ));
    }
}

/// The lines of the end of a text are the last lines of the text, as many as are asked for, or all
/// where there are no more.
pub proof fn law_end_holds_the_last_lines(text: Seq<char>, count: nat)
    requires
        forall|i: int|
            0 <= i < line_seq(text).len() ==> one_line(#[trigger] line_seq(text)[i]) && !(line_seq(
                text,
            )[i].len() > 0 && line_seq(text)[i].last() == '\r'),
    ensures
        ({
            let all = line_seq(text);
            line_seq(last_lines(text, count)) == if all.len() <= count {
                all
            } else {
                all.subrange(all.len() - count, all.len() as int)
            }
        }),
{
    let all = line_seq(text);
    let from = if all.len() > count {
        all.len() - count
    } else {
        0
    };
    lemma_lines_of_lines(all, from);
    assert(all.subrange(0, all.len() as int) =~= all);
}

proof fn lemma_line_ends(line: Seq<u8>, rest: Seq<u8>, from: int)
    requires
        forall|i: int| 0 <= i < line.len() ==> #[trigger] line[i] != 10,
        0 <= from <= line.len(),
    ensures
        line_end(line + seq![10u8] + rest, from) == line.len(),
    decreases line.len() - from,
{
    let whole = line + seq![10u8] + rest;
    if from < line.len() {
        assert(whole[from] == line[from]);
        lemma_line_ends(line, rest, from + 1);
    } else {
        assert(whole[from] == 10);
    }
}

proof fn lemma_line_end_behind(front: Seq<u8>, rest: Seq<u8>, from: int)
    requires
        0 <= from <= rest.len(),
    ensures
        line_end(front + rest, front.len() + from) == front.len() + line_end(rest, from),
        from <= line_end(rest, from) <= rest.len(),
    decreases rest.len() - from,
{
    let whole = front + rest;
    if from < rest.len() {
        assert(whole[front.len() + from] == rest[from]);
        if rest[from] != 10 {
            lemma_line_end_behind(front, rest, from + 1);
        }
    }
}

proof fn lemma_records_behind(
    front: Seq<u8>,
    rest: Seq<u8>,
    from: int,
    accept: bool,
    paths: Seq<Seq<char>>,
)
    requires
        0 <= from,
    ensures
        lsof_paths(front + rest, front.len() + from, accept, paths) == lsof_paths(
            rest,
            from,
            accept,
            paths,
        ),
    decreases rest.len() - from + 1,
{
    let whole = front + rest;
    let k = front.len() as int;
    if from < rest.len() {
        lemma_line_end_behind(front, rest, from);
        let end = line_end(rest, from);
        assert(whole.subrange(k + from, k + end) =~= rest.subrange(from, end));
        let after = after_record(rest.subrange(from, end), accept, paths);
        lemma_records_behind(front, rest, end + 1, after.0, after.1);
    }
}

proof fn lemma_first_record(line: Seq<u8>, rest: Seq<u8>, accept: bool, paths: Seq<Seq<char>>)
    requires
        forall|i: int| 0 <= i < line.len() ==> #[trigger] line[i] != 10,
    ensures
        lsof_paths(line + seq![10u8] + rest, 0, accept, paths) == lsof_paths(
            rest,
            0,
            after_record(line, accept, paths).0,
            after_record(line, accept, paths).1,
        ),
{
    let whole = line + seq![10u8] + rest;
    let n = line.len() as int;
    lemma_line_ends(line, rest, 0);
    assert(whole.subrange(0, n) =~= line);
    let front = line + seq![10u8];
    assert(front + rest =~= whole);
    let after = after_record(line, accept, paths);
    lemma_records_behind(front, rest, 0, after.0, after.1);
    assert(front.len() == n + 1);
}

/// The open files of a process are listed record by record: the file of each descriptor above the
/// three that every process has is found, if its name is an absolute path, and each path once; the
/// files of those three are passed over.
pub proof fn law_every_open_file_is_found(
    number: Seq<u8>,
    path: Seq<u8>,
    rest: Seq<u8>,
    accept: bool,
    paths: Seq<Seq<char>>,
)
    requires
        forall|i: int| 0 <= i < number.len() ==> #[trigger] number[i] != 10,
        forall|i: int| 0 <= i < path.len() ==> #[trigger] path[i] != 10,
        path.len() > 0,
    ensures
        ({
            let records = seq![102u8] + number + seq![10u8] + (seq![110u8] + path + seq![10u8]
                + rest);
            let is_open = valid_utf8(number) && (parsed(
                decode_utf8(number),
                u32::MAX as nat,
            ) matches Some(n) && n > 2);
            let known = exists|i: int|
                0 <= i < paths.len() && components(#[trigger] paths[i]) == components(
                    raw_text(path),
                );
            &&& is_open && path[0] == 47 && !known ==> lsof_paths(records, 0, accept, paths)
                == lsof_paths(rest, 0, false, paths.push(raw_text(path)))
            &&& is_open && path[0] == 47 && known ==> lsof_paths(records, 0, accept, paths)
                == lsof_paths(rest, 0, false, paths)
            &&& !is_open ==> lsof_paths(records, 0, accept, paths) == lsof_paths(
                rest,
                0,
                false,
                paths,
            )
        }),
        lsof_paths(seq![112u8] + number + seq![10u8] + rest, 0, accept, paths) == lsof_paths(
            rest,
            0,
            false,
            paths,
        ),
        lsof_paths(Seq::empty(), 0, accept, paths) == paths,
{
    let first = seq![102u8] + number;
    let second = seq![110u8] + path;
    let third = seq![112u8] + number;
    assert(first.subrange(1, first.len() as int) =~= number);
    assert(second.subrange(1, second.len() as int) =~= path);
    assert forall|i: int| 0 <= i < first.len() implies #[trigger] first[i] != 10 by {
        if i > 0 {
            assert(first[i] == number[i - 1]);
        }
    }
    assert forall|i: int| 0 <= i < third.len() implies #[trigger] third[i] != 10 by {
        if i > 0 {
            assert(third[i] == number[i - 1]);
        }
    }
    assert forall|i: int| 0 <= i < second.len() implies #[trigger] second[i] != 10 by {
        if i > 0 {
            assert(second[i] == path[i - 1]);
        }
    }
    lemma_first_record(first, second + seq![10u8] + rest, accept, paths);
    lemma_first_record(second, rest, is_open_descriptor(number), paths);
    lemma_first_record(third, rest, accept, paths);
    assert(second[0] == 110 && first[0] == 102 && third[0] == 112);
    assert(is_among(raw_text(path), paths) <==> exists|i: int|
        0 <= i < paths.len() && components(#[trigger] paths[i]) == components(raw_text(path))) by {
        if is_among(raw_text(path), paths) {
            let i = choose|i: int|
                0 <= i < paths.len() && same_path_text(#[trigger] paths[i], raw_text(path));
            assert(components(paths[i]) == components(raw_text(path)));
        }
        if exists|i: int|
            0 <= i < paths.len() && components(#[trigger] paths[i]) == components(raw_text(path)) {
            let i = choose|i: int|
                0 <= i < paths.len() && components(#[trigger] paths[i]) == components(
                    raw_text(path),
                );
            assert(same_path_text(paths[i], raw_text(path)));
        }
    }
}

/// A file that was seen is either tracked already, and then learns that it was made anew, or it is
/// handed on where nothing speaks against it. All other tracked files stay as they are.
pub proof fn law_seen_file_is_tracked_once(
    config: ConfigView,
    profile: DiscoveryProfile,
    around: Surroundings,
    tracks: Seq<TrackView>,
    canonical: Seq<Option<String>>,
    probe: Probe,
    created: bool,
    i: int,
)
    requires
        tracks.len() == canonical.len(),
        0 <= i < tracks.len(),
    ensures
        ({
            let (after, found) = considered(
                config,
                profile,
                around,
                tracks,
                canonical,
                probe,
                created,
            );
            let is_it = probe.is_file && (probe.canonical matches Some(p)
                && canonical[i] matches Some(c) && components(c@) == components(p@));
            &&& after.len() == tracks.len()
            &&& !is_it ==> after[i] == tracks[i]
            &&& !created || tracks[i].published ==> after[i] == tracks[i]
            &&& is_it ==> found is None
            &&& found matches Some(path) ==> (probe.canonical matches Some(p) && p@ == path)
                && probe.is_file && after == tracks
        }),
{
    match probe.canonical {
        Some(path) => {
            law_tracked_file_has_the_path(canonical, path@, 0);
            law_file_is_tracked_unless_something_speaks_against_it(
                config,
                profile,
                around,
                present_paths(canonical, canonical.len() as int),
                probe,
            );
        },
        None => {},
    }
}

/// The end of a difference is shown where the program that made it found the files alike or
/// different; where it failed nothing is shown.
pub proof fn law_end_of_a_difference(code: Option<i32>, stdout: Seq<u8>, lines: nat)
    ensures
        code == Some(0i32) || code == Some(1i32) ==> tail_of_diff(code, stdout, lines) == last_lines(
            lossy_text(stdout),
            lines,
        ),
        code != Some(0i32) && code != Some(1i32) ==> tail_of_diff(code, stdout, lines).len() == 0,
{
}

/// Discovery knows four editors by their wrappers.
pub proof fn law_profiles_of_the_wrappers(wrapper: Seq<char>)
    ensures
        wrapper_profile(wrapper) == Some(DiscoveryProfile::Vim) <==> wrapper == "bvi"@,
        wrapper_profile(wrapper) == Some(DiscoveryProfile::Neovim) <==> wrapper == "bnvim"@,
        wrapper_profile(wrapper) == Some(DiscoveryProfile::Nano) <==> wrapper == "bnano"@,
        wrapper_profile(wrapper) == Some(DiscoveryProfile::Emacs) <==> wrapper == "bemacs"@,
{
    reveal_strlit("bvi");
    reveal_strlit("bnvim");
    reveal_strlit("bnano");
    reveal_strlit("bemacs");
    assert("bvi"@.len() == 3 && "bnvim"@.len() == 5 && "bemacs"@.len() == 6);
    assert("bnvim"@[2] == 'v' && "bnano"@[2] == 'a');
}

/// A file that is named is taken from here, unless its path is absolute.
pub proof fn law_named_file_is_taken_from_here(arg: Seq<char>, cwd: Seq<char>)
    ensures
        arg.len() > 0 && arg[0] == '/' ==> full_path(arg, cwd) == arg,
        !(arg.len() > 0 && arg[0] == '/') ==> full_path(arg, cwd) == joined_path(cwd, arg),
{
}

/// What lies below the directories of an editor is its own, wherever in them it lies.
pub proof fn law_files_of_an_editor_are_its_own(
    path: Seq<char>,
    leaf: Seq<char>,
    home: Seq<char>,
    roots: Seq<Seq<char>>,
    k: int,
)
    ensures
        is_within(path, joined_path(home, ".vim"@)) || is_within(path, "/usr/share/vim"@)
            || is_within(path, "/etc/vim"@) ==> is_asset(
            DiscoveryProfile::Vim,
            path,
            leaf,
            home,
            roots,
        ),
        is_within(path, joined_path(home, ".config/nvim"@)) || is_within(
            path,
            joined_path(home, ".local/state/nvim"@),
        ) || is_within(path, "/usr/share/nvim"@) ==> is_asset(
            DiscoveryProfile::Neovim,
            path,
            leaf,
            home,
            roots,
        ),
        is_within(path, joined_path(home, ".emacs.d"@)) || is_within(
            path,
            joined_path(home, ".config/emacs"@),
        ) ==> is_asset(DiscoveryProfile::Emacs, path, leaf, home, roots),
        is_within(path, joined_path(home, ".config/nano"@)) ==> is_asset(
            DiscoveryProfile::Nano,
            path,
            leaf,
            home,
            roots,
        ),
        0 <= k < roots.len() && is_within(path, roots[k]) ==> is_asset(
            DiscoveryProfile::Vim,
            path,
            leaf,
            home,
            roots,
        ) && is_asset(DiscoveryProfile::Emacs, path, leaf, home, roots),
{
    let v = asset_roots(DiscoveryProfile::Vim, home);
    assert(v[0] == joined_path(home, ".vim"@) && v[3] == "/etc/vim"@ && v[4] == "/usr/share/vim"@);
    let n = asset_roots(DiscoveryProfile::Neovim, home);
    assert(n[0] == joined_path(home, ".config/nvim"@) && n[3] == joined_path(
        home,
        ".local/state/nvim"@,
    ) && n[5] == "/usr/share/nvim"@);
    let e = asset_roots(DiscoveryProfile::Emacs, home);
    assert(e[0] == joined_path(home, ".emacs.d"@) && e[1] == joined_path(home, ".config/emacs"@));
    let o = asset_roots(DiscoveryProfile::Nano, home);
    assert(o[0] == joined_path(home, ".config/nano"@));
}

/// A file that is tracked begins with what is known of it, and with nothing published.
pub proof fn law_new_track_knows_its_content(path: Seq<char>, leaf: Seq<char>, content: Seq<u8>)
    ensures
        ({
            let t = new_track_view(path, leaf, content);
            &&& t.path == path && t.leaf == leaf && t.baseline == content && t.observed == Some(
                content,
            ) && !t.published
        }),
{
}

/// The directory that an editor runs from is among its own where it is known, for the editors that
/// have one; those below the home directory are too.
pub proof fn law_runtime_directory_is_the_editors_own(home: Seq<char>, root: Seq<char>)
    ensures
        roots_of_profile(DiscoveryProfile::Vim, home, Some(root))[0] == root,
        roots_of_profile(DiscoveryProfile::Neovim, home, Some(root))[0] == root,
        roots_of_profile(DiscoveryProfile::Vim, home, None)[0] == joined_path(home, ".vim"@),
        roots_of_profile(DiscoveryProfile::Neovim, home, None)[0] == joined_path(
            home,
            ".config/nvim"@,
        ),
        roots_of_profile(DiscoveryProfile::Vim, home, Some(root)).len() == 3,
        roots_of_profile(DiscoveryProfile::Neovim, home, Some(root)).len() == 7,
        roots_of_profile(DiscoveryProfile::Emacs, home, Some(root)) == roots_of_profile(
            DiscoveryProfile::Emacs,
            home,
            None,
        ),
{
}

/// A path is below one of some directories exactly where it lies within one of them.
pub proof fn law_below_any_directory(path: Seq<char>, roots: Seq<Seq<char>>, root: Seq<char>)
    ensures
        below_any(path, roots.push(root)) <==> below_any(path, roots) || is_within(path, root),
        !below_any(path, Seq::empty()),
        is_among(path, roots.push(root)) <==> is_among(path, roots) || components(root)
            == components(path),
        !is_among(path, Seq::empty()),
{
    let more = roots.push(root);
    let n = roots.len() as int;
    assert(more[n] == root);
    if below_any(path, roots) {
        let i = choose|i: int| 0 <= i < roots.len() && is_within(path, #[trigger] roots[i]);
        assert(more[i] == roots[i]);
    }
    if below_any(path, more) {
        let i = choose|i: int| 0 <= i < more.len() && is_within(path, #[trigger] more[i]);
        if i < n {
            assert(more[i] == roots[i]);
        }
    }
    if is_among(path, roots) {
        let i = choose|i: int| 0 <= i < roots.len() && same_path_text(#[trigger] roots[i], path);
        assert(more[i] == roots[i]);
    }
    if is_among(path, more) {
        let i = choose|i: int| 0 <= i < more.len() && same_path_text(#[trigger] more[i], path);
        if i < n {
            assert(more[i] == roots[i]);
        }
    }
}

/// A file that changed is read once more before it is published, and every change is noticed: what
/// is read is compared with what was seen last as it stands. A file that cannot be read waits.
pub proof fn law_every_change_is_noticed(track: TrackView, first: Seq<u8>)
    ensures
        track.observed == Some(first) ==> polled(track, false, Some(first)) == (
            track,
            PollView::Nothing,
        ),
        track.observed != Some(first) ==> polled(track, false, Some(first)) == (
            track,
            PollView::ReadAgain(first),
        ),
        polled(track, false, None) == (track, PollView::Nothing),
        polled(track, true, None) == (track, PollView::Nothing),
        first == track.baseline ==> polled_again(track, first, Some(first)).1 is Nothing
            && polled_again(track, first, Some(first)).0.observed == Some(first),
{
}

/// The reports of a session stand by their files, in the order of the paths: first how many
/// revisions there are, then what failed, then the last difference; the warnings come last.
pub proof fn law_reports_stand_by_their_files(
    results: ResultsView,
    files: Seq<FileResultView>,
    f: FileResultView,
)
    ensures
        file_reports(files.push(f), files.len() as int + 1) == file_reports(
            files,
            files.len() as int,
        ) + file_report(f),
        file_report(f).len() == 1 + (if f.fallback_revisions.len() > 0 {
            1int
        } else {
            0int
        }) + (if f.last_diff.len() > 0 {
            1int
        } else {
            0int
        }),
        !file_report(f)[0].is_error,
        f.fallback_revisions.len() > 0 ==> file_report(f)[1].is_error,
        ({
            let sorted = sorted_by_key(results.files, result_keys(results.files));
            &&& sorted.to_multiset() == results.files.to_multiset()
            &&& forall|i: int, j: int|
                0 <= i < j < sorted.len() ==> path_less(
                    (#[trigger] sorted[i]).path,
                    (#[trigger] sorted[j]).path,
                ) || same_path_text(sorted[i].path, sorted[j].path)
            &&& session_report(results).len() == file_reports(sorted, sorted.len() as int).len()
                + results.mirror_warnings.len()
            &&& session_report(results).take(
                file_reports(sorted, sorted.len() as int).len() as int,
            ) == file_reports(sorted, sorted.len() as int)
        }),
{
    let n = files.len() as int;
    lemma_reports_of_the_front(files, f, n);
    assert(files.push(f)[n] == f);
    let keys = result_keys(results.files);
    law_sorting_keeps_items(results.files, keys);
    law_stable_order(keys);
    let places = stable_order(keys);
    let sorted = sorted_by_key(results.files, keys);
    assert forall|i: int, j: int| 0 <= i < j < sorted.len() implies path_less(
        (#[trigger] sorted[i]).path,
        (#[trigger] sorted[j]).path,
    ) || same_path_text(sorted[i].path, sorted[j].path) by {
        assert(comes_before(keys, places[i], places[j]));
        law_path_keys_order_paths(sorted[i].path, sorted[j].path);
        law_path_keys_are_faithful(sorted[i].path, sorted[j].path);
    }
    let own = file_reports(sorted, sorted.len() as int);
    assert(session_report(results).take(own.len() as int) =~= own);
}

proof fn lemma_reports_of_the_front(files: Seq<FileResultView>, f: FileResultView, n: int)
    requires
        0 <= n <= files.len(),
    ensures
        file_reports(files.push(f), n) == file_reports(files, n),
    decreases n,
{
    if n > 0 {
        lemma_reports_of_the_front(files, f, n - 1);
        assert(files.push(f)[n - 1] == files[n - 1]);
    }
}

/// What the system itself has open is no file to track: what lies in its libraries and its state, and
/// what lies right in the directory for temporary files of a user.
pub proof fn law_files_of_the_system_are_its_own(front: Seq<char>, name: Seq<char>, path: Seq<char>)
    requires
        ends_cleanly(front, "/T/"@),
    ensures
        is_within(path, "/System/Library"@) || is_within(path, "/usr/lib"@) || is_within(
            path,
            "/private/var/run"@,
        ) ==> is_macos_asset(path),
        ({
            let whole = front + "/T/"@ + name;
            let temporary = is_within(whole, "/private/var/folders"@) || is_within(
                whole,
                "/var/folders"@,
            );
            &&& temporary && !occurs(name, "/"@) ==> is_macos_asset(whole)
            &&& occurs(name, "/"@) && !is_within(whole, "/System/Library"@) && !is_within(
                whole,
                "/usr/lib"@,
            ) && !is_within(whole, "/private/var/run"@) ==> !is_macos_asset(whole)
        }),
{
    reveal_strlit("/T/");
    lemma_pieces_step(front, "/T/"@, name);
}

/// The model of a tracked file has all that is known of it.
pub proof fn law_model_of_a_tracked_file(x: Track)
    ensures
        x@.path == x.path@,
        x@.leaf == x.leaf@,
        x@.baseline == x.baseline@,
        x@.observed == opt_bytes(x.observed),
        x@.published == x.published,
{
}

/// The model of what a session did with a file has all that is known of it.
pub proof fn law_model_of_a_session_result(x: FileSessionResult)
    ensures
        x@.path == x.path@,
        x@.leaf == x.leaf@,
        x@.revisions == x.revisions@,
        x@.last_diff == x.last_diff@,
        x@.fallback_revisions == x.fallback_revisions@,
{
}

/// The model of a report has all that is known of it.
pub proof fn law_model_of_a_report(x: Report)
    ensures
        x@.is_error == x.is_error,
        x@.text == x.text@,
{
}

} // verus!
