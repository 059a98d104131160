//! A session: what happens, and in which order, while an editor runs and when it has ended.

use crate::config::Config;
use crate::encoding::{copy_bytes, same_bytes};
use crate::failure::Failure;
use crate::order::Replicate;
use crate::path::parent;
use crate::wrapper::{
    consider_target, discovered_track, DirectoryEvent, DiscoveryProfile, PollAction, Probe,
    SessionResults, Surroundings, Track,
};
#[allow(unused_imports)]
use crate::{
    config::ConfigView,
    failure::{opt_failure, FailureView},
    mutation::opt_bytes,
    path::{file_name_of, parent_of},
    text::{all_views, opt_str, opt_view},
    wrapper::{
        after_publication, captured_view, considered, new_track_view, place_of_track, polled,
        polled_again, PollView, ResultsView, TrackView,
    },
};
use vstd::prelude::*;

verus! {

/// What a session waits for.
#[derive(Clone, Copy, Debug, PartialEq, Eq, Structural)]
pub enum SessionStage {
    /// The events of the watched directories.
    Drain,
    /// What the file system says of a target.
    Probe,
    /// The content of a target that is to be tracked.
    ReadTarget,
    /// A directory to be watched.
    Watch,
    /// The files that the editor has open, where it is time to look.
    Discover,
    /// What the editor does.
    CheckEditor,
    /// The content of a track.
    Read,
    /// The content of a track, a moment later.
    ReadAgain,
    /// The publication of a track's content.
    Publish,
    /// A pause.
    Sleep,
    /// The end of the editor, which must end.
    Kill,
    /// Nothing: the session has ended.
    Ended,
    /// Nothing: the session has failed.
    Failed,
}

/// What the editor does.
#[derive(Debug, PartialEq, Eq)]
pub enum EditorState {
    Running,
    /// It has ended, with this code if it has one.
    Exited(Option<i32>),
    /// What it does cannot be told.
    Lost(Failure),
}

/// A publication that was made.
pub struct Published {
    pub revision: u64,
    pub diff: String,
    pub fallback: bool,
    pub warning: Option<String>,
}

/// What came of what a session waited for.
pub enum SessionEvent {
    /// Events, if they could be had.
    Drained(Option<Vec<DirectoryEvent>>),
    /// What the file system says of a target, and the path of each track as it has it.
    Probed { probe: Probe, canonical: Vec<Option<String>> },
    /// A content, if it could be read.
    Content(Option<Vec<u8>>),
    /// Files that the editor has open, each with whether it is new.
    Found(Vec<DirectoryEvent>),
    Editor(EditorState),
    Published(Result<Published, Failure>),
    Done,
}

/// A session.
pub struct Session {
    pub stage: SessionStage,
    pub tracks: Vec<Track>,
    pub results: SessionResults,
    /// How files are discovered, if they are.
    pub profile: Option<DiscoveryProfile>,
    /// Whether directories are watched.
    pub watches: bool,
    /// The targets that are looked at.
    pub queue: Vec<DirectoryEvent>,
    /// The one that is looked at now.
    pub at: usize,
    /// Whether they came from watched directories.
    pub from_events: bool,
    /// Whether the editor has ended.
    pub ending: bool,
    /// The track that is looked at.
    pub index: usize,
    /// The content that it had.
    pub content: Vec<u8>,
    /// The target that is to be tracked, or the directory that is to be watched.
    pub path: String,
    /// The code of the editor.
    pub code: Option<i32>,
    /// Why the session fails.
    pub failure: Option<Failure>,
}

/// The model of a session.
pub struct SessionView {
    pub stage: SessionStage,
    pub tracks: Seq<TrackView>,
    pub results: ResultsView,
    pub profile: Option<DiscoveryProfile>,
    pub watches: bool,
    pub queue: Seq<(Seq<char>, bool)>,
    pub at: usize,
    pub from_events: bool,
    pub ending: bool,
    pub index: usize,
    pub content: Seq<u8>,
    pub path: Seq<char>,
    pub code: Option<i32>,
    pub failure: Option<FailureView>,
}

impl View for Session {
    type V = SessionView;

    open spec fn view(&self) -> SessionView {
        SessionView {
            stage: self.stage,
            tracks: all_views(self.tracks@),
            results: self.results@,
            profile: self.profile,
            watches: self.watches,
            queue: all_views(self.queue@),
            at: self.at,
            from_events: self.from_events,
            ending: self.ending,
            index: self.index,
            content: self.content@,
            path: self.path@,
            code: self.code,
            failure: opt_failure(self.failure),
        }
    }
}

/// Whether the indices of a session are ones of what it has.
pub open spec fn is_consistent(s: SessionView) -> bool {
    &&& s.stage == SessionStage::Probe || s.stage == SessionStage::ReadTarget || s.stage
        == SessionStage::Watch ==> s.at < s.queue.len() && s.profile is Some
    &&& s.stage == SessionStage::Read || s.stage == SessionStage::ReadAgain || s.stage
        == SessionStage::Publish ==> s.index < s.tracks.len()
}

/// Whether an event can come of what a session waits for.
pub open spec fn answers_session(s: SessionView, event: SessionEvent) -> bool {
    match (s.stage, event) {
        (SessionStage::Drain, SessionEvent::Drained(_)) => true,
        (SessionStage::Probe, SessionEvent::Probed { probe, canonical }) => canonical@.len()
            == s.tracks.len(),
        (SessionStage::ReadTarget, SessionEvent::Content(_)) => true,
        (SessionStage::Watch, SessionEvent::Done) => true,
        (SessionStage::Discover, SessionEvent::Found(_)) => true,
        (SessionStage::CheckEditor, SessionEvent::Editor(_)) => true,
        (SessionStage::Read, SessionEvent::Content(_)) => true,
        (SessionStage::ReadAgain, SessionEvent::Content(_)) => true,
        (SessionStage::Publish, SessionEvent::Published(_)) => true,
        (SessionStage::Sleep, SessionEvent::Done) => true,
        (SessionStage::Kill, SessionEvent::Done) => true,
        _ => false,
    }
}

/// A session that waits for something.
pub open spec fn waiting(s: SessionView, stage: SessionStage) -> SessionView {
    SessionView { stage, ..s }
}

/// A session that fails: while the editor runs it must end first.
pub open spec fn failing(s: SessionView, f: FailureView) -> SessionView {
    SessionView {
        stage: if s.ending {
            SessionStage::Failed
        } else {
            SessionStage::Kill
        },
        failure: Some(f),
        ..s
    }
}

/// A session that looks at the track with an index, or has looked at all of them.
pub open spec fn at_track(s: SessionView, index: int) -> SessionView {
    if index < s.tracks.len() {
        SessionView { stage: SessionStage::Read, index: index as usize, ..s }
    } else if s.ending {
        waiting(s, SessionStage::Ended)
    } else {
        waiting(s, SessionStage::Sleep)
    }
}

/// A session that has looked at all targets.
pub open spec fn targets_done(s: SessionView) -> SessionView {
    if s.ending {
        at_track(s, 0)
    } else if s.from_events && s.profile is Some {
        waiting(s, SessionStage::Discover)
    } else {
        waiting(s, SessionStage::CheckEditor)
    }
}

/// A session that looks at the target with an index, or has looked at all of them.
pub open spec fn at_target(s: SessionView, at: int) -> SessionView {
    if at < s.queue.len() && s.profile is Some {
        SessionView { stage: SessionStage::Probe, at: at as usize, ..s }
    } else {
        targets_done(s)
    }
}

/// A session that looks at targets.
pub open spec fn with_targets(s: SessionView, queue: Seq<(Seq<char>, bool)>, from_events: bool) -> SessionView {
    at_target(SessionView { queue, from_events, ..s }, 0)
}

/// A session that begins a round: with the events, if directories are watched.
pub open spec fn round(s: SessionView) -> SessionView {
    if s.watches && s.profile is Some {
        waiting(s, SessionStage::Drain)
    } else {
        with_targets(s, Seq::empty(), true)
    }
}

/// A session whose track wants something.
pub open spec fn track_wants(s: SessionView, track: TrackView, wants: PollView) -> SessionView {
    let now = SessionView { tracks: s.tracks.update(s.index as int, track), ..s };
    match wants {
        PollView::Nothing => at_track(now, s.index + 1),
        PollView::ReadAgain(first) => SessionView {
            stage: SessionStage::ReadAgain,
            content: first,
            ..now
        },
        PollView::Publish(current) => SessionView {
            stage: SessionStage::Publish,
            content: current,
            ..now
        },
    }
}

/// A session that knows the content of a target.
pub open spec fn target_read(s: SessionView, content: Option<Seq<u8>>) -> SessionView {
    match (content, file_name_of(s.path)) {
        (Some(c), Some(leaf)) => {
            let created = s.queue[s.at as int].1;
            let track = new_track_view(
                s.path,
                leaf,
                if created {
                    Seq::empty()
                } else {
                    c
                },
            );
            let now = SessionView { tracks: s.tracks.push(track), ..s };
            match parent_of(s.path) {
                Some(directory) if s.from_events && !s.ending => SessionView {
                    stage: SessionStage::Watch,
                    path: directory,
                    ..now
                },
                _ => at_target(now, s.at + 1),
            }
        },
        _ => at_target(s, s.at + 1),
    }
}

/// A session whose track was published.
pub open spec fn track_published(s: SessionView, p: Published) -> SessionView {
    let track = s.tracks[s.index as int];
    at_track(
        SessionView {
            tracks: s.tracks.update(s.index as int, after_publication(track, s.content)),
            results: captured_view(
                s.results,
                track,
                p.revision,
                p.diff@,
                p.fallback,
                opt_view(p.warning),
            ),
            ..s
        },
        s.index + 1,
    )
}

/// A session after an event.
pub open spec fn session_after(
    s: SessionView,
    event: SessionEvent,
    config: ConfigView,
    around: Surroundings,
) -> SessionView {
    match (s.stage, event) {
        (SessionStage::Drain, SessionEvent::Drained(events)) => match events {
            Some(list) => with_targets(s, all_views(list@), true),
            None => with_targets(s, Seq::empty(), true),
        },
        (SessionStage::Probe, SessionEvent::Probed { probe, canonical }) => {
            let (tracks, found) = considered(
                config,
                s.profile->0,
                around,
                s.tracks,
                canonical@,
                probe,
                s.queue[s.at as int].1,
            );
            let now = SessionView { tracks, ..s };
            match found {
                Some(path) => SessionView { stage: SessionStage::ReadTarget, path, ..now },
                None => at_target(now, s.at + 1),
            }
        },
        (SessionStage::ReadTarget, SessionEvent::Content(c)) => target_read(s, opt_bytes(c)),
        (SessionStage::Watch, _) => at_target(s, s.at + 1),
        (SessionStage::Discover, SessionEvent::Found(list)) => with_targets(
            s,
            all_views(list@),
            false,
        ),
        (SessionStage::CheckEditor, SessionEvent::Editor(e)) => match e {
            EditorState::Running => at_track(s, 0),
            EditorState::Exited(code) => round(SessionView { ending: true, code, ..s }),
            EditorState::Lost(f) => failing(s, f@),
        },
        (SessionStage::Read, SessionEvent::Content(c)) => {
            let (track, wants) = polled(s.tracks[s.index as int], s.ending, opt_bytes(c));
            track_wants(s, track, wants)
        },
        (SessionStage::ReadAgain, SessionEvent::Content(c)) => {
            let (track, wants) = polled_again(
                s.tracks[s.index as int],
                s.content,
                opt_bytes(c),
            );
            track_wants(s, track, wants)
        },
        (SessionStage::Publish, SessionEvent::Published(r)) => match r {
            Ok(p) => track_published(s, p),
            Err(f) => failing(s, f@),
        },
        (SessionStage::Sleep, _) => round(s),
        (SessionStage::Kill, _) => waiting(s, SessionStage::Failed),
        _ => s,
    }
}

/// A session that begins.
pub open spec fn session_begun(tracks: Seq<TrackView>, profile: Option<DiscoveryProfile>, watches: bool) -> SessionView {
    round(
        SessionView {
            stage: SessionStage::Sleep,
            tracks,
            results: ResultsView { files: Seq::empty(), mirror_warnings: Seq::empty() },
            profile,
            watches,
            queue: Seq::empty(),
            at: 0,
            from_events: false,
            ending: false,
            index: 0,
            content: Seq::empty(),
            path: Seq::empty(),
            code: None,
            failure: None,
        },
    )
}

/// What a trace of a session calls what it is about to do, or what came of it: a content that is
/// news, one that has not settled, and a publication that begins or is made.
pub open spec fn traced(s: SessionView, event: Option<SessionEvent>) -> Option<Seq<char>> {
    match (s.stage, event) {
        (SessionStage::Publish, None) => Some("publish-start"@),
        (SessionStage::Publish, Some(SessionEvent::Published(Ok(_)))) => Some("publish-complete"@),
        (SessionStage::Read, Some(SessionEvent::Content(Some(c)))) => if s.ending
            || s.tracks[s.index as int].observed != Some(c@) {
            Some("observed"@)
        } else {
            None
        },
        (SessionStage::ReadAgain, Some(SessionEvent::Content(Some(c)))) => if c@ != s.content {
            Some("unstable"@)
        } else {
            None
        },
        _ => None,
    }
}

impl Session {
    /// What a trace calls what the session is about to do, or what came of it, if it speaks of it.
    pub fn trace(&self, event: Option<&SessionEvent>) -> (r: Option<&'static str>)
        requires
            is_consistent(self@),
        ensures
            opt_str(r) == traced(
                self@,
                match event {
                    Some(e) => Some(*e),
                    None => None,
                },
            ),
    {
        match (self.stage, event) {
            (SessionStage::Publish, None) => Some("publish-start"),
            (SessionStage::Publish, Some(SessionEvent::Published(Ok(_)))) => Some(
                "publish-complete",
            ),
            (SessionStage::Read, Some(SessionEvent::Content(Some(c)))) => {
                assert(self@.tracks[self.index as int] == self.tracks@[self.index as int]@);
                let seen: bool = match &self.tracks[self.index].observed {
                    Some(o) => same_bytes(o, c),
                    None => false,
                };
                if self.ending || !seen {
                    Some("observed")
                } else {
                    None
                }
            },
            (SessionStage::ReadAgain, Some(SessionEvent::Content(Some(c)))) => {
                if same_bytes(c, &self.content) {
                    None
                } else {
                    Some("unstable")
                }
            },
            _ => None,
        }
    }

    /// A session that begins with tracks. `watches` says whether directories are watched.
    pub fn begin(tracks: Vec<Track>, profile: Option<DiscoveryProfile>, watches: bool) -> (r: Self)
        ensures
            r@ == session_begun(all_views(tracks@), profile, watches),
            is_consistent(r@),
    {
        let mut s: Session = Session {
            stage: SessionStage::Sleep,
            tracks,
            results: SessionResults::new(),
            profile,
            watches,
            queue: Vec::new(),
            at: 0,
            from_events: false,
            ending: false,
            index: 0,
            content: Vec::new(),
            path: String::new(),
            code: None,
            failure: None,
        };
        assert(all_views(s.queue@) =~= Seq::empty());
        assert(s.content@ =~= Seq::empty());
        assert(all_views(s.tracks@).len() == s.tracks@.len());
        s.begin_round();
        s
    }

    fn begin_round(&mut self)
        ensures
            final(self)@ == round(old(self)@),
            is_consistent(final(self)@),
    {
        if self.watches && self.profile.is_some() {
            self.stage = SessionStage::Drain;
        } else {
            let none: Vec<DirectoryEvent> = Vec::new();
            assert(all_views(none@) =~= Seq::empty());
            self.take_targets(none, true);
        }
    }

    fn take_targets(&mut self, queue: Vec<DirectoryEvent>, from_events: bool)
        ensures
            final(self)@ == with_targets(old(self)@, all_views(queue@), from_events),
            is_consistent(final(self)@),
    {
        assert(all_views(queue@).len() == queue@.len());
        self.queue = queue;
        self.from_events = from_events;
        self.go_to_target(0);
    }

    fn go_to_target(&mut self, at: usize)
        ensures
            final(self)@ == at_target(old(self)@, at as int),
            is_consistent(final(self)@),
    {
        assert(all_views(self.queue@).len() == self.queue@.len());
        if at < self.queue.len() && self.profile.is_some() {
            self.at = at;
            self.stage = SessionStage::Probe;
        } else if self.ending {
            self.go_to_track(0);
        } else if self.from_events && self.profile.is_some() {
            self.stage = SessionStage::Discover;
        } else {
            self.stage = SessionStage::CheckEditor;
        }
    }

    fn go_to_track(&mut self, index: usize)
        ensures
            final(self)@ == at_track(old(self)@, index as int),
            is_consistent(final(self)@),
    {
        assert(all_views(self.tracks@).len() == self.tracks@.len());
        if index < self.tracks.len() {
            self.index = index;
            self.stage = SessionStage::Read;
        } else if self.ending {
            self.stage = SessionStage::Ended;
        } else {
            self.stage = SessionStage::Sleep;
        }
    }

    fn track_behind(&self) -> (r: usize)
        requires
            self@.index < self@.tracks.len(),
        ensures
            r == self@.index + 1,
    {
        assert(self.index < self.tracks.len());
        self.index + 1
    }

    fn target_behind(&self) -> (r: usize)
        requires
            self@.at < self@.queue.len(),
        ensures
            r == self@.at + 1,
    {
        assert(self.at < self.queue.len());
        self.at + 1
    }

    fn fail(&mut self, failure: Failure)
        ensures
            final(self)@ == failing(old(self)@, failure@),
            is_consistent(final(self)@),
    {
        self.stage = if self.ending {
            SessionStage::Failed
        } else {
            SessionStage::Kill
        };
        self.failure = Some(failure);
    }

    fn put_track(&mut self, track: Track)
        requires
            old(self)@.index < old(self)@.tracks.len(),
        ensures
            final(self)@ == (SessionView {
                tracks: old(self)@.tracks.update(old(self)@.index as int, track@),
                ..old(self)@
            }),
    {
        let ghost before = self@.tracks;
        assert(before.len() == self.tracks@.len());
        let i: usize = self.index;
        let ghost t = track@;
        self.tracks.set(i, track);
        assert(all_views(self.tracks@) =~= before.update(i as int, t));
    }

    fn copy_track(&self) -> (r: Track)
        requires
            self@.index < self@.tracks.len(),
        ensures
            r@ == self@.tracks[self@.index as int],
    {
        assert(self@.tracks.len() == self.tracks@.len());
        self.tracks[self.index].replicate()
    }

    fn serve_track(&mut self, track: Track, wants: PollAction)
        requires
            old(self)@.index < old(self)@.tracks.len(),
        ensures
            final(self)@ == track_wants(old(self)@, track@, wants@),
            is_consistent(final(self)@),
    {
        self.put_track(track);
        match wants {
            PollAction::Nothing => {
                let next: usize = self.track_behind();
                self.go_to_track(next);
            },
            PollAction::ReadAgain(first) => {
                self.content = first;
                self.stage = SessionStage::ReadAgain;
            },
            PollAction::Publish(current) => {
                self.content = current;
                self.stage = SessionStage::Publish;
            },
        }
    }

    fn take_probe(&mut self, probe: Probe, canonical: Vec<Option<String>>, config: &Config, around: &Surroundings)
        requires
            old(self)@.stage == SessionStage::Probe,
            is_consistent(old(self)@),
            canonical@.len() == old(self)@.tracks.len(),
        ensures
            final(self)@ == session_after(
                old(self)@,
                (SessionEvent::Probed { probe, canonical }),
                config@,
                *around,
            ),
            is_consistent(final(self)@),
    {
        assert(self@.queue.len() == self.queue@.len());
        assert(self@.queue[self.at as int] == self.queue@[self.at as int]@);
        assert(self@.tracks.len() == self.tracks@.len());
        match self.profile {
            Some(profile) => {
                let created: bool = self.queue[self.at].created;
                let found: Option<String> = consider_target(
                    config,
                    profile,
                    around,
                    &mut self.tracks,
                    &canonical,
                    &probe,
                    created,
                );
                assert(all_views(self.tracks@).len() == self.tracks@.len());
                match found {
                    Some(path) => {
                        self.path = path;
                        self.stage = SessionStage::ReadTarget;
                    },
                    None => {
                        let next: usize = self.target_behind();
                        self.go_to_target(next);
                    },
                }
            },
            None => {},
        }
    }

    fn take_target(&mut self, content: Option<Vec<u8>>)
        requires
            old(self)@.stage == SessionStage::ReadTarget,
            is_consistent(old(self)@),
        ensures
            final(self)@ == target_read(old(self)@, opt_bytes(content)),
            is_consistent(final(self)@),
    {
        assert(self@.queue.len() == self.queue@.len());
        assert(self@.queue[self.at as int] == self.queue@[self.at as int]@);
        let next: usize = self.target_behind();
        let created: bool = self.queue[self.at].created;
        match content {
            Some(c) => match discovered_track(self.path.as_str(), c, created) {
                Some(track) => {
                    let ghost before = self@.tracks;
                    let ghost t = track@;
                    self.tracks.push(track);
                    assert(all_views(self.tracks@) =~= before.push(t));
                    match parent(self.path.as_str()) {
                        Some(directory) => {
                            if self.from_events && !self.ending {
                                self.path = directory;
                                self.stage = SessionStage::Watch;
                                return;
                            }
                        },
                        None => {},
                    }
                    self.go_to_target(next);
                },
                None => {
                    self.go_to_target(next);
                },
            },
            None => {
                self.go_to_target(next);
            },
        }
    }

    fn take_publication(&mut self, p: Published)
        requires
            old(self)@.stage == SessionStage::Publish,
            is_consistent(old(self)@),
        ensures
            final(self)@ == track_published(old(self)@, p),
            is_consistent(final(self)@),
    {
        let mut track: Track = self.copy_track();
        self.results.captured(&track, p.revision, p.diff, p.fallback, p.warning);
        track.mark_published(copy_bytes(&self.content));
        self.put_track(track);
        let next: usize = self.track_behind();
        self.go_to_track(next);
    }

    /// Takes in what came of what the session waited for.
    pub fn step(&mut self, event: SessionEvent, config: &Config, around: &Surroundings)
        requires
            is_consistent(old(self)@),
            answers_session(old(self)@, event),
        ensures
            final(self)@ == session_after(old(self)@, event, config@, *around),
            is_consistent(final(self)@),
    {
        assert(self@.queue.len() == self.queue@.len());
        assert(self@.tracks.len() == self.tracks@.len());
        match (self.stage, event) {
            (SessionStage::Drain, SessionEvent::Drained(events)) => match events {
                Some(list) => self.take_targets(list, true),
                None => {
                    let none: Vec<DirectoryEvent> = Vec::new();
                    assert(all_views(none@) =~= Seq::empty());
                    self.take_targets(none, true);
                },
            },
            (SessionStage::Probe, SessionEvent::Probed { probe, canonical }) => self.take_probe(
                probe,
                canonical,
                config,
                around,
            ),
            (SessionStage::ReadTarget, SessionEvent::Content(c)) => self.take_target(c),
            (SessionStage::Watch, SessionEvent::Done) => {
                let next: usize = self.target_behind();
                self.go_to_target(next);
            },
            (SessionStage::Discover, SessionEvent::Found(list)) => self.take_targets(list, false),
            (SessionStage::CheckEditor, SessionEvent::Editor(e)) => match e {
                EditorState::Running => self.go_to_track(0),
                EditorState::Exited(code) => {
                    self.ending = true;
                    self.code = code;
                    self.begin_round();
                },
                EditorState::Lost(f) => self.fail(f),
            },
            (SessionStage::Read, SessionEvent::Content(c)) => {
                let mut track: Track = self.copy_track();
                let wants: PollAction = track.poll_track(self.ending, c);
                self.serve_track(track, wants);
            },
            (SessionStage::ReadAgain, SessionEvent::Content(c)) => {
                let mut track: Track = self.copy_track();
                let wants: PollAction = track.poll_again(&self.content, c);
                self.serve_track(track, wants);
            },
            (SessionStage::Publish, SessionEvent::Published(r)) => match r {
                Ok(p) => self.take_publication(p),
                Err(f) => self.fail(f),
            },
            (SessionStage::Sleep, SessionEvent::Done) => self.begin_round(),
            (SessionStage::Kill, SessionEvent::Done) => {
                self.stage = SessionStage::Failed;
            },
            _ => {},
        }
    }
}

/// A track stays where it is and keeps its file, whatever happens.
pub proof fn law_tracks_are_kept(
    s: SessionView,
    event: SessionEvent,
    config: ConfigView,
    around: Surroundings,
    i: int,
)
    requires
        is_consistent(s),
        answers_session(s, event),
        0 <= i < s.tracks.len(),
    ensures
        i < session_after(s, event, config, around).tracks.len(),
        session_after(s, event, config, around).tracks[i].path == s.tracks[i].path,
{
    match (s.stage, event) {
        (SessionStage::Probe, SessionEvent::Probed { probe, canonical }) => {
            match probe.canonical {
                Some(path) => {
                    lemma_track_place(canonical@, path@, 0);
                },
                None => {},
            }
        },
        _ => {},
    }
}

proof fn lemma_track_place(canonical: Seq<Option<String>>, path: Seq<char>, from: int)
    requires
        0 <= from,
    ensures
        place_of_track(canonical, path, from) matches Some(i) ==> from <= i < canonical.len(),
    decreases canonical.len() - from,
{
    if from < canonical.len() {
        lemma_track_place(canonical, path, from + 1);
    }
}

/// A publication that fails takes nothing: the tracks and the results stay as they were, the
/// failure is the session's, and the editor does not outlive it.
pub proof fn law_failed_publication_takes_nothing(
    s: SessionView,
    f: Failure,
    config: ConfigView,
    around: Surroundings,
)
    requires
        s.stage == SessionStage::Publish,
    ensures
        ({
            let after = session_after(s, SessionEvent::Published(Err(f)), config, around);
            &&& after.tracks == s.tracks
            &&& after.results == s.results
            &&& after.failure == Some(f@)
            &&& after.stage == if s.ending {
                SessionStage::Failed
            } else {
                SessionStage::Kill
            }
            &&& session_after(after, SessionEvent::Done, config, around).stage
                == SessionStage::Failed
        }),
{
}

/// A session ends only when the editor has ended and the last track was looked at after that.
pub proof fn law_session_ends_with_last_track(
    s: SessionView,
    event: SessionEvent,
    config: ConfigView,
    around: Surroundings,
)
    requires
        is_consistent(s),
        answers_session(s, event),
        session_after(s, event, config, around).stage == SessionStage::Ended,
    ensures
        session_after(s, event, config, around).ending,
        s.stage == SessionStage::Read || s.stage == SessionStage::ReadAgain || s.stage
            == SessionStage::Publish ==> s.index + 1 == s.tracks.len(),
        s.stage != SessionStage::Read && s.stage != SessionStage::ReadAgain && s.stage
            != SessionStage::Publish ==> session_after(s, event, config, around).tracks.len() == 0,
{
}

/// The tracked files come one after another: when one is done with, the next is read, and behind the
/// last the session rests, or ends where the editor is gone. No file is passed over.
pub proof fn law_tracks_come_one_after_another(
    s: SessionView,
    event: SessionEvent,
    config: ConfigView,
    around: Surroundings,
)
    requires
        is_consistent(s),
        answers_session(s, event),
        s.stage == SessionStage::Read || s.stage == SessionStage::ReadAgain || s.stage
            == SessionStage::Publish,
        event matches SessionEvent::Published(r) ==> r is Ok,
        s.tracks.len() <= usize::MAX,
    ensures
        ({
            let after = session_after(s, event, config, around);
            let n = s.tracks.len();
            &&& after.tracks.len() == n && after.ending == s.ending
            &&& after.stage == SessionStage::ReadAgain || after.stage == SessionStage::Publish
                ==> after.index == s.index
            &&& after.stage == SessionStage::Read ==> after.index == s.index + 1
            &&& after.stage == SessionStage::ReadAgain || after.stage == SessionStage::Publish
                || after.stage == SessionStage::Read || (s.index + 1 == n && after.stage == if s.ending {
                SessionStage::Ended
            } else {
                SessionStage::Sleep
            })
            &&& forall|i: int|
                0 <= i < n && i != s.index ==> #[trigger] after.tracks[i] == s.tracks[i]
        }),
{
}

/// What is waiting comes one after another too: each path that was told of is looked at, and none is
/// passed over.
pub proof fn law_targets_come_one_after_another(
    s: SessionView,
    event: SessionEvent,
    config: ConfigView,
    around: Surroundings,
)
    requires
        is_consistent(s),
        answers_session(s, event),
        s.stage == SessionStage::Probe || s.stage == SessionStage::ReadTarget || s.stage
            == SessionStage::Watch,
        s.queue.len() <= usize::MAX,
    ensures
        ({
            let after = session_after(s, event, config, around);
            &&& after.queue == s.queue && after.results == s.results
            &&& after.stage == SessionStage::ReadTarget || after.stage == SessionStage::Watch
                ==> after.at == s.at
            &&& after.stage == SessionStage::Probe ==> after.at == s.at + 1
            &&& after.stage == SessionStage::ReadTarget || after.stage == SessionStage::Watch
                || after.stage == SessionStage::Probe || s.at + 1 == s.queue.len()
        }),
{
}

/// A file that is found is tracked from then on: with what it holds as what is known of it, or with
/// nothing where it is new, so that its first content is recorded.
pub proof fn law_found_file_is_tracked(
    s: SessionView,
    content: Vec<u8>,
    config: ConfigView,
    around: Surroundings,
)
    requires
        is_consistent(s),
        s.stage == SessionStage::ReadTarget,
        file_name_of(s.path) is Some,
    ensures
        ({
            let after = session_after(s, SessionEvent::Content(Some(content)), config, around);
            let n = s.tracks.len() as int;
            &&& after.tracks.len() == n + 1 && after.tracks.take(n) == s.tracks
            &&& after.tracks[n].path == s.path && !after.tracks[n].published
            &&& after.tracks[n].baseline == if s.queue[s.at as int].1 {
                Seq::<u8>::empty()
            } else {
                content@
            }
        }),
        session_after(s, SessionEvent::Content(None), config, around).tracks == s.tracks,
{
    let after = session_after(s, SessionEvent::Content(Some(content)), config, around);
    assert(after.tracks.take(s.tracks.len() as int) =~= s.tracks);
}

/// A publication that came through is kept: the content is what is known of the file from then on,
/// and the revision is among the results.
pub proof fn law_publication_is_kept(
    s: SessionView,
    p: Published,
    config: ConfigView,
    around: Surroundings,
)
    requires
        is_consistent(s),
        s.stage == SessionStage::Publish,
    ensures
        ({
            let after = session_after(s, SessionEvent::Published(Ok(p)), config, around);
            let i = s.index as int;
            &&& after.tracks[i].baseline == s.content && after.tracks[i].published
            &&& after.tracks[i].observed == Some(s.content) && after.tracks[i].path
                == s.tracks[i].path
            &&& after.results == captured_view(
                s.results,
                s.tracks[i],
                p.revision,
                p.diff@,
                p.fallback,
                opt_view(p.warning),
            )
            &&& after.failure == s.failure
        }),
{
}

/// While the editor runs all tracked files are read from the first on. When it is gone the session
/// looks round once more, and ends with the code that the editor left. An editor that is lost ends
/// the session with the failure.
pub proof fn law_editor_decides_how_it_goes_on(
    s: SessionView,
    code: Option<i32>,
    failure: Failure,
    config: ConfigView,
    around: Surroundings,
)
    requires
        s.stage == SessionStage::CheckEditor,
        s.tracks.len() > 0,
    ensures
        ({
            let running = session_after(
                s,
                SessionEvent::Editor(EditorState::Running),
                config,
                around,
            );
            let gone = session_after(
                s,
                SessionEvent::Editor(EditorState::Exited(code)),
                config,
                around,
            );
            let lost = session_after(
                s,
                SessionEvent::Editor(EditorState::Lost(failure)),
                config,
                around,
            );
            &&& running.stage == SessionStage::Read && running.index == 0 && running.tracks
                == s.tracks
            &&& gone.ending && gone.code == code && gone.tracks == s.tracks
            &&& gone.stage == SessionStage::Drain || (gone.stage == SessionStage::Read && gone.index
                == 0)
            &&& s.watches && s.profile is Some ==> gone.stage == SessionStage::Drain
            &&& lost.failure == Some(failure@) && lost.stage == if s.ending {
                SessionStage::Failed
            } else {
                SessionStage::Kill
            }
        }),
{
}

/// A session begins with the files it was given and no results; where directories are watched it
/// asks first what happened in them, and what it is told is looked at from the first on.
pub proof fn law_session_begins_with_its_files(
    tracks: Seq<TrackView>,
    profile: Option<DiscoveryProfile>,
    watches: bool,
    s: SessionView,
    list: Vec<DirectoryEvent>,
    config: ConfigView,
    around: Surroundings,
)
    requires
        s.stage == SessionStage::Drain,
        s.profile is Some,
    ensures
        ({
            let begun = session_begun(tracks, profile, watches);
            &&& begun.tracks == tracks && begun.results.files.len() == 0 && !begun.ending
            &&& begun.stage == if watches && profile is Some {
                SessionStage::Drain
            } else if profile is Some {
                SessionStage::Discover
            } else {
                SessionStage::CheckEditor
            }
        }),
        ({
            let told = session_after(s, SessionEvent::Drained(Some(list)), config, around);
            &&& told.queue == all_views(list@) && told.tracks == s.tracks
            &&& list@.len() > 0 ==> told.stage == SessionStage::Probe && told.at == 0
        }),
{
}

} // verus!
