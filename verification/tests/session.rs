use std::collections::BTreeMap;

use bedit::config::Config;
use bedit::failure::{Failure, FailureKind};
use bedit::session::{EditorState, Published, Session, SessionEvent, SessionStage};
use bedit::wrapper::{DirectoryEvent, DiscoveryProfile, Probe, Surroundings, Track};

/// A world around an editor: its files, and what happens in each round.
struct World {
    files: BTreeMap<String, Vec<u8>>,
    rounds: Vec<Vec<(String, String)>>,
    events: Vec<DirectoryEvent>,
    open: Vec<DirectoryEvent>,
    published: Vec<(String, Vec<u8>)>,
    watched: Vec<String>,
    fail_publication: bool,
    killed: bool,
    traces: Vec<&'static str>,
}

fn world() -> World {
    World {
        files: BTreeMap::new(),
        rounds: Vec::new(),
        events: Vec::new(),
        open: Vec::new(),
        published: Vec::new(),
        watched: Vec::new(),
        fail_publication: false,
        killed: false,
        traces: Vec::new(),
    }
}

fn config() -> Config {
    Config::load("/base/store".into(), None, "/base", "faf")
}

fn around() -> Surroundings {
    Surroundings {
        macos: false,
        repository: vec!["/base/store".into()],
        home: "/base".into(),
        runtime_roots: Vec::new(),
    }
}

impl World {
    fn run(&mut self, session: &mut Session) {
        let mut turns = 0;
        while session.stage != SessionStage::Ended && session.stage != SessionStage::Failed {
            turns += 1;
            assert!(turns < 1000);
            self.traces.extend(session.trace(None));
            let event = match session.stage {
                SessionStage::Drain => {
                    SessionEvent::Drained(Some(std::mem::take(&mut self.events)))
                }
                SessionStage::Probe => {
                    let target = session.queue[session.at].path.clone();
                    SessionEvent::Probed {
                        probe: Probe {
                            is_file: self.files.contains_key(&target),
                            canonical: self.files.get(&target).map(|_| target.clone()),
                            target,
                        },
                        canonical: session
                            .tracks
                            .iter()
                            .map(|track| Some(track.path.clone()))
                            .collect(),
                    }
                }
                SessionStage::ReadTarget => {
                    SessionEvent::Content(self.files.get(&session.path).cloned())
                }
                SessionStage::Watch => {
                    self.watched.push(session.path.clone());
                    SessionEvent::Done
                }
                SessionStage::Discover => SessionEvent::Found(std::mem::take(&mut self.open)),
                SessionStage::CheckEditor => {
                    if self.rounds.is_empty() {
                        SessionEvent::Editor(EditorState::Exited(Some(3)))
                    } else {
                        for (path, content) in self.rounds.remove(0) {
                            self.files.insert(path, content.into_bytes());
                        }
                        SessionEvent::Editor(EditorState::Running)
                    }
                }
                SessionStage::Read | SessionStage::ReadAgain => SessionEvent::Content(
                    self.files.get(&session.tracks[session.index].path).cloned(),
                ),
                SessionStage::Publish => {
                    if self.fail_publication {
                        SessionEvent::Published(Err(Failure::new(FailureKind::Other, "full")))
                    } else {
                        let path = session.tracks[session.index].path.clone();
                        self.published.push((path, session.content.clone()));
                        SessionEvent::Published(Ok(Published {
                            revision: self.published.len() as u64,
                            diff: "d\n".into(),
                            fallback: false,
                            warning: None,
                        }))
                    }
                }
                SessionStage::Sleep => SessionEvent::Done,
                SessionStage::Kill => {
                    self.killed = true;
                    SessionEvent::Done
                }
                SessionStage::Ended | SessionStage::Failed => unreachable!(),
            };
            self.traces.extend(session.trace(Some(&event)));
            session.step(event, &config(), &around());
        }
    }
}

fn change(path: &str, content: &str) -> (String, String) {
    (path.to_string(), content.to_string())
}

#[test]
fn every_save_becomes_a_revision() {
    let mut world = world();
    world.files.insert("/base/work/a.txt".into(), b"one\n".to_vec());
    world.rounds = vec![
        vec![change("/base/work/a.txt", "two\n")],
        vec![],
        vec![change("/base/work/a.txt", "three\n")],
    ];
    let track = Track::new("/base/work/a.txt", "a.txt", b"one\n".to_vec());
    let mut session = Session::begin(vec![track], None, false);
    assert_eq!(session.stage, SessionStage::CheckEditor);
    world.run(&mut session);
    assert_eq!(session.stage, SessionStage::Ended);
    assert_eq!(session.code, Some(3));
    let contents: Vec<&[u8]> = world.published.iter().map(|(_, c)| c.as_slice()).collect();
    assert_eq!(contents, vec![b"two\n".as_slice(), b"three\n".as_slice()]);
    assert_eq!(session.results.files[0].revisions, vec![1, 2]);
}

#[test]
fn a_trace_tells_what_a_session_does() {
    let mut world = world();
    world.files.insert("/base/work/a.txt".into(), b"one\n".to_vec());
    world.rounds = vec![vec![], vec![change("/base/work/a.txt", "two\n")]];
    let track = Track::new("/base/work/a.txt", "a.txt", b"one\n".to_vec());
    let mut session = Session::begin(vec![track], None, false);
    world.run(&mut session);
    assert_eq!(
        world.traces,
        vec!["observed", "publish-start", "publish-complete", "observed"]
    );

    let track = Track::new("/base/work/a.txt", "a.txt", b"one\n".to_vec());
    let mut session = Session::begin(vec![track], None, false);
    session.step(SessionEvent::Editor(EditorState::Running), &config(), &around());
    session.step(SessionEvent::Content(Some(b"two".to_vec())), &config(), &around());
    assert_eq!(session.stage, SessionStage::ReadAgain);
    let first = SessionEvent::Content(Some(b"two".to_vec()));
    let second = SessionEvent::Content(Some(b"two\n".to_vec()));
    assert_eq!(session.trace(Some(&first)), None);
    assert_eq!(session.trace(Some(&second)), Some("unstable"));
    assert_eq!(session.trace(Some(&SessionEvent::Content(None))), None);
}

#[test]
fn the_last_save_is_flushed_when_the_editor_ends() {
    let mut world = world();
    world.files.insert("/base/work/a.txt".into(), b"late\n".to_vec());
    let track = Track::new("/base/work/a.txt", "a.txt", b"one\n".to_vec());
    let mut session = Session::begin(vec![track], None, false);
    world.run(&mut session);
    assert_eq!(
        world.published,
        vec![("/base/work/a.txt".to_string(), b"late\n".to_vec())]
    );
}

#[test]
fn new_files_are_tracked_and_their_directories_watched() {
    let mut world = world();
    world.files.insert("/base/work/a.txt".into(), b"one\n".to_vec());
    world.files.insert("/base/work/new.txt".into(), b"born\n".to_vec());
    world.files.insert("/base/other/open.txt".into(), b"open\n".to_vec());
    world.events = vec![DirectoryEvent {
        path: "/base/work/new.txt".into(),
        created: true,
    }];
    world.open = vec![DirectoryEvent {
        path: "/base/other/open.txt".into(),
        created: false,
    }];
    world.rounds = vec![vec![change("/base/other/open.txt", "saved\n")]];
    let track = Track::new("/base/work/a.txt", "a.txt", b"one\n".to_vec());
    let mut session = Session::begin(vec![track], Some(DiscoveryProfile::Vim), true);
    assert_eq!(session.stage, SessionStage::Drain);
    world.run(&mut session);
    let paths: Vec<&str> = session.tracks.iter().map(|t| t.path.as_str()).collect();
    assert_eq!(
        paths,
        vec!["/base/work/a.txt", "/base/work/new.txt", "/base/other/open.txt"]
    );
    assert_eq!(world.watched, vec!["/base/work".to_string()]);
    world.published.sort();
    assert_eq!(
        world.published,
        vec![
            ("/base/other/open.txt".to_string(), b"saved\n".to_vec()),
            ("/base/work/new.txt".to_string(), b"born\n".to_vec()),
        ]
    );
}

#[test]
fn a_publication_that_fails_ends_the_editor_and_takes_nothing() {
    let mut world = world();
    world.fail_publication = true;
    world.files.insert("/base/work/a.txt".into(), b"one\n".to_vec());
    world.rounds = vec![vec![change("/base/work/a.txt", "two\n")]];
    let track = Track::new("/base/work/a.txt", "a.txt", b"one\n".to_vec());
    let mut session = Session::begin(vec![track], None, false);
    world.run(&mut session);
    assert_eq!(session.stage, SessionStage::Failed);
    assert!(world.killed);
    assert_eq!(session.tracks[0].baseline, b"one\n");
    assert!(session.results.files.is_empty());
    assert_eq!(session.failure.unwrap().message, "full");
}

#[test]
fn an_editor_that_is_lost_is_ended() {
    let mut session = Session::begin(Vec::new(), None, false);
    session.step(
        SessionEvent::Editor(EditorState::Lost(Failure::new(FailureKind::Other, "gone"))),
        &config(),
        &around(),
    );
    assert_eq!(session.stage, SessionStage::Kill);
    session.step(SessionEvent::Done, &config(), &around());
    assert_eq!(session.stage, SessionStage::Failed);
}
