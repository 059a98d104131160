use std::collections::{BTreeMap, HashSet};

use bedit::config::Config;
use bedit::failure::{Failure, FailureKind};
use bedit::mutation::{
    branch_content, create_revision, generate_diff, latest_revision, live_place, merge_warnings,
    mirror_way, names_component, next_revision, nonce, permission_bits, plan_publication,
    prepare_revision, publish_mirror, relabel_diff, revision_place, staging_name, write_tag,
    AllocationRead, CreatedRevision, Creation, CreationEvent, CreationStage, MirrorWay, Place,
    PreparedRevision, Publication, PublicationAction, Restore, RestoreEvent, RestoreStage,
    StepContent,
};
use bedit::store::{
    child_name, parse_access_bytes, parse_link_name, patch_result, record_files, BranchRead,
    FileRead, IndexEntry, LinkRead, Presence, RecordRead, RenderPlan, Revision, Store,
};
use bedit::wrapper::{PollAction, SessionResults, Track};

/// A repository held in memory.
#[derive(Default)]
struct Files {
    entries: BTreeMap<(u8, String), Vec<u8>>,
    links: BTreeMap<(String, String), String>,
    branches: BTreeMap<String, Vec<u8>>,
    fail_after: Option<usize>,
    blocked: bool,
}

fn shelf(place: Place) -> u8 {
    match place {
        Place::Backups => b'b',
        Place::Edits => b'd',
        Place::Access => b'a',
        Place::Actors => b'u',
        Place::Branch => b'-',
    }
}

/// The output of `diff` on two files of one line each.
fn run_diff(left: &[u8], right: &[u8]) -> (Option<i32>, Vec<u8>) {
    if left == right {
        return (Some(0), Vec::new());
    }
    let mut out = "--- left\n+++ right\n@@ -1 +1 @@\n".to_string();
    for (sign, bytes) in [('-', left), ('+', right)] {
        for line in std::str::from_utf8(bytes).unwrap().lines() {
            out.push(sign);
            out.push_str(line);
            out.push('\n');
        }
    }
    (Some(1), out.into_bytes())
}

/// What `patch` makes of a file of one line.
fn run_patch(diff: &[u8]) -> Vec<u8> {
    std::str::from_utf8(diff)
        .unwrap()
        .lines()
        .filter(|line| line.starts_with('+') && !line.starts_with("+++"))
        .map(|line| format!("{}\n", &line[1..]))
        .collect::<String>()
        .into_bytes()
}

impl Files {
    fn allocation(&self) -> Vec<AllocationRead> {
        self.entries
            .iter()
            .filter(|((place, _), _)| *place == b'a')
            .map(|((_, name), bytes)| AllocationRead {
                name: name.clone(),
                access: Ok(bytes.clone()),
            })
            .collect()
    }

    fn publish(
        &mut self,
        config: &Config,
        path: &str,
        editor: &str,
        before: &[u8],
        after: &[u8],
    ) -> Result<u64, Failure> {
        let (code, stdout) = run_diff(before, after);
        let generated = generate_diff(path, code, &stdout);
        let (prepared, fallback) = prepare_revision(
            path,
            editor,
            &before.to_vec(),
            &after.to_vec(),
            generated,
            60,
            "1970-01-01 00:01:00 +0000",
        )?;
        assert!(!fallback);
        self.publish_prepared(config, &prepared)
    }

    fn publish_prepared(
        &mut self,
        config: &Config,
        prepared: &PreparedRevision,
    ) -> Result<u64, Failure> {
        if self.blocked {
            return Err(Failure::new(FailureKind::Other, "not a directory"));
        }
        let number = next_revision(&self.allocation(), &prepared.key, &prepared.leaf)?;
        self.branches
            .insert(prepared.key.clone(), branch_content(prepared));
        let mut publication = Publication::begin(prepared, config, number);
        let mut performed = 0;
        loop {
            match publication.action() {
                PublicationAction::Perform(step) => {
                    if self.fail_after == Some(performed) {
                        publication.report(Err(Failure::new(FailureKind::Other, "disk full")));
                        continue;
                    }
                    performed += 1;
                    match step.content {
                        StepContent::File(bytes) => {
                            self.entries.insert((shelf(step.place), step.name), bytes);
                        }
                        StepContent::Link(target) => {
                            self.links.insert((prepared.key.clone(), step.name), target);
                        }
                    }
                    publication.report(Ok(()));
                }
                PublicationAction::Remove(removal) => {
                    self.entries
                        .remove(&(shelf(removal.place), removal.name.clone()));
                    self.links.remove(&(prepared.key.clone(), removal.name));
                    publication.report(Ok(()));
                }
                PublicationAction::Succeeded => return Ok(number),
                PublicationAction::Failed(failure) => return Err(failure),
            }
        }
    }

    fn read(&self, place: u8, name: &str) -> FileRead {
        match self.entries.get(&(place, name.to_string())) {
            Some(bytes) => FileRead::Bytes(bytes.clone()),
            None => FileRead::Missing,
        }
    }

    fn revisions(&self, config: &Config) -> Vec<Revision> {
        let reads = self.records();
        Store::new(config.clone()).revisions(&reads).unwrap()
    }

    fn records(&self) -> Vec<RecordRead> {
        self.entries
            .iter()
            .filter(|((place, _), _)| *place == b'a')
            .map(|((_, name), bytes)| {
                let files = record_files(name).unwrap();
                RecordRead {
                    name: name.clone(),
                    access: Ok(bytes.clone()),
                    has_backup: self.entries.contains_key(&(b'b', files.backup)),
                    tag: self.read(b't', &files.tag),
                    actor: self.read(b'u', &files.actor),
                    diff: if self.entries.contains_key(&(b'd', files.diff)) {
                        Presence::Present
                    } else {
                        Presence::Missing
                    },
                }
            })
            .collect()
    }

    fn index(&self, config: &Config) -> Vec<IndexEntry> {
        let reads = self
            .branches
            .iter()
            .map(|(key, content)| BranchRead {
                branch: Ok(content.clone()),
                links: Ok(self
                    .links
                    .iter()
                    .filter(|((branch, _), _)| branch == key)
                    .map(|((_, name), target)| LinkRead {
                        name: name.clone(),
                        target: Ok(target.clone()),
                    })
                    .collect()),
            })
            .collect();
        Store::new(config.clone()).index_entries(&reads).unwrap()
    }

    fn render(&self, config: &Config, revision: &Revision) -> Vec<u8> {
        match Store::new(config.clone()).render(revision) {
            RenderPlan::Backup(name) => self.entries[&(b'b', name)].clone(),
            RenderPlan::Patched(_, diff) => run_patch(&self.entries[&(b'd', diff)]),
        }
    }
}

fn config(root: &str, owner: &str, actor: &str) -> Config {
    let mut config = Config::load(root.to_string(), None, "/base", "me");
    config.history_owner = owner.to_string();
    config.actor = actor.to_string();
    config
}

/// Makes a revision in a history, and in its mirror where there is one.
fn create(
    (history, config): (&mut Files, &Config),
    mut mirror: Option<(&mut Files, &Config)>,
    path: &str,
    editor: &str,
    before: &[u8],
    after: &[u8],
) -> Result<CreatedRevision, Failure> {
    let mirrored = mirror.is_some();
    let mut creation =
        Creation::begin(path, editor, before.to_vec(), after.to_vec(), mirrored).unwrap();
    loop {
        let event = match creation.stage {
            CreationStage::Compare => {
                let (code, stdout) = run_diff(before, after);
                let stamp = "1970-01-01 00:01:00 +0000".to_string();
                CreationEvent::Compared(generate_diff(path, code, &stdout), 60, stamp)
            }
            CreationStage::Publish => CreationEvent::Published(
                history.publish_prepared(config, creation.prepared.as_ref().unwrap()),
            ),
            CreationStage::Mirror => {
                let (files, config) = mirror.take().unwrap();
                let prepared = creation.prepared.as_ref().unwrap();
                CreationEvent::Mirrored(files.publish_prepared(config, prepared).map(|_| ()))
            }
            CreationStage::Finished => return Ok(creation.created.unwrap()),
            CreationStage::Failed => {
                assert!(creation.created.is_none());
                return Err(creation.failure.unwrap());
            }
        };
        creation.step(event);
    }
}

const PATH: &str = "/base/work/privileged.conf";

#[test]
fn generated_diff_rewrites_headers_for_long_destination_paths() {
    let path = format!(
        "/opt/homebrew/{}/library.dylib",
        "component".repeat(32)
    );
    let stdout = b"--- /tmp/.rust-write-left-1-2\t2024-01-01\n+++ /tmp/.rust-write-right-1-3\t2024-01-01\n@@ -1 +1 @@\n-before\n+after\n".to_vec();
    let diff = String::from_utf8(generate_diff(&path, Some(1), &stdout).unwrap()).unwrap();

    assert!(diff.starts_with(&format!("--- {}@before\n", path)));
    assert!(diff.contains(&format!("+++ {}@saved\n", path)));
    assert!(diff.ends_with("@@ -1 +1 @@\n-before\n+after\n"));
}

#[test]
fn equal_files_give_an_empty_diff_and_a_failed_run_an_error() {
    assert_eq!(generate_diff("/a", Some(0), &Vec::new()).unwrap(), b"");
    for code in [Some(2), None] {
        let error = generate_diff("/a", code, &b"x".to_vec()).unwrap_err();
        assert_eq!(error.message, "diff generation failed");
    }
    assert_eq!(relabel_diff("one line", "/a"), "one line");
    assert_eq!(relabel_diff("a\nb", "/a"), "--- /a@before\nb");
}

#[test]
fn concurrent_scratch_nonces_are_unique() {
    let ids: Vec<u128> = (0..64 * 4_096).map(|sequence| nonce(17, sequence)).collect();
    let unique: HashSet<u128> = ids.iter().copied().collect();
    assert_eq!(
        unique.len(),
        ids.len(),
        "concurrent scratch nonce collision"
    );
    assert_eq!(nonce(1, 2), (1u128 << 64) + 2);
}

#[test]
fn root_policy_history_can_distinguish_two_sudo_actors() {
    let mut files = Files::default();
    let first = config("/base/store", "root", "luke");
    files.publish(&first, PATH, "vi", b"one\n", b"two\n").unwrap();
    let second = config("/base/store", "root", "pat");
    files.publish(&second, PATH, "vi", b"two\n", b"three\n").unwrap();
    let revisions = files.revisions(&second);
    assert_eq!(
        revisions
            .iter()
            .map(|r| r.actor.as_str())
            .collect::<Vec<_>>(),
        ["luke", "pat"]
    );
    for revision in &revisions {
        let name = format!("{}::_::{}::_::{}::_::a", revision.key, revision.leaf, revision.number);
        let access = String::from_utf8(files.entries[&(b'a', name)].clone()).unwrap();
        assert_eq!(access.trim_end().split('\t').count(), 4);
    }
}

#[test]
fn canonical_revision_is_preserved_and_equivalently_mirrored() {
    let root = config("/base/root-store", "root", "faf");
    let user = config("/base/faf-store", "faf", "faf");
    let mut canonical = Files::default();
    let mut mirror = Files::default();
    mirror.publish(&user, PATH, "vi", b"older\n", b"before\n").unwrap();

    let made = create(
        (&mut canonical, &root),
        Some((&mut mirror, &user)),
        PATH,
        "vi",
        b"before\n",
        b"after\n",
    )
    .unwrap();
    assert!(made.mirror_warning.is_none());
    let root_revision = canonical.revisions(&root).pop().unwrap();
    let user_revision = mirror.revisions(&user).pop().unwrap();
    assert_eq!(root_revision.actor, "faf");
    assert_eq!(user_revision.actor, "faf");
    assert_eq!(root_revision.number, 1);
    assert_eq!(user_revision.number, 2);
    assert_eq!(root_revision.access.epoch, user_revision.access.epoch);
    assert_eq!(canonical.render(&root, &root_revision), b"after\n");
    assert_eq!(mirror.render(&user, &user_revision), b"after\n");
}

#[test]
fn mirror_failure_keeps_canonical_revision_and_reports_partial_success() {
    let root = config("/base/root-store", "root", "faf");
    let user = config("/base/blocked", "faf", "faf");
    let mut canonical = Files::default();
    let mut mirror = Files::default();
    mirror.blocked = true;
    let made = create(
        (&mut canonical, &root),
        Some((&mut mirror, &user)),
        PATH,
        "vi",
        b"before\n",
        b"after\n",
    )
    .unwrap();
    assert_eq!(
        made.mirror_warning.as_deref(),
        Some("user history mirror failed: not a directory")
    );
    assert!(made.mirror_warning.unwrap().contains("mirror failed"));
    assert_eq!(canonical.revisions(&root).len(), 1);
}

#[test]
fn canonical_failure_never_publishes_user_only_revision() {
    let root = config("/base/blocked", "root", "root");
    let user = config("/base/user-store", "me", "me");
    let mut canonical = Files::default();
    canonical.blocked = true;
    let mut mirror = Files::default();
    let made = create(
        (&mut canonical, &root),
        Some((&mut mirror, &user)),
        PATH,
        "vi",
        b"before\n",
        b"after\n",
    );
    assert!(made.is_err());
    assert_eq!(made.unwrap_err().message, "not a directory");
    assert!(mirror.revisions(&user).is_empty());
}

#[test]
fn session_saves_and_dynamically_added_tracks_share_dual_targets() {
    let root = config("/base/root-store", "root", "faf");
    let user = config("/base/faf-store", "faf", "faf");
    let mut canonical = Files::default();
    let mut mirror = Files::default();
    let mut first = Track::new("/base/work/a.txt", "a.txt", b"one\n".to_vec());
    let mut second = Track::new("/base/work/b.txt", "b.txt", b"alpha\n".to_vec());
    let mut results = SessionResults::new();
    let mut save = |track: &mut Track, content: &[u8]| {
        let current = match track.poll_track(true, Some(content.to_vec())) {
            PollAction::Publish(current) => current,
            _ => panic!("nothing to publish"),
        };
        let made = create(
            (&mut canonical, &root),
            Some((&mut mirror, &user)),
            &track.path,
            "vi",
            &track.baseline,
            &current,
        )
        .unwrap();
        let (fallback, warning) = (made.backup_only_fallback, made.mirror_warning);
        results.captured(track, made.number, String::new(), fallback, warning);
        track.mark_published(current);
    };
    save(&mut first, b"two\n");
    save(&mut first, b"three\n");
    save(&mut second, b"beta\n");
    for revisions in [canonical.revisions(&root), mirror.revisions(&user)] {
        assert_eq!(revisions.len(), 3);
        assert_eq!(revisions.iter().filter(|r| r.leaf == "a.txt").count(), 2);
        assert!(revisions.iter().all(|r| r.actor == "faf"));
    }
}

#[test]
fn a_revision_that_cannot_be_compared_is_kept_whole() {
    let mut creation =
        Creation::begin(PATH, "vi", b"one".to_vec(), b"two".to_vec(), false).unwrap();
    let failed = Err(Failure::new(FailureKind::Other, "diff generation failed"));
    creation.step(CreationEvent::Compared(failed, 60, "then".to_string()));
    assert_eq!(creation.stage, CreationStage::Publish);
    let prepared = creation.prepared.as_ref().unwrap();
    assert_eq!(prepared.payload.backup, b"two");
    assert_eq!(prepared.payload.diff, None);
    creation.step(CreationEvent::Published(Ok(4)));
    assert_eq!(creation.stage, CreationStage::Finished);
    assert_eq!(
        creation.created.unwrap(),
        CreatedRevision {
            number: 4,
            backup_only_fallback: true,
            mirror_warning: None,
        }
    );
    let refused = Some(Err(Failure::new(FailureKind::Other, "full")));
    let made = create_revision(4, true, &refused);
    assert_eq!(
        made.mirror_warning.as_deref(),
        Some("user history mirror failed: full")
    );
    let error = Creation::begin("/", "vi", Vec::new(), Vec::new(), true);
    assert_eq!(error.err().unwrap().message, "invalid file name");
}

#[test]
fn a_mirror_of_another_user_needs_linux() {
    for linux in [true, false] {
        assert_eq!(mirror_way(None, linux), Ok(MirrorWay::Directly));
    }
    assert_eq!(mirror_way(Some((7, 8)), true), Ok(MirrorWay::As(7, 8)));
    let error = mirror_way(Some((7, 8)), false).unwrap_err();
    assert_eq!(error.kind, FailureKind::Unsupported);
    assert!(error.message.ends_with("supported only on Linux; use root_only"));
}

#[test]
fn two_sudo_users_share_root_history_without_personal_leakage() {
    let mut shared = Files::default();
    let mut personal: Vec<Vec<String>> = Vec::new();
    for (actor, before, after) in [
        ("bedit", b"one\n".as_slice(), b"two\n".as_slice()),
        ("faf", b"two\n".as_slice(), b"three\n".as_slice()),
    ] {
        let root = config("/base/root-store", "root", actor);
        let user = config("/base/user-store", actor, actor);
        shared.publish(&root, PATH, "vi", before, after).unwrap();
        let mut own = Files::default();
        own.publish(&user, PATH, "vi", before, after).unwrap();
        personal.push(own.revisions(&user).iter().map(|r| r.actor.clone()).collect());
    }
    let root = config("/base/root-store", "root", "root");
    assert_eq!(
        shared
            .revisions(&root)
            .iter()
            .map(|r| r.actor.as_str())
            .collect::<Vec<_>>(),
        ["bedit", "faf"]
    );
    assert_eq!(personal, vec![vec!["bedit"], vec!["faf"]]);
}

#[test]
fn a_publication_that_fails_leaves_nothing() {
    let root = config("/base/root-store", "root", "faf");
    for failing in 0..7 {
        let mut files = Files::default();
        files.fail_after = Some(failing);
        let error = files.publish(&root, PATH, "vi", b"before\n", b"after\n").unwrap_err();
        assert_eq!(error.message, "disk full");
        assert!(files.entries.is_empty());
        assert!(files.links.is_empty());
    }
    let mut files = Files::default();
    files.fail_after = Some(7);
    assert_eq!(files.publish(&root, PATH, "vi", b"before\n", b"after\n"), Ok(1));
    assert_eq!(files.entries.len(), 4);
    assert_eq!(
        files.links[&("base_work".to_string(), "privileged.conf::_::1::_::b".to_string())],
        "/base/root-store/backups/base_work::_::privileged.conf::_::1::_::b"
    );
}

#[test]
fn a_publication_that_finds_its_name_taken_leaves_the_record() {
    let root = config("/base/root-store", "root", "faf");
    for (step, place, kind) in [(0, b'b', 'b'), (1, b'd', 'd'), (3, b'u', 'u')] {
        let mut files = Files::default();
        let taken = (place, format!("base_work::_::privileged.conf::_::1::_::{kind}"));
        files.entries.insert(taken.clone(), b"stale".to_vec());
        files.fail_after = Some(step);
        assert!(files.publish(&root, PATH, "vi", b"before\n", b"after\n").is_err());
        assert_eq!(files.entries.len(), 1);
        assert_eq!(files.entries[&taken], b"stale");
        assert!(files.links.is_empty());
    }
}

#[test]
fn publications_one_after_the_other_count_up() {
    let own = config("/base/store", "me", "me");
    let mut files = Files::default();
    let numbers: Vec<u64> = (0..8)
        .map(|_| files.publish(&own, PATH, "vi", b"one\n", b"two\n").unwrap())
        .collect();
    assert_eq!(numbers, (1..=8).collect::<Vec<u64>>());
    let listed: Vec<u64> = files.revisions(&own).iter().map(|r| r.number).collect();
    assert_eq!(listed, numbers);
}

#[test]
fn a_revision_keeps_what_it_was_compared_with() {
    let own = config("/base/store", "me", "me");
    let mut files = Files::default();
    files.publish(&own, PATH, "vi", b"one\n", b"two\n").unwrap();
    files.publish(&own, PATH, "vi", b"two\n", b"two\n").unwrap();
    let revisions = files.revisions(&own);
    let store = Store::new(own.clone());
    let backup = |r: &Revision| files.entries[&(b'b', store.backup(r))].clone();
    assert_eq!((backup(&revisions[0]), revisions[0].diff.is_some()), (b"one\n".to_vec(), true));
    assert_eq!((backup(&revisions[1]), revisions[1].diff.is_some()), (b"two\n".to_vec(), false));
}

#[test]
fn a_publication_keeps_what_was_there() {
    let root = config("/base/root-store", "root", "faf");
    let mut files = Files::default();
    files.publish(&root, PATH, "vi", b"one\n", b"two\n").unwrap();
    let (entries, links) = (files.entries.clone(), files.links.clone());
    for failing in 0..7 {
        files.fail_after = Some(failing);
        files.publish(&root, PATH, "vi", b"two\n", b"three\n").unwrap_err();
        assert_eq!(files.entries, entries);
        assert_eq!(files.links, links);
    }
    files.fail_after = None;
    assert_eq!(files.publish(&root, PATH, "vi", b"two\n", b"three\n"), Ok(2));
    assert!(entries.iter().all(|(name, bytes)| files.entries[name] == *bytes));
    assert!(links.iter().all(|(name, target)| files.links[name] == *target));
}

#[test]
fn the_access_record_comes_after_what_it_stands_for() {
    let root = config("/base/root-store", "root", "faf");
    let diff = Ok(b"diff".to_vec());
    let (prepared, _) =
        prepare_revision(PATH, "vi", &b"a".to_vec(), &b"b".to_vec(), diff, 60, "then").unwrap();
    let places: Vec<Place> = plan_publication(&prepared, &root, 1)
        .iter()
        .map(|step| step.place)
        .collect();
    assert_eq!(
        places,
        [
            Place::Backups,
            Place::Edits,
            Place::Access,
            Place::Actors,
            Place::Branch,
            Place::Branch,
            Place::Branch,
        ]
    );
}

#[test]
fn published_files_are_read_back() {
    let own = config("/base/store", "me", "me");
    let mut files = Files::default();
    files.publish(&own, PATH, "vi", b"before\n", b"after\n").unwrap();
    files.publish(&own, PATH, "nano", b"after\n", b"after\n").unwrap();
    let revisions = files.revisions(&own);
    assert_eq!(revisions.len(), 2);
    let first = &revisions[0];
    assert_eq!(first.key, "base_work");
    assert_eq!(first.leaf, "privileged.conf");
    assert_eq!((first.access.epoch, first.access.editor.as_str()), (60, "vi"));
    assert_eq!(first.access.path, PATH);
    assert_eq!(
        first.backup,
        "/base/store/backups/base_work::_::privileged.conf::_::1::_::b"
    );
    assert_eq!(
        first.diff.as_deref(),
        Some("/base/store/edits/base_work::_::privileged.conf::_::1::_::d")
    );
    assert_eq!(first.actor, "me");
    assert_eq!(revisions[1].diff, None);
    assert_eq!(files.render(&own, &revisions[1]), b"after\n");

    let (name, bytes) = write_tag(first, "release");
    assert_eq!(name, "base_work::_::privileged.conf::_::1::_::t");
    files.entries.insert((b't', name), bytes);
    assert_eq!(files.revisions(&own)[0].tag.as_deref(), Some("release"));

    let links = files
        .links
        .iter()
        .map(|((_, name), target)| LinkRead {
            name: name.clone(),
            target: Ok(target.clone()),
        })
        .collect();
    let entries = Store::new(own)
        .index_entries(&vec![BranchRead {
            branch: Ok(files.branches["base_work"].clone()),
            links: Ok(links),
        }])
        .unwrap();
    let kinds: Vec<(u64, char)> = entries.iter().map(|e| (e.revision, e.kind)).collect();
    assert_eq!(kinds, vec![(1, 'a'), (1, 'b'), (1, 'd'), (2, 'a'), (2, 'b')]);
    assert!(entries.iter().all(|e| e.branch == "/base/work"));
}

#[test]
fn unreadable_records_are_passed_over_or_refused() {
    let own = config("/base/store", "me", "me");
    let store = Store::new(own);
    let record = |name: &str, access: &[u8], has_backup: bool| RecordRead {
        name: name.to_string(),
        access: Ok(access.to_vec()),
        has_backup,
        tag: FileRead::Missing,
        actor: FileRead::Missing,
        diff: Presence::Missing,
    };
    let good = b"5\tstamp\t/a/b\tvi\n".as_slice();
    assert_eq!(
        store.revisions(&vec![record("stray", b"", true)]),
        Ok(Vec::new())
    );
    assert_eq!(
        store.revisions(&vec![record("a::_::b::_::1::_::a", good, false)]),
        Ok(Vec::new())
    );
    let error = store
        .revisions(&vec![record("a::_::b::_::1::_::a", b"junk", true)])
        .unwrap_err();
    assert_eq!(error.kind, FailureKind::InvalidData);
    let mut tagged = record("a::_::b::_::1::_::a", good, true);
    tagged.tag = FileRead::Bytes(b"\xff".to_vec());
    assert_eq!(
        store.revisions(&vec![tagged]).unwrap_err().kind,
        FailureKind::InvalidData
    );
    let mut failing = record("a::_::b::_::1::_::a", good, true);
    failing.actor = FileRead::Failed(Failure::new(FailureKind::PermissionDenied, "no"));
    assert_eq!(
        store.revisions(&vec![failing]).unwrap_err(),
        Failure::new(FailureKind::PermissionDenied, "no")
    );
    let parsed = parse_access_bytes(&good.to_vec()).unwrap();
    assert_eq!((parsed.epoch, parsed.path.as_str()), (5, "/a/b"));
    assert!(parse_access_bytes(&b"x\ts\t/p\te\n".to_vec()).is_err());
    assert!(parse_access_bytes(&b"\xff\xfe".to_vec()).is_err());
}

#[test]
fn revisions_are_numbered_after_the_greatest() {
    let read = |name: &str| AllocationRead {
        name: name.to_string(),
        access: Ok(b"5\tstamp\t/a/b\tvi\n".to_vec()),
    };
    let reads = vec![
        read("k::_::f::_::2::_::a"),
        read("k::_::f::_::9::_::a"),
        read("k::_::g::_::40::_::a"),
        read("not a record"),
    ];
    assert_eq!(next_revision(&reads, "k", "f"), Ok(10));
    assert_eq!(next_revision(&reads, "k", "h"), Ok(1));
    let full = vec![read("k::_::f::_::18446744073709551615::_::a")];
    assert_eq!(
        next_revision(&full, "k", "f").unwrap_err().message,
        "revision number overflow"
    );
    let broken = vec![AllocationRead {
        name: "other::_::f::_::1::_::a".to_string(),
        access: Ok(b"junk".to_vec()),
    }];
    assert!(next_revision(&broken, "k", "f").is_err());
}

#[test]
fn a_revision_without_a_diff_keeps_what_it_represents() {
    let failed = Err(Failure::new(FailureKind::Other, "no diff"));
    let (prepared, fallback) = prepare_revision(
        "/w/a",
        "vi",
        &b"old".to_vec(),
        &b"new".to_vec(),
        failed,
        1,
        "s",
    )
    .unwrap();
    assert!(fallback);
    assert_eq!(prepared.payload.backup, b"new");
    assert_eq!(prepared.payload.diff, None);
    let steps = plan_publication(&prepared, &config("/s", "me", "me"), 4);
    let places: Vec<Place> = steps.iter().map(|s| s.place).collect();
    assert_eq!(
        places,
        vec![Place::Backups, Place::Access, Place::Branch, Place::Branch]
    );
    assert_eq!(branch_content(&prepared), b"/w\n");
    let error = prepare_revision(
        "/w/..",
        "vi",
        &Vec::new(),
        &Vec::new(),
        Ok(Vec::new()),
        1,
        "s",
    )
    .unwrap_err();
    assert_eq!(error.message, "invalid file name");
    assert_eq!(revision_place("/w/a"), Ok(("w".to_string(), "a".to_string())));
    assert_eq!(
        live_place("/").unwrap_err().message,
        "invalid live file name"
    );
}

#[test]
fn children_lie_directly_in_the_root() {
    assert_eq!(child_name("/r", "/r/access"), Ok("access".to_string()));
    assert_eq!(child_name("/r", "/x/access").unwrap_err().kind, FailureKind::InvalidInput);
    assert!(child_name("/r", "/r").is_err());
    assert!(child_name("/r", "/r/a/b").is_err());
    assert_eq!(
        parse_link_name("a.txt::_::3::_::d"),
        Some(("a.txt".to_string(), 3, 'd'))
    );
    assert_eq!(parse_link_name("a.txt::_::3::_::t"), None);
}

#[test]
fn a_new_revision_is_added_to_the_list_and_nothing_else_changes() {
    let own = config("/base/store", "me", "me");
    let mut files = Files::default();
    let other = "/base/work/other.conf";
    files.publish(&own, PATH, "vi", b"one\n", b"two\n").unwrap();
    files.publish(&own, other, "vi", b"", b"text\n").unwrap();
    let sudo = config("/base/store", "me", "faf");
    let before = files.revisions(&sudo);
    assert_eq!(files.publish(&sudo, PATH, "nano", b"two\n", b"three\n"), Ok(2));
    let mut after = files.revisions(&sudo);
    let place = after
        .iter()
        .position(|r| r.access.path == PATH && r.number == 2)
        .unwrap();
    let added = after.remove(place);
    assert_eq!(after, before);
    assert_eq!((added.access.editor.as_str(), added.actor.as_str()), ("nano", "faf"));
    assert_eq!(added.access.path, PATH);
    assert_eq!(files.render(&sudo, &added), b"three\n");
    assert_eq!(files.render(&sudo, &before[1]), b"two\n");
    assert_eq!(next_revision(&files.allocation(), &added.key, &added.leaf), Ok(3));
}

#[test]
fn the_latest_revision_has_the_greatest_number() {
    let own = config("/base/store", "me", "me");
    let mut files = Files::default();
    for number in 1..=12 {
        assert_eq!(files.publish(&own, PATH, "vi", b"one\n", b"two\n"), Ok(number));
        files.publish(&own, "/base/other.conf", "vi", b"", b"x\n").unwrap();
        let revisions = files.revisions(&own);
        let latest = &revisions[latest_revision(&revisions, PATH).unwrap()];
        assert_eq!(latest.number, number);
        assert_eq!(
            next_revision(&files.allocation(), &latest.key, &latest.leaf),
            Ok(number + 1)
        );
    }
}

#[test]
fn the_order_of_reading_makes_no_difference() {
    let own = config("/base/store", "me", "me");
    let mut files = Files::default();
    files.publish(&own, PATH, "vi", b"one\n", b"two\n").unwrap();
    files.publish(&own, PATH, "vi", b"two\n", b"three\n").unwrap();
    files.publish(&own, "/base/work/other.conf", "vi", b"", b"x\n").unwrap();
    let mut reads = files.records();
    reads.reverse();
    assert_eq!(
        Store::new(own.clone()).revisions(&reads).unwrap(),
        files.revisions(&own)
    );
}

#[test]
fn a_new_revision_is_indexed() {
    let own = config("/base/store", "me", "me");
    let mut files = Files::default();
    files.publish(&own, PATH, "vi", b"one\n", b"one\n").unwrap();
    files.publish(&own, "/base/z.conf", "vi", b"one\n", b"two\n").unwrap();
    let before = files.index(&own);
    let number = files.publish(&own, PATH, "vi", b"one\n", b"two\n").unwrap();
    let (added, kept): (Vec<IndexEntry>, Vec<IndexEntry>) = files
        .index(&own)
        .into_iter()
        .partition(|e| e.leaf == "privileged.conf" && e.revision == number);
    assert_eq!(kept, before);
    let said: Vec<(char, &str)> = added
        .iter()
        .map(|e| (e.kind, e.target.as_str()))
        .collect();
    assert_eq!(
        said,
        vec![
            ('a', "/base/store/access/base_work::_::privileged.conf::_::2::_::a"),
            ('b', "/base/store/backups/base_work::_::privileged.conf::_::2::_::b"),
            ('d', "/base/store/edits/base_work::_::privileged.conf::_::2::_::d"),
        ]
    );
    assert!(added.iter().all(|e| e.branch == "/base/work"));
    let order: Vec<(String, String, u64, char)> = files
        .index(&own)
        .iter()
        .map(|e| (e.branch.clone(), e.leaf.clone(), e.revision, e.kind))
        .collect();
    let mut sorted = order.clone();
    sorted.sort();
    assert_eq!(order, sorted);
}

#[test]
fn a_tag_takes_the_place_of_another_tag() {
    let own = config("/base/store", "me", "me");
    let mut files = Files::default();
    files.publish(&own, PATH, "vi", b"one\n", b"two\n").unwrap();
    files.publish(&own, PATH, "vi", b"two\n", b"three\n").unwrap();
    let untouched = files.revisions(&own);
    for text in ["first", "second line", "second line"] {
        let (name, bytes) = write_tag(&untouched[1], text);
        files.entries.insert((b't', name), bytes);
        let revisions = files.revisions(&own);
        assert_eq!(revisions[0], untouched[0]);
        assert_eq!(revisions[1].tag.as_deref(), Some(text));
        assert_eq!(revisions[1].access, untouched[1].access);
        assert_eq!(revisions.len(), 2);
    }
    assert_eq!(
        files
            .entries
            .keys()
            .filter(|(place, _)| *place == b't')
            .count(),
        1
    );
}

/// Makes the revision that a restore wants recorded.
fn record(files: &mut Files, config: &Config, restore: &Restore, editor: &str) -> RestoreEvent {
    let creation = restore.recording(PATH, editor, false).unwrap();
    RestoreEvent::Created(create(
        (files, config),
        None,
        &creation.path,
        &creation.editor,
        &creation.baseline,
        &creation.represented,
    ))
}

fn restored(files: &mut Files, config: &Config, live: &[u8], target: &[u8]) -> u64 {
    let revisions = files.revisions(config);
    let mut restore = Restore::begin(PATH, live.to_vec(), &revisions).unwrap();
    while restore.stage != RestoreStage::Finished {
        let event = match restore.stage {
            RestoreStage::RenderLatest => {
                RestoreEvent::Bytes(Ok(files.render(config, &revisions[restore.latest])))
            }
            RestoreStage::RecordSync | RestoreStage::Record => {
                record(files, config, &restore, "restore-backup")
            }
            RestoreStage::ReadTarget => RestoreEvent::Bytes(Ok(target.to_vec())),
            RestoreStage::ReplaceLive => RestoreEvent::Replaced(Ok(())),
            other => panic!("unexpected stage {other:?}"),
        };
        restore.step(event);
    }
    restore.created.unwrap().number
}

#[test]
fn a_restore_takes_the_numbers_after_the_latest() {
    let own = config("/base/store", "me", "me");
    let mut files = Files::default();
    files.publish(&own, PATH, "vi", b"one\n", b"two\n").unwrap();
    files.publish(&own, PATH, "vi", b"two\n", b"three\n").unwrap();
    assert_eq!(restored(&mut files, &own, b"three\n", b"one\n"), 3);
    assert_eq!(restored(&mut files, &own, b"changed\n", b"two\n"), 5);
    let made: Vec<(u64, String, Vec<u8>)> = files
        .revisions(&own)
        .iter()
        .map(|r| (r.number, r.access.editor.clone(), files.render(&own, r)))
        .collect();
    assert_eq!(
        made,
        vec![
            (1, "vi".to_string(), b"two\n".to_vec()),
            (2, "vi".to_string(), b"three\n".to_vec()),
            (3, "restore-backup".to_string(), b"one\n".to_vec()),
            (4, "sync".to_string(), b"changed\n".to_vec()),
            (5, "restore-backup".to_string(), b"two\n".to_vec()),
        ]
    );
}

fn made(number: u64, warning: Option<&str>) -> CreatedRevision {
    CreatedRevision {
        number,
        backup_only_fallback: false,
        mirror_warning: warning.map(String::from),
    }
}

#[test]
fn sudo_restore_mutates_live_once_and_publishes_to_both_targets() {
    let root = config("/base/root-store", "root", "faf");
    let user = config("/base/faf-store", "faf", "faf");
    let mut canonical = Files::default();
    let mut mirror = Files::default();
    canonical.publish(&root, PATH, "vi", b"before\n", b"after\n").unwrap();
    mirror.publish(&user, PATH, "vi", b"before\n", b"after\n").unwrap();
    let mut live = b"after\n".to_vec();
    let revisions = canonical.revisions(&root);
    let mut restore = Restore::begin(PATH, live.clone(), &revisions).unwrap();
    let mut replaced = 0;
    while restore.stage != RestoreStage::Finished {
        let event = match restore.stage {
            RestoreStage::RenderLatest => {
                RestoreEvent::Bytes(Ok(canonical.render(&root, &revisions[restore.latest])))
            }
            RestoreStage::ReadTarget => RestoreEvent::Bytes(Ok(canonical.entries
                [&(b'b', Store::new(root.clone()).backup(&revisions[0]))]
                .clone())),
            RestoreStage::ReplaceLive => {
                replaced += 1;
                live = restore.target.clone();
                RestoreEvent::Replaced(Ok(()))
            }
            RestoreStage::Record => {
                let (before, after) = (restore.live.clone(), restore.target.clone());
                RestoreEvent::Created(create(
                    (&mut canonical, &root),
                    Some((&mut mirror, &user)),
                    PATH,
                    "restore-backup",
                    &before,
                    &after,
                ))
            }
            other => panic!("unexpected stage {other:?}"),
        };
        restore.step(event);
    }
    assert_eq!(live, b"before\n");
    assert_eq!(replaced, 1);
    assert_eq!(canonical.revisions(&root).len(), 2);
    assert_eq!(mirror.revisions(&user).len(), 2);
    assert_eq!(restore.created.unwrap().number, 2);
}

#[test]
fn a_live_file_that_differs_is_recorded_before_it_is_replaced() {
    let own = config("/base/store", "me", "me");
    let mut files = Files::default();
    files.publish(&own, PATH, "vi", b"before\n", b"after\n").unwrap();
    let revisions = files.revisions(&own);
    let mut restore = Restore::begin(PATH, b"changed\n".to_vec(), &revisions).unwrap();
    restore.step(RestoreEvent::Bytes(Ok(b"after\n".to_vec())));
    assert_eq!(restore.stage, RestoreStage::RecordSync);
    restore.step(RestoreEvent::Created(Ok(made(2, Some("first")))));
    assert_eq!(restore.stage, RestoreStage::ReadTarget);
    restore.step(RestoreEvent::Bytes(Ok(b"before\n".to_vec())));
    restore.step(RestoreEvent::Replaced(Ok(())));
    assert_eq!(restore.stage, RestoreStage::Record);
    restore.step(RestoreEvent::Created(Ok(made(3, Some("second")))));
    assert_eq!(restore.stage, RestoreStage::Finished);
    let created = restore.created.unwrap();
    assert_eq!(created.number, 3);
    assert_eq!(created.mirror_warning.as_deref(), Some("first; second"));
}

#[test]
fn a_restore_that_cannot_be_recorded_is_put_back() {
    let own = config("/base/store", "me", "me");
    let mut files = Files::default();
    files.publish(&own, PATH, "vi", b"before\n", b"after\n").unwrap();
    let revisions = files.revisions(&own);
    let mut restore = Restore::begin(PATH, b"after\n".to_vec(), &revisions).unwrap();
    restore.step(RestoreEvent::Bytes(Ok(b"after\n".to_vec())));
    restore.step(RestoreEvent::Bytes(Ok(b"before\n".to_vec())));
    restore.step(RestoreEvent::Replaced(Ok(())));
    restore.step(RestoreEvent::Created(Err(Failure::new(
        FailureKind::Other,
        "full",
    ))));
    assert_eq!(restore.stage, RestoreStage::PutBack);
    assert_eq!(restore.live, b"after\n");
    restore.step(RestoreEvent::Replaced(Ok(())));
    assert_eq!(restore.stage, RestoreStage::Failed);
    assert_eq!(restore.failure.unwrap().message, "full");
    match Restore::begin("/none", Vec::new(), &revisions) {
        Ok(_) => panic!("a file without revisions was restored"),
        Err(failure) => assert_eq!(failure.message, "revision not found"),
    }
    assert_eq!(latest_revision(&revisions, PATH), Some(0));
}

#[test]
fn warnings_names_and_modes() {
    let some = |s: &str| Some(s.to_string());
    assert_eq!(merge_warnings(some("a"), some("b")).as_deref(), Some("a; b"));
    assert_eq!(merge_warnings(None, some("b")).as_deref(), Some("b"));
    assert_eq!(merge_warnings(some("a"), None).as_deref(), Some("a"));
    assert_eq!(merge_warnings(None, None), None);
    assert_eq!(permission_bits(0o100644), 0o644);
    assert_eq!(permission_bits(0o104755), 0o4755);
    assert!(names_component("x"));
    assert!(!names_component(".."));
    assert!(!names_component("a/b"));
    assert_eq!(staging_name("tag", 7, 9, None), ".bedit-tag-7-9");
    assert_eq!(staging_name("tag", 7, 9, Some("chosen")), "chosen");
    assert_eq!(staging_name("tag", 7, 9, Some("a/b")), ".bedit-tag-7-9");
    assert_eq!(publish_mirror(0), Ok(()));
    assert_eq!(publish_mirror(0x1_0000), Ok(()));
    assert_eq!(publish_mirror(0x80), Ok(()));
    assert_eq!(
        publish_mirror(1 << 8).unwrap_err().kind,
        FailureKind::PermissionDenied
    );
    assert!(publish_mirror(255 << 8).is_err());
    assert!(publish_mirror(9).is_err());
    assert_eq!(patch_result(true, "x", Ok(vec![1])), Ok(vec![1]));
    assert_eq!(
        patch_result(false, "exit status: 1", Ok(vec![1]))
            .unwrap_err()
            .message,
        "patch exited with exit status: 1"
    );
}
