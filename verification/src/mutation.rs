//! Writing to a repository: new revisions, their publication, tags and restores.

use crate::config::Config;
use crate::encoding::{bytes_of, copy_bytes, lossy, same_bytes};
use crate::failure::{Failure, FailureKind};
use crate::order::Replicate;
use crate::path::{file_name, join, parent_or_root, same_path};
use crate::paths::{directory_key, parse_record_name, record_name, SEPARATOR};
use crate::store::{parse_access_bytes, Revision};
use crate::text::{chars_of, find_from, same, text_of, to_decimal, to_wide_decimal};
#[allow(unused_imports)]
use crate::{
    config::ConfigView,
    encoding::{lemma_encode_concat, lemma_encode_lacks, lossy_text},
    failure::{fails, FailureView},
    path::{components, directory_of, file_name_of, joined_path, same_path_text},
    paths::{key_of, law_record_name_round_trip, name_of_record, record_of_name},
    store::{
        access_line, access_of_bytes, assembled, bytes_before, file_text, AccessView, Assembled,
        FileRead, Presence, RecordRead, RevisionView,
    },
    text::{
        all_digits, all_views, begins_with, cut_at, decimal, ends_cleanly, finishes_with,
        first_occurrence, law_decimal_round_trip, lemma_decimal, lemma_ends_cleanly,
        lemma_first_occurrence_is, lemma_pieces_last, lemma_pieces_step, occurs, occurs_at,
        one_line, opt_view, trimmed_end,
    },
};
use vstd::prelude::*;
#[allow(unused_imports)]
use vstd::utf8::{
    char_is_scalar, decode_utf8, encode_scalar, encode_utf8, encode_utf8_decode_utf8,
    encode_utf8_valid_utf8, valid_utf8,
};

verus! {

/// What the making of a revision came to.
#[derive(Debug, PartialEq, Eq)]
pub struct CreatedRevision {
    pub number: u64,
    pub backup_only_fallback: bool,
    pub mirror_warning: Option<String>,
}

/// The model of a created revision.
pub struct CreatedView {
    pub number: u64,
    pub backup_only_fallback: bool,
    pub mirror_warning: Option<Seq<char>>,
}

impl View for CreatedRevision {
    type V = CreatedView;

    open spec fn view(&self) -> CreatedView {
        CreatedView {
            number: self.number,
            backup_only_fallback: self.backup_only_fallback,
            mirror_warning: opt_view(self.mirror_warning),
        }
    }
}

/// What a revision stores: a backup, and the diff that leads from it to the content.
#[derive(Debug, PartialEq, Eq)]
pub struct RevisionPayload {
    pub backup: Vec<u8>,
    pub diff: Option<Vec<u8>>,
}

/// The model of a payload.
pub struct PayloadView {
    pub backup: Seq<u8>,
    pub diff: Option<Seq<u8>>,
}

/// The bytes of an optional vector.
pub open spec fn opt_bytes(b: Option<Vec<u8>>) -> Option<Seq<u8>> {
    match b {
        Some(v) => Some(v@),
        None => None,
    }
}

impl View for RevisionPayload {
    type V = PayloadView;

    open spec fn view(&self) -> PayloadView {
        PayloadView { backup: self.backup@, diff: opt_bytes(self.diff) }
    }
}

/// A revision that is ready to be published.
#[derive(Debug, PartialEq, Eq)]
pub struct PreparedRevision {
    pub full: String,
    pub directory: String,
    pub key: String,
    pub leaf: String,
    pub editor: String,
    pub epoch: u64,
    pub stamp: String,
    pub payload: RevisionPayload,
}

/// The model of a prepared revision.
pub struct PreparedView {
    pub full: Seq<char>,
    pub directory: Seq<char>,
    pub key: Seq<char>,
    pub leaf: Seq<char>,
    pub editor: Seq<char>,
    pub epoch: u64,
    pub stamp: Seq<char>,
    pub payload: PayloadView,
}

impl View for PreparedRevision {
    type V = PreparedView;

    open spec fn view(&self) -> PreparedView {
        PreparedView {
            full: self.full@,
            directory: self.directory@,
            key: self.key@,
            leaf: self.leaf@,
            editor: self.editor@,
            epoch: self.epoch,
            stamp: self.stamp@,
            payload: self.payload@,
        }
    }
}

/// The name and the content of the record of a tag.
pub fn write_tag(revision: &Revision, text: &str) -> (r: (String, Vec<u8>))
    ensures
        r.0@ == name_of_record(revision.key@, revision.leaf@, revision.number as nat, 't'),
        r.1@ == encode_utf8(text@ + "\n"@),
{
    let mut content: String = text.to_owned();
    content.append("\n");
    (
        record_name(revision.key.as_str(), revision.leaf.as_str(), revision.number, 't'),
        bytes_of(content.as_str()),
    )
}

/// The text of a unified diff with both headers naming the file.
pub open spec fn relabelled(text: Seq<char>, path: Seq<char>) -> Seq<char> {
    match cut_at(text, "\n"@) {
        None => text,
        Some((_, rest)) => {
            let headed = "--- "@ + path + "@before"@ + "\n"@ + rest;
            match first_occurrence(headed, "\n+++ "@, 0) {
                None => headed,
                Some(i) => match first_occurrence(headed, "\n"@, i + 1) {
                    None => headed,
                    Some(j) => headed.subrange(0, i + 1) + "+++ "@ + path + "@saved"@
                        + headed.subrange(j, headed.len() as int),
                },
            }
        },
    }
}

/// The text of a unified diff with both headers naming the file.
pub fn relabel_diff(text: &str, path: &str) -> (r: String)
    ensures
        r@ == relabelled(text@, path@),
{
    match crate::text::split_once(text, "\n") {
        None => text.to_owned(),
        Some((_, rest)) => {
            let mut headed: String = "--- ".to_owned();
            headed.append(path);
            headed.append("@before");
            headed.append("\n");
            headed.append(rest.as_str());
            let x: Vec<char> = chars_of(headed.as_str());
            match find_from(&x, &chars_of("\n+++ "), 0) {
                None => headed,
                Some(i) => {
                    proof {
                        reveal_strlit("\n+++ ");
                    }
                    match find_from(&x, &chars_of("\n"), i + 1) {
                        None => headed,
                        Some(j) => {
                            let mut out: String = text_of(&x, 0, i + 1);
                            out.append("+++ ");
                            out.append(path);
                            out.append("@saved");
                            out.append(text_of(&x, j, x.len()).as_str());
                            out
                        },
                    }
                },
            }
        },
    }
}

/// What a run of `diff` gives: its relabelled output where it found the files equal or different,
/// else a failure.
pub fn generate_diff(path: &str, code: Option<i32>, stdout: &Vec<u8>) -> (r: Result<
    Vec<u8>,
    Failure,
>)
    ensures
        match r {
            Ok(b) => (code == Some(0i32) || code == Some(1i32)) && b@ == encode_utf8(
                relabelled(lossy_text(stdout@), path@),
            ),
            Err(f) => code != Some(0i32) && code != Some(1i32) && f@ == fails(
                FailureKind::Other,
                "diff generation failed"@,
            ),
        },
{
    match code {
        Some(n) => {
            if n == 0 || n == 1 {
                let text: String = lossy(stdout);
                return Ok(bytes_of(relabel_diff(text.as_str(), path).as_str()));
            }
        },
        None => {},
    }
    Err(Failure::new(FailureKind::Other, "diff generation failed"))
}

/// What a revision stores for a file that went from `baseline` to `represented`: the old content
/// and the diff where there is one, else the new content alone.
pub open spec fn payload_of(
    baseline: Seq<u8>,
    represented: Seq<u8>,
    generated: Result<Vec<u8>, Failure>,
) -> PayloadView {
    match generated {
        Ok(diff) => if diff@.len() > 0 {
            PayloadView { backup: baseline, diff: Some(diff@) }
        } else {
            PayloadView { backup: represented, diff: None }
        },
        Err(_) => PayloadView { backup: represented, diff: None },
    }
}

/// Where the revisions of a file go: directory key and file name.
pub fn revision_place(path: &str) -> (r: Result<(String, String), Failure>)
    ensures
        match r {
            Ok(p) => file_name_of(path@) == Some(p.1@) && p.0@ == key_of(directory_of(path@)),
            Err(f) => file_name_of(path@) is None && f@ == fails(
                FailureKind::InvalidInput,
                "invalid file name"@,
            ),
        },
{
    match file_name(path) {
        Some(leaf) => Ok((directory_key(parent_or_root(path).as_str()), leaf)),
        None => Err(Failure::new(FailureKind::InvalidInput, "invalid file name")),
    }
}

/// Makes a revision ready to be published. The flag tells that no diff could be made.
pub fn prepare_revision(
    path: &str,
    editor: &str,
    baseline: &Vec<u8>,
    represented: &Vec<u8>,
    generated: Result<Vec<u8>, Failure>,
    epoch: u64,
    stamp: &str,
) -> (r: Result<(PreparedRevision, bool), Failure>)
    ensures
        match r {
            Ok(p) => file_name_of(path@) == Some(p.0@.leaf) && p.0@ == (PreparedView {
                full: path@,
                directory: directory_of(path@),
                key: key_of(directory_of(path@)),
                leaf: p.0@.leaf,
                editor: editor@,
                epoch,
                stamp: stamp@,
                payload: payload_of(baseline@, represented@, generated),
            }) && p.1 == (generated is Err),
            Err(f) => file_name_of(path@) is None && f@ == fails(
                FailureKind::InvalidInput,
                "invalid file name"@,
            ),
        },
{
    let (key, leaf): (String, String) = match revision_place(path) {
        Ok(p) => p,
        Err(f) => {
            return Err(f);
        },
    };
    let (payload, fallback): (RevisionPayload, bool) = match generated {
        Ok(diff) => if diff.len() > 0 {
            (RevisionPayload { backup: copy_bytes(baseline), diff: Some(diff) }, false)
        } else {
            (RevisionPayload { backup: copy_bytes(represented), diff: None }, false)
        },
        Err(_) => (RevisionPayload { backup: copy_bytes(represented), diff: None }, true),
    };
    Ok(
        (
            PreparedRevision {
                full: path.to_owned(),
                directory: parent_or_root(path),
                key,
                leaf,
                editor: editor.to_owned(),
                epoch,
                stamp: stamp.to_owned(),
                payload,
            },
            fallback,
        ),
    )
}

/// What a mirror that failed has to say.
pub open spec fn mirror_says(mirror: Option<Result<(), Failure>>) -> Option<Seq<char>> {
    match mirror {
        Some(Err(f)) => Some("user history mirror failed: "@ + f.message@),
        _ => None,
    }
}

/// What the making of a revision came to: a mirror that failed is a warning only.
pub fn create_revision(number: u64, fallback: bool, mirror: &Option<Result<(), Failure>>) -> (r:
    CreatedRevision)
    ensures
        r@ == (CreatedView {
            number,
            backup_only_fallback: fallback,
            mirror_warning: mirror_says(*mirror),
        }),
{
    let mirror_warning: Option<String> = match mirror {
        Some(result) => match result {
            Err(f) => {
                let mut warning: String = "user history mirror failed: ".to_owned();
                warning.append(f.message.as_str());
                Some(warning)
            },
            Ok(_) => None,
        },
        None => None,
    };
    CreatedRevision { number, backup_only_fallback: fallback, mirror_warning }
}

/// Calls `libc::WIFEXITED`. Trusted: on Linux a process has ended by itself exactly where the lowest
/// seven bits of its wait status, which would name a signal, are zero.
#[verifier::external_body]
fn ended_by_itself(status: i32) -> (r: bool)
    ensures
        r == (status & 0x7f == 0),
{
    libc::WIFEXITED(status)
}

/// Calls `libc::WEXITSTATUS`. Trusted: on Linux the code that a process ended with is in the eight
/// bits of its wait status above the lowest eight.
#[verifier::external_body]
fn exit_code(status: i32) -> (r: i32)
    ensures
        r == (status >> 8) & 0xff,
{
    libc::WEXITSTATUS(status)
}

/// What the wait status of the unprivileged publisher of a mirror means: it has done its work
/// where it ended by itself, with code zero.
pub fn publish_mirror(status: i32) -> (r: Result<(), Failure>)
    ensures
        r is Ok <==> status & 0x7f == 0 && (status >> 8) & 0xff == 0,
        r matches Err(f) ==> f@ == fails(
            FailureKind::PermissionDenied,
            "secure unprivileged mirror publisher rejected the repository"@,
        ),
{
    if ended_by_itself(status) && exit_code(status) == 0 {
        Ok(())
    } else {
        Err(
            Failure::new(
                FailureKind::PermissionDenied,
                "secure unprivileged mirror publisher rejected the repository",
            ),
        )
    }
}

/// How a mirror is published.
#[derive(Clone, Copy, Debug, PartialEq, Eq, Structural)]
pub enum MirrorWay {
    /// As the running user.
    Directly,
    /// In a process that gave up its rights for those of a user and a group.
    As(u32, u32),
}

/// How a mirror with an owner is published: one that belongs to somebody else only where a
/// process can give up its rights.
pub fn mirror_way(owner: Option<(u32, u32)>, linux: bool) -> (r: Result<MirrorWay, Failure>)
    ensures
        r matches Ok(way) ==> match owner {
            None => way == MirrorWay::Directly,
            Some(o) => linux && way == MirrorWay::As(o.0, o.1),
        },
        r matches Err(f) ==> owner is Some && !linux && f@ == fails(
            FailureKind::Unsupported,
            "secure privileged user-history mirroring is currently supported only on Linux; use root_only"@,
        ),
{
    match owner {
        None => Ok(MirrorWay::Directly),
        Some((uid, gid)) => if linux {
            Ok(MirrorWay::As(uid, gid))
        } else {
            Err(
                Failure::new(
                    FailureKind::Unsupported,
                    "secure privileged user-history mirroring is currently supported only on Linux; use root_only",
                ),
            )
        },
    }
}

/// How far the making of a revision has come, and what it wants done.
#[derive(Clone, Copy, Debug, PartialEq, Eq, Structural)]
pub enum CreationStage {
    /// Compare what the file held with what it holds.
    Compare,
    /// Publish the revision in the history.
    Publish,
    /// Publish the revision in the mirror.
    Mirror,
    /// The revision is made.
    Finished,
    /// The revision could not be made.
    Failed,
}

/// What came of what the making of a revision wanted done.
pub enum CreationEvent {
    /// The diff, with the time in seconds and as text.
    Compared(Result<Vec<u8>, Failure>, u64, String),
    /// The number in the history.
    Published(Result<u64, Failure>),
    Mirrored(Result<(), Failure>),
}

/// The making of a revision.
pub struct Creation {
    pub stage: CreationStage,
    pub path: String,
    pub editor: String,
    pub baseline: Vec<u8>,
    pub represented: Vec<u8>,
    pub mirrored: bool,
    pub prepared: Option<PreparedRevision>,
    pub fallback: bool,
    pub number: u64,
    pub created: Option<CreatedRevision>,
    pub failure: Option<Failure>,
}

/// The model of the making of a revision.
pub struct CreationView {
    pub stage: CreationStage,
    pub path: Seq<char>,
    pub editor: Seq<char>,
    pub baseline: Seq<u8>,
    pub represented: Seq<u8>,
    pub mirrored: bool,
    pub prepared: Option<PreparedView>,
    pub fallback: bool,
    pub number: u64,
    pub created: Option<CreatedView>,
    pub failure: Option<FailureView>,
}

impl View for Creation {
    type V = CreationView;

    open spec fn view(&self) -> CreationView {
        CreationView {
            stage: self.stage,
            path: self.path@,
            editor: self.editor@,
            baseline: self.baseline@,
            represented: self.represented@,
            mirrored: self.mirrored,
            prepared: match self.prepared {
                Some(p) => Some(p@),
                None => None,
            },
            fallback: self.fallback,
            number: self.number,
            created: match self.created {
                Some(c) => Some(c@),
                None => None,
            },
            failure: match self.failure {
                Some(f) => Some(f@),
                None => None,
            },
        }
    }
}

/// The making of a revision that has just begun.
pub open spec fn creation_start(
    path: Seq<char>,
    editor: Seq<char>,
    baseline: Seq<u8>,
    represented: Seq<u8>,
    mirrored: bool,
) -> CreationView {
    CreationView {
        stage: CreationStage::Compare,
        path,
        editor,
        baseline,
        represented,
        mirrored,
        prepared: None,
        fallback: false,
        number: 0,
        created: None,
        failure: None,
    }
}

/// Whether an event answers what the making of a revision wants done.
pub open spec fn creation_answers(stage: CreationStage, event: CreationEvent) -> bool {
    match stage {
        CreationStage::Compare => event is Compared,
        CreationStage::Publish => event is Published,
        CreationStage::Mirror => event is Mirrored,
        CreationStage::Finished | CreationStage::Failed => false,
    }
}

/// The revision that is published after the comparison.
pub open spec fn prepared_from(
    c: CreationView,
    generated: Result<Vec<u8>, Failure>,
    epoch: u64,
    stamp: Seq<char>,
) -> PreparedView {
    PreparedView {
        full: c.path,
        directory: directory_of(c.path),
        key: key_of(directory_of(c.path)),
        leaf: file_name_of(c.path).unwrap(),
        editor: c.editor,
        epoch,
        stamp,
        payload: payload_of(c.baseline, c.represented, generated),
    }
}

/// The making of a revision that has come to its end.
pub open spec fn creation_finished(
    c: CreationView,
    number: u64,
    mirror: Option<Result<(), Failure>>,
) -> CreationView {
    CreationView {
        stage: CreationStage::Finished,
        number,
        created: Some(
            CreatedView {
                number,
                backup_only_fallback: c.fallback,
                mirror_warning: mirror_says(mirror),
            },
        ),
        ..c
    }
}

/// The making of a revision after an event. What cannot be compared is kept whole; a history
/// that cannot be written ends it; a mirror that cannot be written is a warning.
pub open spec fn creation_after(c: CreationView, event: CreationEvent) -> CreationView {
    match (c.stage, event) {
        (CreationStage::Compare, CreationEvent::Compared(generated, epoch, stamp)) => CreationView {
            stage: CreationStage::Publish,
            prepared: Some(prepared_from(c, generated, epoch, stamp@)),
            fallback: generated is Err,
            ..c
        },
        (CreationStage::Publish, CreationEvent::Published(Ok(number))) => if c.mirrored {
            CreationView { stage: CreationStage::Mirror, number, ..c }
        } else {
            creation_finished(c, number, None)
        },
        (CreationStage::Publish, CreationEvent::Published(Err(f))) => CreationView {
            stage: CreationStage::Failed,
            failure: Some(f@),
            ..c
        },
        (CreationStage::Mirror, CreationEvent::Mirrored(result)) => creation_finished(
            c,
            c.number,
            Some(result),
        ),
        _ => c,
    }
}

impl Creation {
    /// What holds at every stage: the file has a name, and what is published was prepared.
    pub open spec fn valid(&self) -> bool {
        &&& file_name_of(self.path@) is Some
        &&& self.stage == CreationStage::Publish || self.stage == CreationStage::Mirror
            ==> self.prepared is Some
    }

    /// Begins to make a revision of a file; a path without a file name has none.
    pub fn begin(
        path: &str,
        editor: &str,
        baseline: Vec<u8>,
        represented: Vec<u8>,
        mirrored: bool,
    ) -> (r: Result<Self, Failure>)
        ensures
            match r {
                Ok(c) => file_name_of(path@) is Some && c.valid() && c@ == creation_start(
                    path@,
                    editor@,
                    baseline@,
                    represented@,
                    mirrored,
                ),
                Err(f) => file_name_of(path@) is None && f@ == fails(
                    FailureKind::InvalidInput,
                    "invalid file name"@,
                ),
            },
    {
        match revision_place(path) {
            Ok(_) => {
                let c: Creation = Creation {
                    stage: CreationStage::Compare,
                    path: path.to_owned(),
                    editor: editor.to_owned(),
                    baseline,
                    represented,
                    mirrored,
                    prepared: None,
                    fallback: false,
                    number: 0,
                    created: None,
                    failure: None,
                };
                Ok(c)
            },
            Err(f) => Err(f),
        }
    }

    /// Takes in what came of what was wanted done.
    pub fn step(&mut self, event: CreationEvent)
        requires
            old(self).valid(),
            creation_answers(old(self).stage, event),
        ensures
            final(self).valid(),
            final(self)@ == creation_after(old(self)@, event),
    {
        match event {
            CreationEvent::Compared(generated, epoch, stamp) => {
                match prepare_revision(
                    self.path.as_str(),
                    self.editor.as_str(),
                    &self.baseline,
                    &self.represented,
                    generated,
                    epoch,
                    stamp.as_str(),
                ) {
                    Ok((prepared, fallback)) => {
                        self.prepared = Some(prepared);
                        self.fallback = fallback;
                        self.stage = CreationStage::Publish;
                    },
                    Err(_) => {},
                }
            },
            CreationEvent::Published(Ok(number)) => {
                self.number = number;
                if self.mirrored {
                    self.stage = CreationStage::Mirror;
                } else {
                    self.created = Some(create_revision(number, self.fallback, &None));
                    self.stage = CreationStage::Finished;
                }
            },
            CreationEvent::Published(Err(f)) => {
                self.failure = Some(f);
                self.stage = CreationStage::Failed;
            },
            CreationEvent::Mirrored(result) => {
                self.created = Some(create_revision(self.number, self.fallback, &Some(result)));
                self.stage = CreationStage::Finished;
            },
        }
    }
}

/// The history comes first: only a revision that was published there is mirrored, one that could
/// not be published there fails with the reason and is not mirrored, and one that was published
/// there is made, whatever becomes of the mirror.
pub proof fn law_history_comes_before_mirror(c: CreationView, event: CreationEvent)
    requires
        creation_answers(c.stage, event),
    ensures
        creation_after(c, event).stage == CreationStage::Mirror ==> c.stage == CreationStage::Publish
            && c.mirrored && (event matches CreationEvent::Published(Ok(n)) && creation_after(
            c,
            event,
        ).number == n),
        event matches CreationEvent::Published(Err(f)) ==> {
            let after = creation_after(c, event);
            after.stage == CreationStage::Failed && after.failure == Some(f@) && after.created
                == c.created
        },
        event matches CreationEvent::Mirrored(result) ==> {
            let after = creation_after(c, event);
            &&& after.stage == CreationStage::Finished
            &&& after.created matches Some(made) && made.number == c.number
            &&& after.created matches Some(made) && (made.mirror_warning is Some <==> result is Err)
        },
        creation_after(c, event).stage == CreationStage::Failed ==> c.stage
            == CreationStage::Publish,
{
}

/// What is published in the mirror is what was published in the history.
pub proof fn law_mirror_gets_the_same(c: CreationView, event: CreationEvent)
    requires
        creation_answers(c.stage, event),
        c.stage != CreationStage::Compare,
    ensures
        creation_after(c, event).prepared == c.prepared,
{
}

/// One name in the access directory, with what reading it came to.
#[derive(Debug, PartialEq, Eq)]
pub struct AllocationRead {
    pub name: String,
    pub access: Result<Vec<u8>, Failure>,
}

/// The number of an allocation record where it belongs to a file.
pub open spec fn number_for(name: Seq<char>, key: Seq<char>, leaf: Seq<char>) -> Option<nat> {
    match record_of_name(name, 'a') {
        Some((k, l, n)) => if k == key && l == leaf {
            Some(n)
        } else {
            None
        },
        None => None,
    }
}

/// The greatest number that the first `n` names give a file, or the first failure among them:
/// every recognized record has to be readable, whatever file it belongs to.
pub open spec fn greatest_number(
    reads: Seq<AllocationRead>,
    n: int,
    key: Seq<char>,
    leaf: Seq<char>,
) -> Result<nat, FailureView>
    decreases n,
{
    if n <= 0 {
        Ok(0)
    } else {
        match greatest_number(reads, n - 1, key, leaf) {
            Err(f) => Err(f),
            Ok(before) => if record_of_name(reads[n - 1].name@, 'a') is None {
                Ok(before)
            } else {
                match reads[n - 1].access {
                    Err(f) => Err(f@),
                    Ok(bytes) => match access_of_bytes(bytes@) {
                        Err(f) => Err(f),
                        Ok(_) => match number_for(reads[n - 1].name@, key, leaf) {
                            Some(m) if m > before => Ok(m),
                            _ => Ok(before),
                        },
                    },
                }
            },
        }
    }
}

/// Whether a name is no access record, or one that could be read.
pub open spec fn is_usable(read: AllocationRead) -> bool {
    record_of_name(read.name@, 'a') is Some ==> (read.access matches Ok(bytes) && access_of_bytes(
        bytes@,
    ) is Ok)
}

/// A greatest number is found exactly when every access record could be read.
pub proof fn lemma_greatest_usable(
    reads: Seq<AllocationRead>,
    n: int,
    key: Seq<char>,
    leaf: Seq<char>,
)
    requires
        0 <= n <= reads.len(),
    ensures
        greatest_number(reads, n, key, leaf) is Ok <==> forall|i: int|
            0 <= i < n ==> is_usable(#[trigger] reads[i]),
    decreases n,
{
    if n > 0 {
        lemma_greatest_usable(reads, n - 1, key, leaf);
    }
}

/// The number of the next revision of a file.
pub open spec fn next_number(reads: Seq<AllocationRead>, key: Seq<char>, leaf: Seq<char>) -> Result<
    nat,
    FailureView,
> {
    match greatest_number(reads, reads.len() as int, key, leaf) {
        Err(f) => Err(f),
        Ok(n) => if n < u64::MAX {
            Ok(n + 1)
        } else {
            Err(fails(FailureKind::Other, "revision number overflow"@))
        },
    }
}

proof fn lemma_greatest_failure(
    reads: Seq<AllocationRead>,
    n: int,
    m: int,
    key: Seq<char>,
    leaf: Seq<char>,
)
    requires
        0 <= n <= m,
        greatest_number(reads, n, key, leaf) is Err,
    ensures
        greatest_number(reads, m, key, leaf) == greatest_number(reads, n, key, leaf),
    decreases m - n,
{
    if n < m {
        lemma_greatest_failure(reads, n, m - 1, key, leaf);
    }
}

/// The number of the next revision of a file, from every name in the access directory.
pub fn next_revision(reads: &Vec<AllocationRead>, key: &str, leaf: &str) -> (r: Result<u64, Failure>)
    ensures
        match r {
            Ok(n) => next_number(reads@, key@, leaf@) == Ok::<_, FailureView>(n as nat),
            Err(f) => next_number(reads@, key@, leaf@) == Err::<nat, _>(f@),
        },
{
    let mut maximum: u64 = 0;
    let mut i: usize = 0;
    while i < reads.len()
        invariant
            i <= reads.len(),
            greatest_number(reads@, i as int, key@, leaf@) == Ok::<_, FailureView>(maximum as nat),
        decreases reads.len() - i,
    {
        proof {
            if greatest_number(reads@, i + 1, key@, leaf@) is Err {
                lemma_greatest_failure(reads@, i + 1, reads@.len() as int, key@, leaf@);
            }
        }
        match parse_record_name(reads[i].name.as_str(), 'a') {
            None => {},
            Some((candidate_key, candidate_leaf, number)) => {
                match &reads[i].access {
                    Err(f) => {
                        return Err(f.clone());
                    },
                    Ok(bytes) => match parse_access_bytes(bytes) {
                        Err(f) => {
                            return Err(f);
                        },
                        Ok(_) => {},
                    },
                }
                if same(candidate_key.as_str(), key) && same(candidate_leaf.as_str(), leaf)
                    && number > maximum {
                    maximum = number;
                }
            },
        }
        i += 1;
    }
    match maximum.checked_add(1) {
        Some(n) => Ok(n),
        None => Err(Failure::new(FailureKind::Other, "revision number overflow")),
    }
}

/// No name gives a greater number than the greatest.
pub proof fn lemma_greatest_bound(
    reads: Seq<AllocationRead>,
    n: int,
    key: Seq<char>,
    leaf: Seq<char>,
    i: int,
)
    requires
        0 <= i < n <= reads.len(),
        greatest_number(reads, n, key, leaf) is Ok,
    ensures
        number_for(reads[i].name@, key, leaf) matches Some(m) ==> m <= greatest_number(
            reads,
            n,
            key,
            leaf,
        )->Ok_0,
    decreases n,
{
    if i < n - 1 {
        lemma_greatest_bound(reads, n - 1, key, leaf, i);
    }
}

/// The next number is greater than every number that the file has, so no two revisions of a file
/// share one; the first is one.
pub proof fn law_next_number_is_fresh(
    reads: Seq<AllocationRead>,
    key: Seq<char>,
    leaf: Seq<char>,
    i: int,
)
    requires
        next_number(reads, key, leaf) is Ok,
        0 <= i < reads.len(),
    ensures
        next_number(reads, key, leaf)->Ok_0 >= 1,
        number_for(reads[i].name@, key, leaf) matches Some(m) ==> m < next_number(
            reads,
            key,
            leaf,
        )->Ok_0,
{
    lemma_greatest_bound(reads, reads.len() as int, key, leaf, i);
}

/// Whether one of the names gives a file a number.
pub open spec fn gives_number(
    reads: Seq<AllocationRead>,
    key: Seq<char>,
    leaf: Seq<char>,
    number: nat,
) -> bool {
    exists|i: int|
        0 <= i < reads.len() && number_for((#[trigger] reads[i]).name@, key, leaf) == Some(number)
}

/// The greatest number is one that a name gives, where it is more than zero.
pub proof fn lemma_greatest_given(reads: Seq<AllocationRead>, n: int, key: Seq<char>, leaf: Seq<char>)
    requires
        0 <= n <= reads.len(),
        greatest_number(reads, n, key, leaf) matches Ok(m) && m > 0,
    ensures
        gives_number(reads, key, leaf, greatest_number(reads, n, key, leaf)->Ok_0),
    decreases n,
{
    if n > 0 {
        let m = greatest_number(reads, n, key, leaf)->Ok_0;
        if number_for(reads[n - 1].name@, key, leaf) == Some(m) {
        } else {
            lemma_greatest_given(reads, n - 1, key, leaf);
        }
    }
}

/// The next number of a file is one more than the greatest that it has, and one where it has
/// none.
pub proof fn law_next_number_is_one_more(
    reads: Seq<AllocationRead>,
    key: Seq<char>,
    leaf: Seq<char>,
)
    requires
        next_number(reads, key, leaf) is Ok,
    ensures
        ({
            let next = next_number(reads, key, leaf)->Ok_0;
            next == 1 || gives_number(reads, key, leaf, (next - 1) as nat)
        }),
{
    let m = greatest_number(reads, reads.len() as int, key, leaf)->Ok_0;
    if m > 0 {
        lemma_greatest_given(reads, reads.len() as int, key, leaf);
    }
}

/// The directories of a repository that a publication writes to.
#[derive(Clone, Copy, Debug, PartialEq, Eq, Structural)]
pub enum Place {
    Backups,
    Edits,
    Access,
    Actors,
    /// The branch of the index that belongs to the file's directory.
    Branch,
}

/// What a step of a publication creates.
#[derive(Debug, PartialEq, Eq)]
pub enum StepContent {
    File(Vec<u8>),
    Link(String),
}

/// The model of what a step creates.
#[verifier::ext_equal]
pub enum ContentView {
    File(Seq<u8>),
    Link(Seq<char>),
}

/// One step of a publication: it creates a file or a link, and fails where the name is taken.
#[derive(Debug, PartialEq, Eq)]
pub struct Step {
    pub place: Place,
    pub name: String,
    pub content: StepContent,
}

/// The model of a step.
#[verifier::ext_equal]
pub struct StepView {
    pub place: Place,
    pub name: Seq<char>,
    pub content: ContentView,
}

impl View for Step {
    type V = StepView;

    open spec fn view(&self) -> StepView {
        StepView {
            place: self.place,
            name: self.name@,
            content: match self.content {
                StepContent::File(b) => ContentView::File(b@),
                StepContent::Link(t) => ContentView::Link(t@),
            },
        }
    }
}

impl Replicate for Step {
    fn replicate(&self) -> (r: Self) {
        Step {
            place: self.place,
            name: self.name.clone(),
            content: match &self.content {
                StepContent::File(b) => StepContent::File(copy_bytes(b)),
                StepContent::Link(t) => StepContent::Link(t.clone()),
            },
        }
    }
}

/// A name that a rollback takes out again.
#[derive(Debug, PartialEq, Eq)]
pub struct Removal {
    pub place: Place,
    pub name: String,
}

impl View for Removal {
    type V = (Place, Seq<char>);

    open spec fn view(&self) -> (Place, Seq<char>) {
        (self.place, self.name@)
    }
}

impl Replicate for Removal {
    fn replicate(&self) -> (r: Self) {
        Removal { place: self.place, name: self.name.clone() }
    }
}

/// The name of a link in a branch.
pub open spec fn link_name(leaf: Seq<char>, number: nat, kind: char) -> Seq<char> {
    leaf + SEPARATOR@ + decimal(number) + SEPARATOR@ + seq![kind]
}

/// The content of an access record.
pub open spec fn access_text(p: PreparedView) -> Seq<char> {
    decimal(p.epoch as nat) + "\t"@ + p.stamp + "\t"@ + p.full + "\t"@ + p.editor + "\n"@
}

/// The step that creates a file of a record.
pub open spec fn file_step(
    place: Place,
    p: PreparedView,
    number: nat,
    kind: char,
    content: Seq<u8>,
) -> StepView {
    StepView {
        place,
        name: name_of_record(p.key, p.leaf, number, kind),
        content: ContentView::File(content),
    }
}

/// The step that links a record into the index.
pub open spec fn link_step(p: PreparedView, number: nat, kind: char, directory: Seq<char>) -> StepView {
    StepView {
        place: Place::Branch,
        name: link_name(p.leaf, number, kind),
        content: ContentView::Link(
            joined_path(directory, name_of_record(p.key, p.leaf, number, kind)),
        ),
    }
}

/// The steps that publish a revision: backup, diff, access record, actor where it is not the owner
/// of the history, and then the links of the index.
pub open spec fn publication_steps(p: PreparedView, config: ConfigView, number: nat) -> Seq<StepView> {
    let diffs = match p.payload.diff {
        Some(diff) => seq![file_step(Place::Edits, p, number, 'd', diff)],
        None => Seq::empty(),
    };
    let actors = if config.actor != config.history_owner {
        seq![file_step(Place::Actors, p, number, 'u', encode_utf8(config.actor + "\n"@))]
    } else {
        Seq::empty()
    };
    let diff_links = if p.payload.diff is Some {
        seq![link_step(p, number, 'd', config.edits)]
    } else {
        Seq::empty()
    };
    seq![file_step(Place::Backups, p, number, 'b', p.payload.backup)] + diffs + seq![
        file_step(Place::Access, p, number, 'a', encode_utf8(access_text(p))),
    ] + actors + seq![link_step(p, number, 'b', config.backups)] + diff_links + seq![
        link_step(p, number, 'a', config.access),
    ]
}

/// The files that the first `done` steps created, the last first.
pub open spec fn created_files(steps: Seq<StepView>, done: int) -> Seq<(Place, Seq<char>)>
    decreases done,
{
    if done <= 0 {
        Seq::empty()
    } else {
        let before = created_files(steps, done - 1);
        if steps[done - 1].content is File {
            seq![(steps[done - 1].place, steps[done - 1].name)] + before
        } else {
            before
        }
    }
}

/// What a rollback takes out after `done` steps: the files in reverse, then the links.
pub open spec fn rollback(steps: Seq<StepView>, done: int, leaf: Seq<char>, number: nat) -> Seq<
    (Place, Seq<char>),
> {
    created_files(steps, done) + seq![
        (Place::Branch, link_name(leaf, number, 'a')),
        (Place::Branch, link_name(leaf, number, 'b')),
        (Place::Branch, link_name(leaf, number, 'd')),
    ]
}

/// What a branch of the index says of itself: the file's directory.
pub fn branch_content(prepared: &PreparedRevision) -> (r: Vec<u8>)
    ensures
        r@ == encode_utf8(prepared@.directory + "\n"@),
{
    let mut text: String = prepared.directory.clone();
    text.append("\n");
    bytes_of(text.as_str())
}

fn index_link_name(leaf: &str, number: u64, kind: char) -> (r: String)
    ensures
        r@ == link_name(leaf@, number as nat, kind),
{
    let mut out: String = leaf.to_owned();
    out.append(SEPARATOR);
    out.append(to_decimal(number).as_str());
    out.append(SEPARATOR);
    let ghost before = out@;
    out.push(kind);
    assert(out@ =~= before + seq![kind]);
    out
}

fn make_link(prepared: &PreparedRevision, number: u64, kind: char, directory: &str) -> (r: Step)
    ensures
        r@ == link_step(prepared@, number as nat, kind, directory@),
{
    let record: String = record_name(prepared.key.as_str(), prepared.leaf.as_str(), number, kind);
    Step {
        place: Place::Branch,
        name: index_link_name(prepared.leaf.as_str(), number, kind),
        content: StepContent::Link(join(directory, record.as_str())),
    }
}

fn make_file(
    place: Place,
    prepared: &PreparedRevision,
    number: u64,
    kind: char,
    content: Vec<u8>,
) -> (r: Step)
    ensures
        r@ == file_step(place, prepared@, number as nat, kind, content@),
{
    Step {
        place,
        name: record_name(prepared.key.as_str(), prepared.leaf.as_str(), number, kind),
        content: StepContent::File(content),
    }
}

/// The steps that publish a revision under a number.
pub fn plan_publication(prepared: &PreparedRevision, config: &Config, number: u64) -> (r: Vec<Step>)
    ensures
        all_views(r@) == publication_steps(prepared@, config@, number as nat),
{
    let mut out: Vec<Step> = Vec::new();
    out.push(
        make_file(Place::Backups, prepared, number, 'b', copy_bytes(&prepared.payload.backup)),
    );
    match &prepared.payload.diff {
        Some(diff) => {
            out.push(make_file(Place::Edits, prepared, number, 'd', copy_bytes(diff)));
        },
        None => {},
    }
    let mut line: String = to_decimal(prepared.epoch);
    line.append("\t");
    line.append(prepared.stamp.as_str());
    line.append("\t");
    line.append(prepared.full.as_str());
    line.append("\t");
    line.append(prepared.editor.as_str());
    line.append("\n");
    out.push(make_file(Place::Access, prepared, number, 'a', bytes_of(line.as_str())));
    if config.actor != config.history_owner {
        let mut actor: String = config.actor.clone();
        actor.append("\n");
        out.push(make_file(Place::Actors, prepared, number, 'u', bytes_of(actor.as_str())));
    }
    out.push(make_link(prepared, number, 'b', config.backups.as_str()));
    if prepared.payload.diff.is_some() {
        out.push(make_link(prepared, number, 'd', config.edits.as_str()));
    }
    out.push(make_link(prepared, number, 'a', config.access.as_str()));
    assert(all_views(out@) =~= publication_steps(prepared@, config@, number as nat));
    out
}

/// What a publication wants done next.
#[derive(Debug, PartialEq, Eq)]
pub enum PublicationAction {
    Perform(Step),
    Remove(Removal),
    Succeeded,
    Failed(Failure),
}

/// A publication under way: steps are performed in order until one fails; what was created is
/// then taken out again, whether each removal succeeds or not, and the failure is reported.
pub struct Publication {
    pub leaf: String,
    pub number: u64,
    pub steps: Vec<Step>,
    pub done: usize,
    pub removals: Vec<Removal>,
    pub removed: usize,
    pub failure: Option<Failure>,
}

/// The model of a publication.
pub struct PublicationView {
    pub leaf: Seq<char>,
    pub number: nat,
    pub steps: Seq<StepView>,
    pub done: int,
    pub removals: Seq<(Place, Seq<char>)>,
    pub removed: int,
    pub failure: Option<FailureView>,
}

impl View for Publication {
    type V = PublicationView;

    open spec fn view(&self) -> PublicationView {
        PublicationView {
            leaf: self.leaf@,
            number: self.number as nat,
            steps: all_views(self.steps@),
            done: self.done as int,
            removals: all_views(self.removals@),
            removed: self.removed as int,
            failure: match self.failure {
                Some(f) => Some(f@),
                None => None,
            },
        }
    }
}

/// A publication that has not started.
pub open spec fn publication_start(p: PreparedView, config: ConfigView, number: nat) -> PublicationView {
    PublicationView {
        leaf: p.leaf,
        number,
        steps: publication_steps(p, config, number),
        done: 0,
        removals: Seq::empty(),
        removed: 0,
        failure: None,
    }
}

/// A publication after what it wanted done came to a result.
pub open spec fn publication_after(p: PublicationView, result: Option<FailureView>) -> PublicationView {
    if p.failure is None {
        match result {
            None => PublicationView { done: p.done + 1, ..p },
            Some(f) => PublicationView {
                failure: Some(f),
                removals: rollback(p.steps, p.done, p.leaf, p.number),
                removed: 0,
                ..p
            },
        }
    } else {
        PublicationView { removed: p.removed + 1, ..p }
    }
}

/// The failure of a result.
pub open spec fn failure_of(result: Result<(), Failure>) -> Option<FailureView> {
    match result {
        Ok(_) => None,
        Err(f) => Some(f@),
    }
}

impl Publication {
    /// Whether the publication has something left to do.
    pub open spec fn is_running(&self) -> bool {
        if self.failure is None {
            self.done < self.steps.len()
        } else {
            self.removed < self.removals.len()
        }
    }

    /// A publication that has not started.
    pub fn begin(prepared: &PreparedRevision, config: &Config, number: u64) -> (r: Self)
        ensures
            r@ == publication_start(prepared@, config@, number as nat),
    {
        let r: Publication = Publication {
            leaf: prepared.leaf.clone(),
            number,
            steps: plan_publication(prepared, config, number),
            done: 0,
            removals: Vec::new(),
            removed: 0,
            failure: None,
        };
        assert(all_views(r.removals@) =~= Seq::empty());
        r
    }

    /// What is to be done next.
    pub fn action(&self) -> (r: PublicationAction)
        ensures
            match r {
                PublicationAction::Perform(step) => self@.failure is None && self@.done
                    < self@.steps.len() && step@ == self@.steps[self@.done],
                PublicationAction::Succeeded => self@.failure is None && self@.done
                    >= self@.steps.len(),
                PublicationAction::Remove(removal) => self@.failure is Some && self@.removed
                    < self@.removals.len() && removal@ == self@.removals[self@.removed],
                PublicationAction::Failed(f) => self@.failure == Some(f@) && self@.removed
                    >= self@.removals.len(),
            },
    {
        match &self.failure {
            None => if self.done < self.steps.len() {
                PublicationAction::Perform(self.steps[self.done].replicate())
            } else {
                PublicationAction::Succeeded
            },
            Some(f) => if self.removed < self.removals.len() {
                PublicationAction::Remove(self.removals[self.removed].replicate())
            } else {
                PublicationAction::Failed(f.clone())
            },
        }
    }

    /// Takes in what the step or the removal came to.
    pub fn report(&mut self, result: Result<(), Failure>)
        requires
            old(self).is_running(),
        ensures
            final(self)@ == publication_after(old(self)@, failure_of(result)),
    {
        if self.failure.is_some() {
            self.removed = self.removed + 1;
            return;
        }
        match result {
            Ok(_) => {
                self.done = self.done + 1;
            },
            Err(f) => {
                self.removals = make_rollback(
                    &self.steps,
                    self.done,
                    self.leaf.as_str(),
                    self.number,
                );
                self.removed = 0;
                self.failure = Some(f);
            },
        }
    }
}

fn make_rollback(steps: &Vec<Step>, done: usize, leaf: &str, number: u64) -> (r: Vec<Removal>)
    requires
        done <= steps@.len(),
    ensures
        all_views(r@) == rollback(all_views(steps@), done as int, leaf@, number as nat),
{
    let ghost views = all_views(steps@);
    let mut out: Vec<Removal> = Vec::new();
    let mut i: usize = done;
    assert(all_views(out@) + created_files(views, done as int) =~= created_files(
        views,
        done as int,
    ));
    while i > 0
        invariant
            i <= done <= steps@.len(),
            views == all_views(steps@),
            all_views(out@) + created_files(views, i as int) == created_files(views, done as int),
        decreases i,
    {
        let ghost before = out@;
        let step: &Step = &steps[i - 1];
        assert(views[i - 1] == step@);
        match &step.content {
            StepContent::File(_) => {
                let removal: Removal = Removal { place: step.place, name: step.name.clone() };
                out.push(removal);
                assert(all_views(out@) =~= all_views(before).push(removal@));
                assert(all_views(out@) + created_files(views, i - 1) =~= all_views(before)
                    + created_files(views, i as int));
            },
            StepContent::Link(_) => {},
        }
        i -= 1;
    }
    assert(all_views(out@) =~= created_files(views, done as int));
    out.push(Removal { place: Place::Branch, name: index_link_name(leaf, number, 'a') });
    out.push(Removal { place: Place::Branch, name: index_link_name(leaf, number, 'b') });
    out.push(Removal { place: Place::Branch, name: index_link_name(leaf, number, 'd') });
    assert(all_views(out@) =~= rollback(views, done as int, leaf@, number as nat));
    out
}

/// The files and links of a repository, by directory and name.
pub type Files = Map<(Place, Seq<char>), ContentView>;

/// The files after a step.
pub open spec fn after_step(files: Files, step: StepView) -> Files {
    files.insert((step.place, step.name), step.content)
}

/// The files after the first `n` steps.
pub open spec fn after_steps(files: Files, steps: Seq<StepView>, n: int) -> Files
    decreases n,
{
    if n <= 0 {
        files
    } else {
        after_step(after_steps(files, steps, n - 1), steps[n - 1])
    }
}

/// The files after the first `n` removals.
pub open spec fn after_removals(files: Files, removals: Seq<(Place, Seq<char>)>, n: int) -> Files
    decreases n,
{
    if n <= 0 {
        files
    } else {
        after_removals(files, removals, n - 1).remove(removals[n - 1])
    }
}

/// Whether nothing has the name of one of the first `n` steps.
pub open spec fn names_are_free(files: Files, steps: Seq<StepView>, n: int) -> bool {
    forall|i: int|
        0 <= i < n ==> !files.contains_key(((#[trigger] steps[i]).place, steps[i].name))
}

/// The files without the links of a revision.
pub open spec fn without_links(files: Files, leaf: Seq<char>, number: nat) -> Files {
    files.remove((Place::Branch, link_name(leaf, number, 'a'))).remove(
        (Place::Branch, link_name(leaf, number, 'b')),
    ).remove((Place::Branch, link_name(leaf, number, 'd')))
}

/// What no step has the name of stays as it was.
pub proof fn lemma_after_steps(files: Files, steps: Seq<StepView>, n: int, key: (Place, Seq<char>))
    requires
        0 <= n <= steps.len(),
        forall|i: int| 0 <= i < n ==> ((#[trigger] steps[i]).place, steps[i].name) != key,
    ensures
        after_steps(files, steps, n).contains_key(key) == files.contains_key(key),
        files.contains_key(key) ==> after_steps(files, steps, n)[key] == files[key],
    decreases n,
{
    if n > 0 {
        lemma_after_steps(files, steps, n - 1, key);
    }
}

proof fn lemma_after_removals(
    files: Files,
    removals: Seq<(Place, Seq<char>)>,
    n: int,
    key: (Place, Seq<char>),
)
    requires
        0 <= n <= removals.len(),
    ensures
        after_removals(files, removals, n).contains_key(key) == (files.contains_key(key) && forall|
            i: int,
        |
            0 <= i < n ==> #[trigger] removals[i] != key),
        after_removals(files, removals, n).contains_key(key) ==> after_removals(files, removals, n)[key]
            == files[key],
    decreases n,
{
    if n > 0 {
        lemma_after_removals(files, removals, n - 1, key);
    }
}

proof fn lemma_created_files(steps: Seq<StepView>, done: int, i: int)
    requires
        0 <= i < done <= steps.len(),
        steps[i].content is File,
    ensures
        created_files(steps, done).contains((steps[i].place, steps[i].name)),
    decreases done,
{
    let before = created_files(steps, done - 1);
    if i < done - 1 {
        lemma_created_files(steps, done - 1, i);
        let k = choose|k: int| 0 <= k < before.len() && before[k] == (steps[i].place, steps[i].name);
        if steps[done - 1].content is File {
            assert(created_files(steps, done)[k + 1] == before[k]);
        }
    } else {
        assert(created_files(steps, done)[0] == (steps[i].place, steps[i].name));
    }
}

proof fn lemma_created_only(steps: Seq<StepView>, done: int, k: int)
    requires
        0 <= done <= steps.len(),
        0 <= k < created_files(steps, done).len(),
    ensures
        exists|i: int|
            0 <= i < done && created_files(steps, done)[k] == ((#[trigger] steps[i]).place, steps[i].name),
    decreases done,
{
    if done > 0 {
        let before = created_files(steps, done - 1);
        if steps[done - 1].content is File {
            if k > 0 {
                lemma_created_only(steps, done - 1, k - 1);
                assert(created_files(steps, done)[k] == before[k - 1]);
            } else {
                assert(created_files(steps, done)[0] == (
                    steps[done - 1].place,
                    steps[done - 1].name,
                ));
            }
        } else {
            lemma_created_only(steps, done - 1, k);
        }
    }
}

proof fn lemma_links_are_named(p: PreparedView, config: ConfigView, number: nat, i: int)
    requires
        0 <= i < publication_steps(p, config, number).len(),
        publication_steps(p, config, number)[i].content is Link,
    ensures
        ({
            let step = publication_steps(p, config, number)[i];
            step.place == Place::Branch && (step.name == link_name(p.leaf, number, 'a') || step.name
                == link_name(p.leaf, number, 'b') || step.name == link_name(p.leaf, number, 'd'))
        }),
{
}

/// A publication that fails at any step leaves nothing behind, whatever made the step fail: the
/// steps before it are undone, and a record whose name was taken stays as it was. The links of the
/// revision are taken out of the index, also those that were there before; where there were none,
/// everything is as before.
pub proof fn law_failed_publication_leaves_nothing(
    files: Files,
    p: PreparedView,
    config: ConfigView,
    number: nat,
    done: int,
)
    requires
        0 <= done < publication_steps(p, config, number).len(),
        names_are_free(files, publication_steps(p, config, number), done),
    ensures
        ({
            let steps = publication_steps(p, config, number);
            let removals = rollback(steps, done, p.leaf, number);
            let end = after_removals(after_steps(files, steps, done), removals, removals.len() as int);
            &&& end == without_links(files, p.leaf, number)
            &&& forall|place: Place, name: Seq<char>|
                place != Place::Branch ==> {
                    &&& #[trigger] end.contains_key((place, name)) == files.contains_key((place, name))
                    &&& files.contains_key((place, name)) ==> end[(place, name)] == files[(place, name)]
                }
            &&& (forall|kind: char|
                !files.contains_key((Place::Branch, #[trigger] link_name(p.leaf, number, kind))))
                ==> end == files
        }),
{
    let steps = publication_steps(p, config, number);
    let removals = rollback(steps, done, p.leaf, number);
    let made = created_files(steps, done);
    let middle = after_steps(files, steps, done);
    let end = after_removals(middle, removals, removals.len() as int);
    let n = made.len() as int;
    assert(removals[n] == (Place::Branch, link_name(p.leaf, number, 'a')));
    assert(removals[n + 1] == (Place::Branch, link_name(p.leaf, number, 'b')));
    assert(removals[n + 2] == (Place::Branch, link_name(p.leaf, number, 'd')));
    let rest = without_links(files, p.leaf, number);
    assert forall|key: (Place, Seq<char>)| #[trigger]
        end.contains_key(key) == rest.contains_key(key) && (rest.contains_key(key) ==> end[key]
            == rest[key]) by {
        lemma_after_removals(middle, removals, removals.len() as int, key);
        if exists|i: int| 0 <= i < done && ((#[trigger] steps[i]).place, steps[i].name) == key {
            let i = choose|i: int|
                0 <= i < done && ((#[trigger] steps[i]).place, steps[i].name) == key;
            assert(!files.contains_key((steps[i].place, steps[i].name)));
            if steps[i].content is File {
                lemma_created_files(steps, done, i);
                let k = choose|k: int| 0 <= k < made.len() && made[k] == key;
                assert(removals[k] == key);
            } else {
                lemma_links_are_named(p, config, number, i);
            }
            assert(!end.contains_key(key));
        } else {
            lemma_after_steps(files, steps, done, key);
            if rest.contains_key(key) {
                assert forall|k: int| 0 <= k < removals.len() implies #[trigger] removals[k] != key by {
                    if k < n {
                        lemma_created_only(steps, done, k);
                        assert(removals[k] == made[k]);
                    }
                }
            }
        }
    }
    assert(end =~= rest);
    if forall|kind: char|
        !files.contains_key((Place::Branch, #[trigger] link_name(p.leaf, number, kind))) {
        assert(!files.contains_key((Place::Branch, link_name(p.leaf, number, 'a'))));
        assert(!files.contains_key((Place::Branch, link_name(p.leaf, number, 'b'))));
        assert(!files.contains_key((Place::Branch, link_name(p.leaf, number, 'd'))));
        assert(rest =~= files);
    }
}

/// A publication changes nothing that was there before, however far it has come.
pub proof fn law_publication_only_adds(
    files: Files,
    p: PreparedView,
    config: ConfigView,
    number: nat,
    done: int,
    key: (Place, Seq<char>),
)
    requires
        0 <= done <= publication_steps(p, config, number).len(),
        names_are_free(files, publication_steps(p, config, number), done),
        files.contains_key(key),
    ensures
        after_steps(files, publication_steps(p, config, number), done).contains_key(key),
        after_steps(files, publication_steps(p, config, number), done)[key] == files[key],
{
    lemma_after_steps(files, publication_steps(p, config, number), done, key);
}

proof fn lemma_after_more_steps(files: Files, steps: Seq<StepView>, i: int, n: int)
    requires
        0 <= i < n <= steps.len(),
        forall|j: int|
            i < j < n ==> ((#[trigger] steps[j]).place, steps[j].name) != (
                steps[i].place,
                steps[i].name,
            ),
    ensures
        after_steps(files, steps, n).contains_key((steps[i].place, steps[i].name)),
        after_steps(files, steps, n)[(steps[i].place, steps[i].name)] == steps[i].content,
    decreases n,
{
    if i < n - 1 {
        lemma_after_more_steps(files, steps, i, n - 1);
    }
}

/// A revision that is recorded is complete: from the moment on that its access record is there,
/// its backup is, and its diff if it has one, with what was prepared.
pub proof fn law_recorded_revision_is_complete(
    files: Files,
    p: PreparedView,
    config: ConfigView,
    number: nat,
    done: int,
)
    requires
        0 <= done <= publication_steps(p, config, number).len(),
        !files.contains_key((Place::Access, name_of_record(p.key, p.leaf, number, 'a'))),
        after_steps(files, publication_steps(p, config, number), done).contains_key(
            (Place::Access, name_of_record(p.key, p.leaf, number, 'a')),
        ),
    ensures
        ({
            let now = after_steps(files, publication_steps(p, config, number), done);
            let backup = (Place::Backups, name_of_record(p.key, p.leaf, number, 'b'));
            let diff = (Place::Edits, name_of_record(p.key, p.leaf, number, 'd'));
            &&& now.contains_key(backup) && now[backup] == ContentView::File(p.payload.backup)
            &&& p.payload.diff matches Some(d) ==> now.contains_key(diff) && now[diff]
                == ContentView::File(d)
        }),
{
    let steps = publication_steps(p, config, number);
    let at: int = if p.payload.diff is Some {
        2
    } else {
        1
    };
    assert(steps[0] == file_step(Place::Backups, p, number, 'b', p.payload.backup));
    assert(steps[at].place == Place::Access);
    assert(p.payload.diff matches Some(d) ==> steps[1] == file_step(
        Place::Edits,
        p,
        number,
        'd',
        d,
    ));
    let access = (Place::Access, name_of_record(p.key, p.leaf, number, 'a'));
    if done <= at {
        lemma_after_steps(files, steps, done, access);
    } else {
        lemma_after_more_steps(files, steps, 0, done);
        if p.payload.diff is Some {
            lemma_after_more_steps(files, steps, 1, done);
        }
    }
}

/// Whether a read of an access record is what the files of a repository give.
pub open spec fn read_from_files(
    files: Files,
    key: Seq<char>,
    leaf: Seq<char>,
    number: nat,
    read: RecordRead,
) -> bool {
    let access = (Place::Access, name_of_record(key, leaf, number, 'a'));
    let backup = (Place::Backups, name_of_record(key, leaf, number, 'b'));
    let diff = (Place::Edits, name_of_record(key, leaf, number, 'd'));
    let actor = (Place::Actors, name_of_record(key, leaf, number, 'u'));
    &&& read.name@ == name_of_record(key, leaf, number, 'a')
    &&& files.contains_key(access) && files[access] is File ==> (read.access matches Ok(b) && b@
        == files[access]->File_0)
    &&& read.has_backup == files.contains_key(backup)
    &&& read.diff == if files.contains_key(diff) {
        Presence::Present
    } else {
        Presence::Missing
    }
    &&& if files.contains_key(actor) && files[actor] is File {
        read.actor matches FileRead::Bytes(b) && b@ == files[actor]->File_0
    } else {
        read.actor is Missing
    }
    &&& read.tag is Missing
}

/// Whether a text holds none of the characters that end a field of an access record.
pub open spec fn is_field(s: Seq<char>) -> bool {
    forall|i: int| 0 <= i < s.len() ==> #[trigger] s[i] != '\t' && s[i] != '\n' && s[i] != '\0'
}

/// Whether a text holds no line end and no NUL.
pub open spec fn is_line(s: Seq<char>) -> bool {
    forall|i: int| 0 <= i < s.len() ==> #[trigger] s[i] != '\n' && s[i] != '\0'
}

proof fn lemma_bytes_before(line: Seq<u8>, rest: Seq<u8>, from: int)
    requires
        0 <= from <= line.len(),
        forall|i: int| 0 <= i < line.len() ==> line[i] != 10,
        rest.len() > 0,
        rest[0] == 10,
    ensures
        bytes_before(line + rest, from) == line.subrange(from, line.len() as int),
    decreases line.len() - from,
{
    if from < line.len() {
        lemma_bytes_before(line, rest, from + 1);
        assert(bytes_before(line + rest, from) =~= line.subrange(from, line.len() as int));
    } else {
        assert(line.subrange(from, line.len() as int) =~= Seq::empty());
    }
}

/// What is written as an access record is read back as it was: for a stamp and a path without tab,
/// line feed and NUL, and an editor without line feed and NUL.
pub proof fn law_access_record_round_trip(p: PreparedView)
    requires
        is_field(p.stamp),
        is_field(p.full),
        is_line(p.editor),
    ensures
        access_of_bytes(encode_utf8(access_text(p))) == Ok::<_, FailureView>(
            AccessView { epoch: p.epoch, stamp: p.stamp, path: p.full, editor: p.editor },
        ),
{
    reveal_strlit("\t");
    reveal_strlit("\n");
    let tab = "\t"@;
    let number = decimal(p.epoch as nat);
    lemma_decimal(p.epoch as nat);
    let third = p.full + tab + p.editor;
    let second = p.stamp + tab + third;
    let text = number + tab + second;
    assert(access_text(p) =~= text + "\n"@);
    lemma_encode_concat(text, "\n"@);
    let bytes = encode_utf8(text);
    let end = encode_utf8("\n"@);
    assert(end.len() == 1 && end[0] == 10) by {
        reveal_with_fuel(encode_utf8, 2);
        assert("\n"@[0] == '\n');
        assert("\n"@.drop_first() =~= Seq::empty());
        assert('\n' as u32 == 10u32);
        assert((10u32 & 0x7F) as u8 == 10) by (bit_vector);
    }
    assert forall|i: int| 0 <= i < text.len() implies text[i] != '\n' && text[i] != '\0' by {
        assert(all_digits(number));
        if i < number.len() {
            assert(text[i] == number[i]);
        } else if i < number.len() + 1 {
        } else if i < number.len() + 1 + p.stamp.len() {
            assert(text[i] == p.stamp[i - number.len() - 1]);
        } else if i < number.len() + 2 + p.stamp.len() {
        } else if i < number.len() + 2 + p.stamp.len() + p.full.len() {
            assert(text[i] == p.full[i - number.len() - 2 - p.stamp.len()]);
        } else if i < number.len() + 3 + p.stamp.len() + p.full.len() {
        } else {
            assert(text[i] == p.editor[i - number.len() - 3 - p.stamp.len() - p.full.len()]);
        }
    }
    lemma_encode_lacks(text, '\n', 10);
    lemma_encode_lacks(text, '\0', 0);
    lemma_bytes_before(bytes, end, 0);
    assert(bytes.subrange(0, bytes.len() as int) =~= bytes);
    assert(access_line(bytes + end) =~= bytes);
    encode_utf8_valid_utf8(text);
    encode_utf8_decode_utf8(text);
    assert forall|i: int| 0 <= i < number.len() implies number[i] != tab[0] by {
        assert(all_digits(number));
    }
    lemma_ends_cleanly(number, tab);
    lemma_ends_cleanly(p.stamp, tab);
    lemma_ends_cleanly(p.full, tab);
    lemma_pieces_step(number, tab, second);
    lemma_pieces_step(p.stamp, tab, third);
    lemma_pieces_step(p.full, tab, p.editor);
    law_decimal_round_trip(p.epoch as nat, u64::MAX as nat);
}

/// Whether a text does not end in a line end.
pub open spec fn ends_plainly(s: Seq<char>) -> bool {
    s.len() == 0 || (s.last() != '\n' && s.last() != '\r')
}

/// A text that is written with a line end behind it is read back without.
pub proof fn lemma_text_round_trip(actor: Seq<char>)
    requires
        ends_plainly(actor),
    ensures
        file_text(encode_utf8(actor + "\n"@)) == Ok::<_, FailureView>(actor),
{
    reveal_strlit("\n");
    let text = actor + "\n"@;
    encode_utf8_valid_utf8(text);
    encode_utf8_decode_utf8(text);
    assert(text.last() == '\n');
    assert(text.drop_last() =~= actor);
    reveal_with_fuel(trimmed_end, 2);
}

/// Whether no record is there that a new revision has none of and that would be taken for its own:
/// a diff where it has none, or an actor where it is the owner of the history.
pub open spec fn nothing_stale(files: Files, p: PreparedView, config: ConfigView, number: nat) -> bool {
    &&& p.payload.diff is None ==> !files.contains_key(
        (Place::Edits, name_of_record(p.key, p.leaf, number, 'd')),
    )
    &&& config.actor == config.history_owner ==> !files.contains_key(
        (Place::Actors, name_of_record(p.key, p.leaf, number, 'u')),
    )
}

/// The revision that a publication makes.
pub open spec fn published_revision(p: PreparedView, config: ConfigView, number: nat) -> RevisionView {
    RevisionView {
        key: p.key,
        leaf: p.leaf,
        number: number as u64,
        access: AccessView { epoch: p.epoch, stamp: p.stamp, path: p.full, editor: p.editor },
        backup: joined_path(config.backups, name_of_record(p.key, p.leaf, number, 'b')),
        diff: match p.payload.diff {
            Some(_) => Some(joined_path(config.edits, name_of_record(p.key, p.leaf, number, 'd'))),
            None => None,
        },
        tag: None,
        actor: config.actor,
    }
}

/// A published revision is read back as it was made: the same key, file name and number, the same
/// access record, a diff exactly when one was stored, and the actor that made it.
pub proof fn law_published_revision_reads_back(
    files: Files,
    p: PreparedView,
    config: ConfigView,
    number: nat,
    read: RecordRead,
)
    requires
        number <= u64::MAX,
        ends_cleanly(p.key, SEPARATOR@),
        ends_cleanly(p.leaf, SEPARATOR@),
        is_field(p.stamp),
        is_field(p.full),
        is_line(p.editor),
        config.actor != config.history_owner ==> ends_plainly(config.actor),
        nothing_stale(files, p, config, number),
        ({
            let steps = publication_steps(p, config, number);
            read_from_files(
                after_steps(files, steps, steps.len() as int),
                p.key,
                p.leaf,
                number,
                read,
            )
        }),
    ensures
        assembled(config, read) == Assembled::Found(published_revision(p, config, number)),
{
    let steps = publication_steps(p, config, number);
    let end = after_steps(files, steps, steps.len() as int);
    let d: int = if p.payload.diff is Some { 1 } else { 0 };
    let a: int = if config.actor != config.history_owner { 1 } else { 0 };
    let access = (Place::Access, name_of_record(p.key, p.leaf, number, 'a'));
    let backup = (Place::Backups, name_of_record(p.key, p.leaf, number, 'b'));
    let diff = (Place::Edits, name_of_record(p.key, p.leaf, number, 'd'));
    let actor = (Place::Actors, name_of_record(p.key, p.leaf, number, 'u'));
    assert(steps.len() == 4 + 2 * d + a);
    assert(steps[0] == file_step(Place::Backups, p, number, 'b', p.payload.backup));
    assert(steps[1 + d] == file_step(Place::Access, p, number, 'a', encode_utf8(access_text(p))));
    lemma_written(files, steps, 0, steps.len() as int);
    lemma_written(files, steps, 1 + d, steps.len() as int);
    if d == 1 {
        assert(steps[1] == file_step(Place::Edits, p, number, 'd', p.payload.diff->0));
        lemma_written(files, steps, 1, steps.len() as int);
    } else {
        lemma_after_steps(files, steps, steps.len() as int, diff);
    }
    if a == 1 {
        assert(steps[2 + d] == file_step(
            Place::Actors,
            p,
            number,
            'u',
            encode_utf8(config.actor + "\n"@),
        ));
        lemma_written(files, steps, 2 + d, steps.len() as int);
        lemma_text_round_trip(config.actor);
    } else {
        lemma_after_steps(files, steps, steps.len() as int, actor);
    }
    law_record_name_round_trip(p.key, p.leaf, number, 'a');
    law_access_record_round_trip(p);
}

/// What a step wrote is there, where no later step has the same name.
pub proof fn lemma_written(files: Files, steps: Seq<StepView>, i: int, n: int)
    requires
        0 <= i < n <= steps.len(),
        forall|j: int|
            i < j < n ==> ((#[trigger] steps[j]).place, steps[j].name) != (steps[i].place, steps[i].name),
    ensures
        after_steps(files, steps, n).contains_key((steps[i].place, steps[i].name)),
        after_steps(files, steps, n)[(steps[i].place, steps[i].name)] == steps[i].content,
    decreases n,
{
    if i < n - 1 {
        lemma_written(files, steps, i, n - 1);
    }
}

/// Where a live file stands: its directory and its name.
pub fn live_place(path: &str) -> (r: Result<(String, String), Failure>)
    ensures
        match r {
            Ok(p) => p.0@ == directory_of(path@) && file_name_of(path@) == Some(p.1@),
            Err(f) => file_name_of(path@) is None && f@ == fails(
                FailureKind::InvalidInput,
                "invalid live file name"@,
            ),
        },
{
    match file_name(path) {
        Some(leaf) => Ok((parent_or_root(path), leaf)),
        None => Err(Failure::new(FailureKind::InvalidInput, "invalid live file name")),
    }
}

/// The permission bits of a mode.
pub fn permission_bits(mode: u32) -> (r: u32)
    ensures
        r == mode & 0o7777,
        r <= 0o7777,
{
    assert(mode & 0o7777 <= 0o7777) by (bit_vector);
    mode & 0o7777
}

/// The place of the latest revision of a path among the first `n`: that with the greatest number,
/// the last of those that share it.
pub open spec fn latest_place(rs: Seq<RevisionView>, path: Seq<char>, n: int) -> Option<int>
    decreases n,
{
    if n <= 0 {
        None
    } else {
        let before = latest_place(rs, path, n - 1);
        if same_path_text(rs[n - 1].access.path, path) && (before is None || rs[n - 1].number
            >= rs[before->0].number) {
            Some(n - 1)
        } else {
            before
        }
    }
}

/// No revision of a path has a greater number than the latest.
pub proof fn law_latest_is_greatest(rs: Seq<RevisionView>, path: Seq<char>, n: int)
    requires
        0 <= n <= rs.len(),
    ensures
        match latest_place(rs, path, n) {
            Some(l) => 0 <= l < n && same_path_text(rs[l].access.path, path) && forall|i: int|
                0 <= i < n && same_path_text((#[trigger] rs[i]).access.path, path) ==> rs[i].number
                    <= rs[l].number,
            None => forall|i: int|
                0 <= i < n ==> !same_path_text((#[trigger] rs[i]).access.path, path),
        },
    decreases n,
{
    if n > 0 {
        law_latest_is_greatest(rs, path, n - 1);
    }
}

/// The latest revision of a path.
pub fn latest_revision(revisions: &Vec<Revision>, path: &str) -> (r: Option<usize>)
    ensures
        match r {
            Some(i) => i < revisions@.len() && latest_place(
                all_views(revisions@),
                path@,
                revisions@.len() as int,
            ) == Some(i as int),
            None => latest_place(all_views(revisions@), path@, revisions@.len() as int) is None,
        },
{
    let ghost rs = all_views(revisions@);
    let mut found: Option<usize> = None;
    let mut n: usize = 0;
    while n < revisions.len()
        invariant
            n <= revisions.len(),
            rs == all_views(revisions@),
            match found {
                Some(i) => i < n && latest_place(rs, path@, n as int) == Some(i as int),
                None => latest_place(rs, path@, n as int) is None,
            },
        decreases revisions.len() - n,
    {
        assert(rs[n as int] == revisions@[n as int]@);
        if same_path(revisions[n].access.path.as_str(), path) {
            match found {
                None => {
                    found = Some(n);
                },
                Some(i) => {
                    assert(rs[i as int] == revisions@[i as int]@);
                    if revisions[n].number >= revisions[i].number {
                        found = Some(n);
                    }
                },
            }
        }
        n += 1;
    }
    found
}

/// What two warnings come to.
pub open spec fn merged_warnings(first: Option<Seq<char>>, second: Option<Seq<char>>) -> Option<
    Seq<char>,
> {
    match (first, second) {
        (Some(a), Some(b)) => Some(a + "; "@ + b),
        (Some(a), None) => Some(a),
        (None, second) => second,
    }
}

/// What two warnings come to.
pub fn merge_warnings(first: Option<String>, second: Option<String>) -> (r: Option<String>)
    ensures
        opt_view(r) == merged_warnings(opt_view(first), opt_view(second)),
{
    match (first, second) {
        (Some(a), Some(b)) => {
            let mut out: String = a;
            out.append("; ");
            out.append(b.as_str());
            Some(out)
        },
        (Some(a), None) => Some(a),
        (None, second) => second,
    }
}

/// How far a restore has come, and what it wants done.
#[derive(Clone, Copy, Debug, PartialEq, Eq, Structural)]
pub enum RestoreStage {
    /// Render the latest revision of the file.
    RenderLatest,
    /// Record what was changed since the latest revision.
    RecordSync,
    /// Read what is to be restored.
    ReadTarget,
    /// Put it in place of the live file.
    ReplaceLive,
    /// Record the restore.
    Record,
    /// Put the live file back.
    PutBack,
    /// The restore is done.
    Finished,
    /// The restore failed.
    Failed,
}

/// What came of what a restore wanted done.
pub enum RestoreEvent {
    Bytes(Result<Vec<u8>, Failure>),
    Created(Result<CreatedRevision, Failure>),
    Replaced(Result<(), Failure>),
}

/// A restore under way.
pub struct Restore {
    pub stage: RestoreStage,
    pub latest: usize,
    pub live: Vec<u8>,
    pub represented: Vec<u8>,
    pub target: Vec<u8>,
    pub sync_warning: Option<String>,
    pub created: Option<CreatedRevision>,
    pub failure: Option<Failure>,
}

/// The model of a restore.
pub struct RestoreView {
    pub stage: RestoreStage,
    pub latest: usize,
    pub live: Seq<u8>,
    pub represented: Seq<u8>,
    pub target: Seq<u8>,
    pub sync_warning: Option<Seq<char>>,
    pub created: Option<CreatedView>,
    pub failure: Option<FailureView>,
}

impl View for Restore {
    type V = RestoreView;

    open spec fn view(&self) -> RestoreView {
        RestoreView {
            stage: self.stage,
            latest: self.latest,
            live: self.live@,
            represented: self.represented@,
            target: self.target@,
            sync_warning: opt_view(self.sync_warning),
            created: match self.created {
                Some(c) => Some(c@),
                None => None,
            },
            failure: match self.failure {
                Some(f) => Some(f@),
                None => None,
            },
        }
    }
}

/// Whether an event answers what a stage wants done.
pub open spec fn answers(stage: RestoreStage, event: RestoreEvent) -> bool {
    match stage {
        RestoreStage::RenderLatest | RestoreStage::ReadTarget => event is Bytes,
        RestoreStage::RecordSync | RestoreStage::Record => event is Created,
        RestoreStage::ReplaceLive | RestoreStage::PutBack => event is Replaced,
        RestoreStage::Finished | RestoreStage::Failed => false,
    }
}

/// A restore that failed for good.
pub open spec fn restore_failed(r: RestoreView, f: FailureView) -> RestoreView {
    RestoreView { stage: RestoreStage::Failed, failure: Some(f), ..r }
}

/// A restore after an event.
pub open spec fn restore_after(r: RestoreView, event: RestoreEvent) -> RestoreView {
    match (r.stage, event) {
        (RestoreStage::RenderLatest, RestoreEvent::Bytes(Ok(b))) => RestoreView {
            stage: if b@ != r.live {
                RestoreStage::RecordSync
            } else {
                RestoreStage::ReadTarget
            },
            represented: b@,
            ..r
        },
        (RestoreStage::RecordSync, RestoreEvent::Created(Ok(c))) => RestoreView {
            stage: RestoreStage::ReadTarget,
            sync_warning: opt_view(c.mirror_warning),
            ..r
        },
        (RestoreStage::ReadTarget, RestoreEvent::Bytes(Ok(b))) => RestoreView {
            stage: RestoreStage::ReplaceLive,
            target: b@,
            ..r
        },
        (RestoreStage::ReplaceLive, RestoreEvent::Replaced(Ok(_))) => RestoreView {
            stage: RestoreStage::Record,
            ..r
        },
        (RestoreStage::Record, RestoreEvent::Created(Ok(c))) => RestoreView {
            stage: RestoreStage::Finished,
            created: Some(
                CreatedView {
                    mirror_warning: merged_warnings(r.sync_warning, opt_view(c.mirror_warning)),
                    ..c@
                },
            ),
            ..r
        },
        (RestoreStage::Record, RestoreEvent::Created(Err(f))) => RestoreView {
            stage: RestoreStage::PutBack,
            failure: Some(f@),
            ..r
        },
        (RestoreStage::PutBack, _) => RestoreView { stage: RestoreStage::Failed, ..r },
        (_, RestoreEvent::Bytes(Err(f))) => restore_failed(r, f@),
        (_, RestoreEvent::Created(Err(f))) => restore_failed(r, f@),
        (_, RestoreEvent::Replaced(Err(f))) => restore_failed(r, f@),
        _ => r,
    }
}

/// A restore of a file with a live content.
pub open spec fn restore_start(latest: usize, live: Seq<u8>) -> RestoreView {
    RestoreView {
        stage: RestoreStage::RenderLatest,
        latest,
        live,
        represented: Seq::empty(),
        target: Seq::empty(),
        sync_warning: None,
        created: None,
        failure: None,
    }
}

/// What a restore wants recorded.
pub open spec fn restore_recording(
    r: RestoreView,
    path: Seq<char>,
    editor: Seq<char>,
    mirrored: bool,
) -> CreationView {
    if r.stage == RestoreStage::RecordSync {
        creation_start(path, "sync"@, r.represented, r.live, mirrored)
    } else {
        creation_start(path, editor, r.live, r.target, mirrored)
    }
}

impl Restore {
    /// A restore of a file with a live content; a file without a revision cannot be restored.
    pub fn begin(path: &str, live: Vec<u8>, revisions: &Vec<Revision>) -> (r: Result<Self, Failure>)
        ensures
            match r {
                Ok(restore) => latest_place(
                    all_views(revisions@),
                    path@,
                    revisions@.len() as int,
                ) == Some(restore.latest as int) && restore@ == restore_start(
                    restore.latest,
                    live@,
                ),
                Err(f) => latest_place(all_views(revisions@), path@, revisions@.len() as int) is None
                    && f@ == fails(FailureKind::NotFound, "revision not found"@),
            },
    {
        match latest_revision(revisions, path) {
            Some(latest) => {
                let r: Restore = Restore {
                    stage: RestoreStage::RenderLatest,
                    latest,
                    live,
                    represented: Vec::new(),
                    target: Vec::new(),
                    sync_warning: None,
                    created: None,
                    failure: None,
                };
                Ok(r)
            },
            None => Err(Failure::new(FailureKind::NotFound, "revision not found")),
        }
    }

    /// Begins to record what the restore wants recorded: what was changed since the latest
    /// revision, under `sync`, or the restore itself, under the name of the editor.
    pub fn recording(&self, path: &str, editor: &str, mirrored: bool) -> (r: Result<
        Creation,
        Failure,
    >)
        requires
            self.stage == RestoreStage::RecordSync || self.stage == RestoreStage::Record,
        ensures
            match r {
                Ok(c) => file_name_of(path@) is Some && c.valid() && c@ == restore_recording(
                    self@,
                    path@,
                    editor@,
                    mirrored,
                ),
                Err(f) => file_name_of(path@) is None && f@ == fails(
                    FailureKind::InvalidInput,
                    "invalid file name"@,
                ),
            },
    {
        match self.stage {
            RestoreStage::RecordSync => Creation::begin(
                path,
                "sync",
                copy_bytes(&self.represented),
                copy_bytes(&self.live),
                mirrored,
            ),
            _ => Creation::begin(
                path,
                editor,
                copy_bytes(&self.live),
                copy_bytes(&self.target),
                mirrored,
            ),
        }
    }

    /// Takes in what came of what the restore wanted done.
    pub fn step(&mut self, event: RestoreEvent)
        requires
            answers(old(self).stage, event),
        ensures
            final(self)@ == restore_after(old(self)@, event),
    {
        match self.stage {
            RestoreStage::PutBack => {
                self.stage = RestoreStage::Failed;
                return;
            },
            _ => {},
        }
        match event {
            RestoreEvent::Bytes(Ok(b)) => {
                if self.stage == RestoreStage::RenderLatest {
                    self.stage = if same_bytes(&b, &self.live) {
                        RestoreStage::ReadTarget
                    } else {
                        RestoreStage::RecordSync
                    };
                    self.represented = b;
                } else {
                    self.stage = RestoreStage::ReplaceLive;
                    self.target = b;
                }
            },
            RestoreEvent::Created(Ok(c)) => {
                if self.stage == RestoreStage::RecordSync {
                    self.stage = RestoreStage::ReadTarget;
                    self.sync_warning = c.mirror_warning;
                } else {
                    let first: Option<String> = crate::text::copy_opt(&self.sync_warning);
                    self.stage = RestoreStage::Finished;
                    self.created = Some(
                        CreatedRevision {
                            number: c.number,
                            backup_only_fallback: c.backup_only_fallback,
                            mirror_warning: merge_warnings(first, c.mirror_warning),
                        },
                    );
                }
            },
            RestoreEvent::Replaced(Ok(_)) => {
                self.stage = RestoreStage::Record;
            },
            RestoreEvent::Created(Err(f)) => {
                self.stage = if self.stage == RestoreStage::Record {
                    RestoreStage::PutBack
                } else {
                    RestoreStage::Failed
                };
                self.failure = Some(f);
            },
            RestoreEvent::Bytes(Err(f)) => {
                self.stage = RestoreStage::Failed;
                self.failure = Some(f);
            },
            RestoreEvent::Replaced(Err(f)) => {
                self.stage = RestoreStage::Failed;
                self.failure = Some(f);
            },
        }
    }
}

/// A restore that cannot be recorded puts the live content back before it fails, and fails with
/// the reason; a restore that fails earlier has not touched the live file.
pub proof fn law_unrecorded_restore_is_undone(r: RestoreView, event: RestoreEvent, later: RestoreEvent)
    requires
        answers(r.stage, event),
        answers(RestoreStage::PutBack, later),
    ensures
        event matches RestoreEvent::Created(Err(f)) ==> r.stage == RestoreStage::Record ==> {
            let undoing = restore_after(r, event);
            &&& undoing.stage == RestoreStage::PutBack
            &&& undoing.live == r.live
            &&& restore_after(undoing, later).stage == RestoreStage::Failed
            &&& restore_after(undoing, later).failure == Some(f@)
        },
        restore_after(r, event).stage == RestoreStage::Failed ==> r.stage != RestoreStage::Record,
        restore_after(r, event).live == r.live,
{
}

/// A restore after a run of events.
pub open spec fn restore_run(start: RestoreView, events: Seq<RestoreEvent>) -> RestoreView
    decreases events.len(),
{
    if events.len() == 0 {
        start
    } else {
        restore_after(restore_run(start, events.drop_last()), events.last())
    }
}

/// Whether each event of a run answers what the restore then wanted done.
pub open spec fn run_answers(start: RestoreView, events: Seq<RestoreEvent>) -> bool
    decreases events.len(),
{
    events.len() == 0 || (run_answers(start, events.drop_last()) && answers(
        restore_run(start, events.drop_last()).stage,
        events.last(),
    ))
}

/// Whether a run has shown that the history holds the live content: the latest revision renders
/// it, or a revision with it was recorded.
pub open spec fn live_is_recorded(events: Seq<RestoreEvent>, live: Seq<u8>) -> bool {
    &&& events.len() > 0
    &&& events[0] matches RestoreEvent::Bytes(Ok(b))
    &&& b@ == live || (events.len() > 1 && (events[1] matches RestoreEvent::Created(Ok(_))))
}

/// The live file is replaced only after the history holds its content, so that nothing is lost;
/// what is put back is the content that the restore began with.
pub proof fn law_restore_preserves_live(latest: usize, live: Seq<u8>, events: Seq<RestoreEvent>)
    requires
        run_answers(restore_start(latest, live), events),
    ensures
        restore_run(restore_start(latest, live), events).live == live,
        match restore_run(restore_start(latest, live), events).stage {
            RestoreStage::RenderLatest => events.len() == 0,
            RestoreStage::RecordSync => events.len() == 1 && (events[0] matches RestoreEvent::Bytes(
                Ok(_),
            )),
            RestoreStage::Failed => true,
            _ => live_is_recorded(events, live),
        },
    decreases events.len(),
{
    if events.len() > 0 {
        law_restore_preserves_live(latest, live, events.drop_last());
    }
}

/// A number that no other call in the process gets: the clock above, a counter below.
pub fn nonce(clock: u64, sequence: u64) -> (r: u128)
    ensures
        r == clock as nat * 0x1_0000_0000_0000_0000 + sequence,
{
    let high: u128 = clock as u128;
    let low: u128 = sequence as u128;
    assert((high << 64) | low == high * 0x1_0000_0000_0000_0000 + low) by (bit_vector)
        requires
            high <= 0xffff_ffff_ffff_ffff,
            low <= 0xffff_ffff_ffff_ffff,
    ;
    (high << 64) | low
}

/// Numbers of different counts are different, whatever the clock said.
pub proof fn law_nonces_differ(clock_a: u64, clock_b: u64, a: u64, b: u64)
    requires
        a != b,
    ensures
        clock_a as nat * 0x1_0000_0000_0000_0000 + a != clock_b as nat * 0x1_0000_0000_0000_0000 + b,
{
}

/// Whether a name can stand for one component of a path.
pub open spec fn is_component(name: Seq<char>) -> bool {
    name.len() > 0 && name != "."@ && name != ".."@ && !name.contains('/')
}

/// Whether a name can stand for one component of a path.
pub fn names_component(name: &str) -> (r: bool)
    ensures
        r == is_component(name@),
{
    let x: Vec<char> = chars_of(name);
    if x.len() == 0 || same(name, ".") || same(name, "..") {
        return false;
    }
    let mut i: usize = 0;
    while i < x.len()
        invariant
            x@ == name@,
            i <= x.len(),
            forall|j: int| 0 <= j < i ==> name@[j] != '/',
        decreases x.len() - i,
    {
        if x[i] == '/' {
            assert(name@[i as int] == '/');
            return false;
        }
        i += 1;
    }
    true
}

/// The name under which a file is staged: a test may choose it, as far as it is a name.
pub fn staging_name(kind: &str, process: u32, nonce: u128, chosen: Option<&str>) -> (r: String)
    ensures
        r@ == match chosen {
            Some(name) if is_component(name@) => name@,
            _ => ".bedit-"@ + kind@ + "-"@ + decimal(process as nat) + "-"@ + decimal(nonce as nat),
        },
{
    match chosen {
        Some(name) => if names_component(name) {
            return name.to_owned();
        },
        None => {},
    }
    let mut out: String = ".bedit-".to_owned();
    out.append(kind);
    out.append("-");
    out.append(to_decimal(process as u64).as_str());
    out.append("-");
    out.append(to_wide_decimal(nonce).as_str());
    out
}

/// Relabelling a diff replaces its two header lines by ones that name the file, and keeps what
/// stands behind them to the last character. A path that itself holds a header is left out.
pub proof fn law_relabelled_diff_keeps_its_hunks(
    a: Seq<char>,
    b: Seq<char>,
    body: Seq<char>,
    path: Seq<char>,
)
    requires
        one_line(a),
        one_line(b),
        !occurs(path, "\n+++ "@),
    ensures
        relabelled(a + "\n"@ + "+++ "@ + b + "\n"@ + body, path) == "--- "@ + path + "@before\n+++ "@
            + path + "@saved\n"@ + body,
        relabelled(a, path) == a,
{
    reveal_strlit("\n");
    reveal_strlit("\n+++ ");
    reveal_strlit("+++ ");
    reveal_strlit("--- ");
    reveal_strlit("@before");
    reveal_strlit("@saved");
    reveal_strlit("@before\n+++ ");
    reveal_strlit("@saved\n");
    let feed = "\n"@;
    let mark = "\n+++ "@;
    let rest = "+++ "@ + b + feed + body;
    let text = a + feed + "+++ "@ + b + feed + body;
    assert(text =~= a + feed + rest);
    lemma_ends_cleanly(a, feed);
    lemma_pieces_step(a, feed, rest);
    let top = "--- "@ + path + "@before"@;
    let headed = "--- "@ + path + "@before"@ + feed + rest;
    let i = top.len() as int;
    assert(headed.subrange(i, i + mark.len()) =~= mark);
    assert forall|j: int| 0 <= j < i implies !occurs_at(headed, mark, j) by {
        if occurs_at(headed, mark, j) {
            let found = headed.subrange(j, j + mark.len());
            assert(found[0] == headed[j] && found[4] == headed[j + 4] && found[1] == headed[j + 1]);
            assert(headed[j] == '\n' && headed[j + 4] == ' ' && headed[j + 1] == '+');
            if j < 4 {
                assert(headed[j] == "--- "@[j]);
            } else if j < 4 + path.len() {
                assert(headed[j] == path[j - 4]);
                if j + 5 <= 4 + path.len() {
                    assert(path.subrange(j - 4, j + 1) =~= found);
                    assert(occurs_at(path, mark, j - 4));
                } else {
                    let k = j + 4 - 4 - path.len();
                    assert(0 <= k < 4);
                    assert(headed[j + 4] == "@before"@[k]);
                }
            } else {
                assert(headed[j] == "@before"@[j - 4 - path.len()]);
            }
        }
    }
    lemma_first_occurrence_is(headed, mark, 0, i);
    let j = i + 5 + b.len();
    assert(headed.subrange(j, j + 1) =~= feed);
    assert forall|k: int| i + 1 <= k < j implies !occurs_at(headed, feed, k) by {
        if occurs_at(headed, feed, k) {
            assert(headed.subrange(k, k + 1)[0] == headed[k]);
            if k < i + 5 {
                assert(headed[k] == "+++ "@[k - i - 1]);
            } else {
                assert(headed[k] == b[k - i - 5]);
            }
        }
    }
    lemma_first_occurrence_is(headed, feed, i + 1, j);
    assert(headed.subrange(0, i + 1) =~= top + feed);
    assert(headed.subrange(j, headed.len() as int) =~= feed + body);
    assert(top + feed + "+++ "@ + path + "@saved"@ + (feed + body) =~= "--- "@ + path
        + "@before\n+++ "@ + path + "@saved\n"@ + body);
    assert(!occurs(a, feed)) by {
        if occurs(a, feed) {
            let k = choose|k: int| occurs_at(a, feed, k);
            assert(a.subrange(k, k + 1)[0] == a[k]);
        }
    }
    lemma_pieces_last(a, feed);
}

/// The payload of a revision always gives back what it represents: with a difference it keeps the
/// content that the difference starts from, and without one it keeps the content itself. There is a
/// difference exactly where one was made and is not empty.
pub proof fn law_payload_keeps_the_content(
    baseline: Seq<u8>,
    represented: Seq<u8>,
    generated: Result<Vec<u8>, Failure>,
)
    ensures
        ({
            let made = payload_of(baseline, represented, generated);
            &&& made.diff is Some <==> (generated matches Ok(d) && d@.len() > 0)
            &&& made.diff matches Some(d) ==> (generated matches Ok(v) && v@ == d) && made.backup
                == baseline
            &&& made.diff is None ==> made.backup == represented
        }),
{
}

/// Of two warnings none is lost: there is one where either is, and it holds both.
pub proof fn law_no_warning_is_lost(
    first: Option<Seq<char>>,
    second: Option<Seq<char>>,
    mirror: Option<Result<(), Failure>>,
)
    ensures
        merged_warnings(first, second) is Some <==> first is Some || second is Some,
        merged_warnings(first, second) matches Some(w) ==> (first matches Some(a) ==> begins_with(
            w,
            a,
        )) && (second matches Some(b) ==> finishes_with(w, b)),
        first is None ==> merged_warnings(first, second) == second,
        second is None ==> merged_warnings(first, second) == first,
        mirror_says(mirror) is Some <==> (mirror matches Some(r) && r is Err),
        mirror matches Some(Err(f)) ==> (mirror_says(mirror) matches Some(w) && finishes_with(
            w,
            f.message@,
        ) && begins_with(w, "user history mirror failed: "@)),
{
    match (first, second) {
        (Some(a), Some(b)) => {
            let w = a + "; "@ + b;
            assert(w.subrange(0, a.len() as int) =~= a);
            assert(w.subrange(w.len() - b.len(), w.len() as int) =~= b);
        },
        (Some(a), None) => {
            assert(a.subrange(0, a.len() as int) =~= a);
        },
        (None, Some(b)) => {
            assert(b.subrange(0, b.len() as int) =~= b);
        },
        (None, None) => {},
    }
    match mirror {
        Some(Err(f)) => {
            let head = "user history mirror failed: "@;
            let w = head + f.message@;
            assert(w.subrange(0, head.len() as int) =~= head);
            assert(w.subrange(w.len() - f.message@.len(), w.len() as int) =~= f.message@);
        },
        _ => {},
    }
}

/// Making a revision: what is compared is published, with the file's name, its directory, the editor
/// and the time; the number it got is the number of the result; a difference that could not be made
/// shows as a fallback, and a mirror that failed as a warning. What cannot be published fails with
/// that failure.
pub proof fn law_creation_comes_to_its_end(
    path: Seq<char>,
    editor: Seq<char>,
    baseline: Seq<u8>,
    represented: Seq<u8>,
    mirrored: bool,
    generated: Result<Vec<u8>, Failure>,
    epoch: u64,
    stamp: String,
    number: u64,
    mirror: Result<(), Failure>,
    failure: Failure,
)
    requires
        file_name_of(path) is Some,
    ensures
        ({
            let c0 = creation_start(path, editor, baseline, represented, mirrored);
            let c1 = creation_after(c0, CreationEvent::Compared(generated, epoch, stamp));
            let c2 = creation_after(c1, CreationEvent::Published(Ok(number)));
            let end = if mirrored {
                creation_after(c2, CreationEvent::Mirrored(mirror))
            } else {
                c2
            };
            let lost = creation_after(c1, CreationEvent::Published(Err(failure)));
            &&& c0.stage == CreationStage::Compare && c0.baseline == baseline && c0.represented
                == represented
            &&& c1.stage == CreationStage::Publish
            &&& c1.prepared matches Some(p) && p.full == path && p.editor == editor && p.epoch
                == epoch && p.stamp == stamp@ && components(path).last() == p.leaf && p.directory
                == directory_of(path) && p.key == key_of(p.directory)
                && p.payload == payload_of(baseline, represented, generated)
            &&& mirrored ==> c2.stage == CreationStage::Mirror && c2.prepared == c1.prepared
            &&& end.stage == CreationStage::Finished && end.prepared == c1.prepared
            &&& end.created matches Some(made) && made.number == number && (
            made.backup_only_fallback <==> generated is Err) && (made.mirror_warning is Some
                <==> mirrored && mirror is Err)
            &&& lost.stage == CreationStage::Failed && lost.failure == Some(failure@)
                && lost.created is None
        }),
{
}

/// A restore goes step by step: where the newest revision is not what the file holds, what the file
/// holds is recorded first, as a revision of its own; the wanted content is read, put into the file
/// and recorded, as a change from what the file held. The result is the last revision, with the
/// warnings of both.
pub proof fn law_restore_comes_to_its_end(
    latest: usize,
    live: Seq<u8>,
    newest: Vec<u8>,
    kept: CreatedRevision,
    wanted: Vec<u8>,
    made: CreatedRevision,
    path: Seq<char>,
    editor: Seq<char>,
    mirrored: bool,
)
    ensures
        ({
            let r0 = restore_start(latest, live);
            let r1 = restore_after(r0, RestoreEvent::Bytes(Ok(newest)));
            let r2 = if newest@ != live {
                restore_after(r1, RestoreEvent::Created(Ok(kept)))
            } else {
                r1
            };
            let r3 = restore_after(r2, RestoreEvent::Bytes(Ok(wanted)));
            let r4 = restore_after(r3, RestoreEvent::Replaced(Ok(())));
            let end = restore_after(r4, RestoreEvent::Created(Ok(made)));
            &&& newest@ != live ==> {
                let c = restore_recording(r1, path, editor, mirrored);
                r1.stage == RestoreStage::RecordSync && c.editor == "sync"@ && c.path == path
                    && c.baseline == newest@ && c.represented == live && c.mirrored == mirrored
            }
            &&& r2.stage == RestoreStage::ReadTarget
            &&& r3.stage == RestoreStage::ReplaceLive && r3.target == wanted@
            &&& r4.stage == RestoreStage::Record && r4.target == wanted@
            &&& ({
                let c = restore_recording(r4, path, editor, mirrored);
                c.editor == editor && c.path == path && c.baseline == live && c.represented
                    == wanted@ && c.mirrored == mirrored
            })
            &&& end.stage == RestoreStage::Finished && end.failure is None
            &&& end.created matches Some(v) && v.number == made.number && v.backup_only_fallback
                == made.backup_only_fallback && (v.mirror_warning is Some <==> made.mirror_warning
                is Some || (newest@ != live && kept.mirror_warning is Some))
        }),
{
}

/// A restore that fails at a step changes nothing further: it ends with the failure of that step.
/// Where the content could not be recorded the file is put back first.
pub proof fn law_failed_restore_says_why(r: RestoreView, event: RestoreEvent, failure: Failure)
    requires
        answers(r.stage, event),
        r.stage != RestoreStage::PutBack,
        event == RestoreEvent::Bytes(Err(failure)) || event == RestoreEvent::Created(Err(failure))
            || event == RestoreEvent::Replaced(Err(failure)),
    ensures
        restore_after(r, event).failure == Some(failure@),
        restore_after(r, event).created == r.created,
        restore_after(r, event).stage == if r.stage == RestoreStage::Record {
            RestoreStage::PutBack
        } else {
            RestoreStage::Failed
        },
{
}

proof fn lemma_links_differ(leaf: Seq<char>, number: nat, x: char, y: char)
    requires
        x != y,
    ensures
        link_name(leaf, number, x) != link_name(leaf, number, y),
{
    assert(link_name(leaf, number, x).last() == x);
    assert(link_name(leaf, number, y).last() == y);
}

/// When a publication is through, the backup, the access record and their links are there, the diff
/// and its link where there is one, and the actor where it is not the owner of the history; and
/// nothing else has changed.
pub proof fn law_publication_puts_everything_in_place(
    files: Files,
    p: PreparedView,
    config: ConfigView,
    number: nat,
    key: (Place, Seq<char>),
)
    ensures
        ({
            let steps = publication_steps(p, config, number);
            let now = after_steps(files, steps, steps.len() as int);
            let record = |kind: char| name_of_record(p.key, p.leaf, number, kind);
            let link = |kind: char| p.leaf + SEPARATOR@ + decimal(number) + SEPARATOR@ + seq![kind];
            let foreign = config.actor != config.history_owner;
            let differs = p.payload.diff is Some;
            &&& now.contains_key((Place::Backups, record('b'))) && now[(
                Place::Backups,
                record('b'),
            )] == ContentView::File(p.payload.backup)
            &&& p.payload.diff matches Some(d) ==> now.contains_key((Place::Edits, record('d')))
                && now[(Place::Edits, record('d'))] == ContentView::File(d)
            &&& now.contains_key((Place::Access, record('a'))) && now[(
                Place::Access,
                record('a'),
            )] == ContentView::File(encode_utf8(access_text(p)))
            &&& foreign ==> now.contains_key((Place::Actors, record('u'))) && now[(
                Place::Actors,
                record('u'),
            )] == ContentView::File(encode_utf8(config.actor + "\n"@))
            &&& now.contains_key((Place::Branch, link('b'))) && now[(Place::Branch, link('b'))]
                == ContentView::Link(joined_path(config.backups, record('b')))
            &&& differs ==> now.contains_key((Place::Branch, link('d'))) && now[(
                Place::Branch,
                link('d'),
            )] == ContentView::Link(joined_path(config.edits, record('d')))
            &&& now.contains_key((Place::Branch, link('a'))) && now[(Place::Branch, link('a'))]
                == ContentView::Link(joined_path(config.access, record('a')))
            &&& key != (Place::Backups, record('b')) && !(differs && key == (
                Place::Edits,
                record('d'),
            )) && key != (Place::Access, record('a')) && !(foreign && key == (
                Place::Actors,
                record('u'),
            )) && key != (Place::Branch, link('b')) && !(differs && key == (
                Place::Branch,
                link('d'),
            )) && key != (Place::Branch, link('a')) ==> {
                &&& now.contains_key(key) == files.contains_key(key)
                &&& files.contains_key(key) ==> now[key] == files[key]
            }
        }),
{
    let steps = publication_steps(p, config, number);
    let n = steps.len() as int;
    lemma_links_differ(p.leaf, number, 'a', 'b');
    lemma_links_differ(p.leaf, number, 'a', 'd');
    lemma_links_differ(p.leaf, number, 'b', 'd');
    let foreign = config.actor != config.history_owner;
    let d: int = if p.payload.diff is Some {
        1
    } else {
        0
    };
    let u: int = if foreign {
        1
    } else {
        0
    };
    assert(n == 4 + 2 * d + u);
    assert(steps[0] == file_step(Place::Backups, p, number, 'b', p.payload.backup));
    assert(p.payload.diff matches Some(x) ==> steps[1] == file_step(
        Place::Edits,
        p,
        number,
        'd',
        x,
    ));
    assert(steps[1 + d] == file_step(
        Place::Access,
        p,
        number,
        'a',
        encode_utf8(access_text(p)),
    ));
    assert(foreign ==> steps[2 + d] == file_step(
        Place::Actors,
        p,
        number,
        'u',
        encode_utf8(config.actor + "\n"@),
    ));
    assert(steps[2 + d + u] == link_step(p, number, 'b', config.backups));
    assert(d == 1 ==> steps[3 + d + u] == link_step(p, number, 'd', config.edits));
    assert(steps[n - 1] == link_step(p, number, 'a', config.access));
    assert forall|i: int, j: int| 0 <= i < j < n implies (
        (#[trigger] steps[j]).place,
        steps[j].name,
    ) != ((#[trigger] steps[i]).place, steps[i].name) by {}
    lemma_after_more_steps(files, steps, 0, n);
    lemma_after_more_steps(files, steps, 1, n);
    lemma_after_more_steps(files, steps, 1 + d, n);
    lemma_after_more_steps(files, steps, 2 + d, n);
    lemma_after_more_steps(files, steps, 2 + d + u, n);
    lemma_after_more_steps(files, steps, 3 + d + u, n);
    lemma_after_more_steps(files, steps, n - 1, n);
    if forall|i: int| 0 <= i < n ==> ((#[trigger] steps[i]).place, steps[i].name) != key {
        lemma_after_steps(files, steps, n, key);
    }
}

/// A publication goes through its steps one after another; a step that fails stops it, with its
/// failure, and from then on what it made is removed, one after another.
pub proof fn law_publication_goes_step_by_step(p: PublicationView, f: FailureView)
    requires
        p.failure is None,
    ensures
        publication_after(p, None).done == p.done + 1 && publication_after(p, None).failure is None,
        publication_after(p, None).steps == p.steps && publication_after(p, None).number == p.number,
        ({
            let stopped = publication_after(p, Some(f));
            &&& stopped.failure == Some(f) && stopped.done == p.done && stopped.removed == 0
            &&& stopped.removals == rollback(p.steps, p.done, p.leaf, p.number)
            &&& publication_after(stopped, None).removed == 1
            &&& publication_after(stopped, Some(f)).removed == 1
            &&& publication_after(stopped, None).failure == Some(f)
            &&& publication_after(stopped, None).removals == stopped.removals
        }),
{
}

/// What comes back is handed on: bytes where there are any, and the failure of what failed.
pub proof fn law_outcomes_are_handed_on(b: Vec<u8>, f: Failure)
    ensures
        opt_bytes(Some(b)) == Some(b@),
        opt_bytes(None) is None,
        failure_of(Ok(())) is None,
        failure_of(Err(f)) == Some(f@),
{
}

/// A publication begins with its first step and nothing to remove.
pub proof fn law_publication_begins_with_its_first_step(
    p: PreparedView,
    config: ConfigView,
    number: nat,
)
    ensures
        ({
            let begun = publication_start(p, config, number);
            &&& begun.done == 0 && begun.failure is None && begun.removals.len() == 0
            &&& begun.steps == publication_steps(p, config, number)
            &&& begun.leaf == p.leaf && begun.number == number
        }),
{
}

/// A component is a name: not empty, neither a dot nor two dots, and without a slash.
pub proof fn law_component_is_a_name(name: Seq<char>, a: Seq<char>, b: Seq<char>)
    ensures
        !is_component(Seq::empty()),
        !is_component("."@) && !is_component(".."@),
        !is_component(a + seq!['/'] + b),
        name.len() > 0 && name[0] != '.' && (forall|i: int|
            0 <= i < name.len() ==> #[trigger] name[i] != '/') ==> is_component(name),
{
    reveal_strlit(".");
    reveal_strlit("..");
    assert((a + seq!['/'] + b)[a.len() as int] == '/');
    if name.len() > 0 && name[0] != '.' && (forall|i: int|
        0 <= i < name.len() ==> #[trigger] name[i] != '/') {
        assert("."@[0] == '.' && ".."@[0] == '.');
        if name.contains('/') {
            let i = choose|i: int| 0 <= i < name.len() && name[i] == '/';
            assert(name[i] == '/');
        }
    }
}

/// The model of a revision that was made has all that is known of it.
pub proof fn law_model_of_a_revision_that_was_made(x: CreatedRevision)
    ensures
        x@.number == x.number,
        x@.backup_only_fallback == x.backup_only_fallback,
        x@.mirror_warning == opt_view(x.mirror_warning),
{
}

/// The model of a payload has all that is known of it.
pub proof fn law_model_of_a_payload(x: RevisionPayload)
    ensures
        x@.backup == x.backup@,
        x@.diff == opt_bytes(x.diff),
{
}

/// The model of a prepared revision has all that is known of it.
pub proof fn law_model_of_a_prepared_revision(x: PreparedRevision)
    ensures
        x@.full == x.full@,
        x@.directory == x.directory@,
        x@.key == x.key@,
        x@.leaf == x.leaf@,
        x@.editor == x.editor@,
        x@.epoch == x.epoch,
        x@.stamp == x.stamp@,
        x@.payload == x.payload@,
{
}

} // verus!
