//! The records of a repository: revisions, access lines and the index.

use crate::config::Config;
use crate::encoding::decode;
use crate::failure::{Failure, FailureKind};
use crate::order::{arrange, push_number_key, push_text_key, sort_order, Replicate};
use crate::path::{components_of, push_path_key, starts_with_path};
use crate::paths::{parse_record_name, record_name, record_path, SEPARATOR};
use crate::text::{copy_opt, parse_bounded, split_once, trim, trim_end, CharClass};
#[allow(unused_imports)]
use crate::{
    config::{opt_config, ConfigView},
    encoding::utf8_fault,
    failure::{fails, FailureView},
    order::{
        comes_before, key_at_most, key_begins, key_less, key_views, law_sorting_keeps_items,
        law_stable_order, law_text_keys_are_faithful, law_text_keys_are_separate, lemma_joined_keys,
        lemma_letter, letter, smaller_at, sorted_by_key, stable_order, text_key, text_less,
    },
    path::{
        components, is_within, joined_path, law_path_keys_are_faithful, law_path_keys_are_separate,
        law_path_keys_order_paths, path_key, path_less, same_path_text,
    },
    paths::{name_of_record, record_of_name},
    text::{
        all_views, cut_at, lemma_ends_cleanly, lemma_pieces_last, lemma_pieces_step, occurs,
        occurs_at, opt_view, parsed, trimmed, trimmed_end,
    },
};
use vstd::prelude::*;
#[allow(unused_imports)]
use vstd::utf8::{
    decode_utf8, encode_utf8, encode_utf8_decode_utf8, encode_utf8_valid_utf8, valid_utf8,
};

verus! {

/// When, where and with what a file was edited.
#[derive(Debug, PartialEq, Eq)]
pub struct AccessRecord {
    pub epoch: u64,
    pub stamp: String,
    pub path: String,
    pub editor: String,
}

/// The model of an access record.
#[verifier::ext_equal]
pub struct AccessView {
    pub epoch: u64,
    pub stamp: Seq<char>,
    pub path: Seq<char>,
    pub editor: Seq<char>,
}

impl View for AccessRecord {
    type V = AccessView;

    open spec fn view(&self) -> AccessView {
        AccessView {
            epoch: self.epoch,
            stamp: self.stamp@,
            path: self.path@,
            editor: self.editor@,
        }
    }
}

impl Clone for AccessRecord {
    fn clone(&self) -> (r: Self)
        ensures
            r@ == self@,
    {
        AccessRecord {
            epoch: self.epoch,
            stamp: self.stamp.clone(),
            path: self.path.clone(),
            editor: self.editor.clone(),
        }
    }
}

/// One revision of a file.
#[derive(Debug, PartialEq, Eq)]
pub struct Revision {
    pub key: String,
    pub leaf: String,
    pub number: u64,
    pub access: AccessRecord,
    pub backup: String,
    pub diff: Option<String>,
    pub tag: Option<String>,
    pub actor: String,
}

/// The model of a revision.
pub struct RevisionView {
    pub key: Seq<char>,
    pub leaf: Seq<char>,
    pub number: u64,
    pub access: AccessView,
    pub backup: Seq<char>,
    pub diff: Option<Seq<char>>,
    pub tag: Option<Seq<char>>,
    pub actor: Seq<char>,
}

impl View for Revision {
    type V = RevisionView;

    open spec fn view(&self) -> RevisionView {
        RevisionView {
            key: self.key@,
            leaf: self.leaf@,
            number: self.number,
            access: self.access@,
            backup: self.backup@,
            diff: opt_view(self.diff),
            tag: opt_view(self.tag),
            actor: self.actor@,
        }
    }
}

impl Clone for Revision {
    fn clone(&self) -> (r: Self)
        ensures
            r@ == self@,
    {
        Revision {
            key: self.key.clone(),
            leaf: self.leaf.clone(),
            number: self.number,
            access: self.access.clone(),
            backup: self.backup.clone(),
            diff: copy_opt(&self.diff),
            tag: copy_opt(&self.tag),
            actor: self.actor.clone(),
        }
    }
}

impl Replicate for Revision {
    fn replicate(&self) -> (r: Self) {
        self.clone()
    }
}

/// A link of the index to a record.
#[derive(Debug, PartialEq, Eq)]
pub struct IndexEntry {
    pub branch: String,
    pub leaf: String,
    pub revision: u64,
    pub kind: char,
    pub target: String,
}

/// The model of an index entry.
pub struct IndexView {
    pub branch: Seq<char>,
    pub leaf: Seq<char>,
    pub revision: u64,
    pub kind: char,
    pub target: Seq<char>,
}

impl View for IndexEntry {
    type V = IndexView;

    open spec fn view(&self) -> IndexView {
        IndexView {
            branch: self.branch@,
            leaf: self.leaf@,
            revision: self.revision,
            kind: self.kind,
            target: self.target@,
        }
    }
}

impl Clone for IndexEntry {
    fn clone(&self) -> (r: Self)
        ensures
            r@ == self@,
    {
        IndexEntry {
            branch: self.branch.clone(),
            leaf: self.leaf.clone(),
            revision: self.revision,
            kind: self.kind,
            target: self.target.clone(),
        }
    }
}

impl Replicate for IndexEntry {
    fn replicate(&self) -> (r: Self) {
        self.clone()
    }
}

/// A canonical repository, and the mirror that is written beside it.
pub struct Store {
    pub config: Config,
    pub mirror: Option<Config>,
}

/// What reading a file came to.
#[derive(Debug, PartialEq, Eq)]
pub enum FileRead {
    Bytes(Vec<u8>),
    Missing,
    Failed(Failure),
}

/// What looking for a file came to.
pub enum Presence {
    Present,
    Missing,
    Failed(Failure),
}

/// What was read for one name in the access directory.
pub struct RecordRead {
    pub name: String,
    pub access: Result<Vec<u8>, Failure>,
    pub has_backup: bool,
    pub tag: FileRead,
    pub actor: FileRead,
    pub diff: Presence,
}

/// One link in a branch of the index, with its target.
pub struct LinkRead {
    pub name: String,
    pub target: Result<String, Failure>,
}

/// What was read of one branch of the index.
pub struct BranchRead {
    pub branch: Result<Vec<u8>, Failure>,
    pub links: Result<Vec<LinkRead>, Failure>,
}

/// The bytes before the first line feed, NUL bytes read as tabs.
pub open spec fn access_line(content: Seq<u8>) -> Seq<u8> {
    let line = bytes_before(content, 0);
    Seq::new(line.len(), |i: int| if line[i] == 0 { 9u8 } else { line[i] })
}

/// The bytes from `from` on before the next line feed.
pub open spec fn bytes_before(content: Seq<u8>, from: int) -> Seq<u8>
    decreases content.len() - from,
{
    if from < 0 || from >= content.len() || content[from] == 10 {
        Seq::empty()
    } else {
        seq![content[from]] + bytes_before(content, from + 1)
    }
}

/// The access record that a text holds: epoch, stamp, path and editor with tabs between them.
pub open spec fn access_of_text(text: Seq<char>) -> Result<AccessView, FailureView> {
    let first = match cut_at(text, "\t"@) {
        Some((e, _)) => e,
        None => text,
    };
    match parsed(first, u64::MAX as nat) {
        None => Err(fails(FailureKind::InvalidData, "invalid access epoch"@)),
        Some(epoch) => match cut_at(text, "\t"@) {
            None => Err(fails(FailureKind::InvalidData, "missing access stamp"@)),
            Some((_, rest)) => match cut_at(rest, "\t"@) {
                None => Err(fails(FailureKind::InvalidData, "missing access path"@)),
                Some((stamp, rest)) => match cut_at(rest, "\t"@) {
                    None => Err(fails(FailureKind::InvalidData, "missing access editor"@)),
                    Some((path, editor)) => Ok(
                        AccessView { epoch: epoch as u64, stamp, path, editor },
                    ),
                },
            },
        },
    }
}

/// The access record that the bytes of a file hold.
pub open spec fn access_of_bytes(content: Seq<u8>) -> Result<AccessView, FailureView> {
    let line = access_line(content);
    if valid_utf8(line) {
        access_of_text(decode_utf8(line))
    } else {
        Err(fails(FailureKind::InvalidData, utf8_fault(line)))
    }
}

/// The model of a result with an access record.
pub open spec fn access_result(r: Result<AccessRecord, Failure>) -> Result<AccessView, FailureView> {
    match r {
        Ok(a) => Ok(a@),
        Err(f) => Err(f@),
    }
}

fn read_access_line(content: &Vec<u8>) -> (r: Vec<u8>)
    ensures
        r@ == access_line(content@),
{
    let mut out: Vec<u8> = Vec::new();
    let mut i: usize = 0;
    let ghost line = bytes_before(content@, 0);
    assert(line.take(0) + bytes_before(content@, 0) =~= line);
    while i < content.len() && content[i] != 10
        invariant
            i <= content.len(),
            line == bytes_before(content@, 0),
            i <= line.len(),
            line.take(i as int) + bytes_before(content@, i as int) == line,
            out@.len() == i,
            forall|j: int|
                0 <= j < i ==> (#[trigger] out@[j]) == (if line[j] == 0 {
                    9u8
                } else {
                    line[j]
                }),
        decreases content.len() - i,
    {
        let b: u8 = content[i];
        let ghost rest = bytes_before(content@, i as int);
        assert(rest == seq![b] + bytes_before(content@, i + 1));
        assert(line[i as int] == (line.take(i as int) + rest)[i as int]);
        assert(line[i as int] == b);
        assert(line.take(i + 1) =~= line.take(i as int).push(b));
        assert(line.take(i + 1) + bytes_before(content@, i + 1) =~= line.take(i as int) + rest);
        if b == 0 {
            out.push(9);
        } else {
            out.push(b);
        }
        i += 1;
    }
    assert(line.take(i as int) =~= line);
    assert(out@ =~= access_line(content@));
    out
}

fn bad_access(message: &str) -> (r: Result<AccessRecord, Failure>)
    ensures
        access_result(r) == Err::<AccessView, _>(fails(FailureKind::InvalidData, message@)),
{
    Err(Failure::new(FailureKind::InvalidData, message))
}

/// The access record that the bytes of a file hold.
pub fn parse_access_bytes(content: &Vec<u8>) -> (r: Result<AccessRecord, Failure>)
    ensures
        access_result(r) == access_of_bytes(content@),
{
    let line: Vec<u8> = read_access_line(content);
    let text: String = match decode(line) {
        Ok(text) => text,
        Err(message) => {
            return Err(Failure { kind: FailureKind::InvalidData, message });
        },
    };
    let cut: Option<(String, String)> = split_once(text.as_str(), "\t");
    let number: Option<u64> = match &cut {
        Some(p) => parse_bounded(p.0.as_str(), u64::MAX),
        None => parse_bounded(text.as_str(), u64::MAX),
    };
    let epoch: u64 = match number {
        Some(epoch) => epoch,
        None => {
            return bad_access("invalid access epoch");
        },
    };
    match cut {
        None => bad_access("missing access stamp"),
        Some((_, rest)) => match split_once(rest.as_str(), "\t") {
            None => bad_access("missing access path"),
            Some((stamp, rest)) => match split_once(rest.as_str(), "\t") {
                None => bad_access("missing access editor"),
                Some((path, editor)) => Ok(AccessRecord { epoch, stamp, path, editor }),
            },
        },
    }
}

/// What one name in the access directory comes to.
pub enum Assembled {
    Skipped,
    Refused(FailureView),
    Found(RevisionView),
}

/// The text of a small file without the line ends behind it.
pub open spec fn file_text(bytes: Seq<u8>) -> Result<Seq<char>, FailureView> {
    if valid_utf8(bytes) {
        Ok(trimmed_end(decode_utf8(bytes), CharClass::Newline))
    } else {
        Err(fails(FailureKind::InvalidData, utf8_fault(bytes)))
    }
}

/// The tag of a revision.
pub open spec fn tag_read(read: FileRead) -> Result<Option<Seq<char>>, FailureView> {
    match read {
        FileRead::Bytes(b) => match file_text(b@) {
            Ok(t) => Ok(Some(t)),
            Err(f) => Err(f),
        },
        FileRead::Missing => Ok(None),
        FileRead::Failed(f) => Err(f@),
    }
}

/// The actor of a revision: the owner of the history where none is recorded.
pub open spec fn actor_read(read: FileRead, owner: Seq<char>) -> Result<Seq<char>, FailureView> {
    match read {
        FileRead::Bytes(b) => file_text(b@),
        FileRead::Missing => Ok(owner),
        FileRead::Failed(f) => Err(f@),
    }
}

/// What was read for one name comes to: names that are no access records, and records whose
/// backup is gone, count for nothing; a record that cannot be read is a failure.
pub open spec fn assembled(config: ConfigView, read: RecordRead) -> Assembled {
    match record_of_name(read.name@, 'a') {
        None => Assembled::Skipped,
        Some((key, leaf, number)) => match read.access {
            Err(f) => Assembled::Refused(f@),
            Ok(bytes) => match access_of_bytes(bytes@) {
                Err(f) => Assembled::Refused(f),
                Ok(access) => if !read.has_backup {
                    Assembled::Skipped
                } else {
                    match (tag_read(read.tag), actor_read(read.actor, config.history_owner), read.diff) {
                        (Err(f), _, _) => Assembled::Refused(f),
                        (_, Err(f), _) => Assembled::Refused(f),
                        (_, _, Presence::Failed(f)) => Assembled::Refused(f@),
                        (Ok(tag), Ok(actor), diff) => Assembled::Found(
                            RevisionView {
                                key,
                                leaf,
                                number: number as u64,
                                access,
                                backup: joined_path(
                                    config.backups,
                                    name_of_record(key, leaf, number, 'b'),
                                ),
                                diff: if diff is Present {
                                    Some(
                                        joined_path(
                                            config.edits,
                                            name_of_record(key, leaf, number, 'd'),
                                        ),
                                    )
                                } else {
                                    None
                                },
                                tag,
                                actor,
                            },
                        ),
                    }
                },
            },
        },
    }
}

/// The revisions of the first `n` names, or the first failure among them.
pub open spec fn assembled_all(config: ConfigView, reads: Seq<RecordRead>, n: int) -> Result<
    Seq<RevisionView>,
    FailureView,
>
    decreases n,
{
    if n <= 0 {
        Ok(Seq::empty())
    } else {
        match assembled_all(config, reads, n - 1) {
            Err(f) => Err(f),
            Ok(before) => match assembled(config, reads[n - 1]) {
                Assembled::Skipped => Ok(before),
                Assembled::Refused(f) => Err(f),
                Assembled::Found(revision) => Ok(before.push(revision)),
            },
        }
    }
}

/// Revisions are ordered by path, then by number.
pub open spec fn revision_key(r: RevisionView) -> Seq<u64> {
    path_key(r.access.path).push(r.number)
}

/// The keys of revisions.
pub open spec fn revision_keys(rs: Seq<RevisionView>) -> Seq<Seq<u64>> {
    Seq::new(rs.len(), |i: int| revision_key(rs[i]))
}

/// Revisions in order.
pub open spec fn sorted_revisions(rs: Seq<RevisionView>) -> Seq<RevisionView> {
    sorted_by_key(rs, revision_keys(rs))
}

/// The model of a result with revisions.
pub open spec fn revisions_result(r: Result<Vec<Revision>, Failure>) -> Result<
    Seq<RevisionView>,
    FailureView,
> {
    match r {
        Ok(v) => Ok(all_views(v@)),
        Err(f) => Err(f@),
    }
}

/// The revisions that a repository holds, in order, or the first failure.
pub open spec fn revisions_of(config: ConfigView, reads: Seq<RecordRead>) -> Result<
    Seq<RevisionView>,
    FailureView,
> {
    match assembled_all(config, reads, reads.len() as int) {
        Ok(rs) => Ok(sorted_revisions(rs)),
        Err(f) => Err(f),
    }
}

/// Whether a revision is listed no later than another: by path, then by number.
pub open spec fn listed_before(a: RevisionView, b: RevisionView) -> bool {
    path_less(a.access.path, b.access.path) || (same_path_text(a.access.path, b.access.path)
        && a.number <= b.number)
}

proof fn lemma_revision_keys(a: RevisionView, b: RevisionView)
    requires
        key_at_most(revision_key(a), revision_key(b)),
    ensures
        listed_before(a, b),
{
    let (p, q) = (path_key(a.access.path), path_key(b.access.path));
    let (x, y) = (seq![a.number], seq![b.number]);
    assert(revision_key(a) =~= p + x);
    assert(revision_key(b) =~= q + y);
    if key_begins(p, q) {
        law_path_keys_are_separate(a.access.path, b.access.path);
    }
    if key_begins(q, p) {
        law_path_keys_are_separate(b.access.path, a.access.path);
    }
    lemma_joined_keys(p, q, x, y);
    law_path_keys_order_paths(a.access.path, b.access.path);
    law_path_keys_are_faithful(a.access.path, b.access.path);
    if p == q {
        if key_less(x, y) {
            let k = choose|k: int| smaller_at(x, y, k);
            assert(k == 0);
        }
        assert(x == y ==> x[0] == y[0]);
        assert(x[0] <= y[0]);
    }
}

/// The revisions of a repository are listed by path and then by number, each that was read once.
pub proof fn law_revisions_are_ordered(rs: Seq<RevisionView>)
    ensures
        sorted_revisions(rs).to_multiset() == rs.to_multiset(),
        forall|i: int, j: int|
            0 <= i < j < sorted_revisions(rs).len() ==> listed_before(
                #[trigger] sorted_revisions(rs)[i],
                #[trigger] sorted_revisions(rs)[j],
            ),
{
    let keys = revision_keys(rs);
    law_sorting_keeps_items(rs, keys);
    law_stable_order(keys);
    let order = stable_order(keys);
    let sorted = sorted_revisions(rs);
    assert forall|i: int, j: int| 0 <= i < j < sorted.len() implies listed_before(
        #[trigger] sorted[i],
        #[trigger] sorted[j],
    ) by {
        assert(comes_before(keys, order[i], order[j]));
        lemma_revision_keys(rs[order[i]], rs[order[j]]);
    }
}

/// The revision, leaf and kind that the name of a link in a branch says.
pub open spec fn link_of_name(name: Seq<char>) -> Option<(Seq<char>, nat, char)> {
    let full = "index"@ + SEPARATOR@ + name;
    if name == ".branch"@ {
        None
    } else {
        match (record_of_name(full, 'a'), record_of_name(full, 'b'), record_of_name(full, 'd')) {
            (Some((_, leaf, revision)), _, _) => Some((leaf, revision, 'a')),
            (_, Some((_, leaf, revision)), _) => Some((leaf, revision, 'b')),
            (_, _, Some((_, leaf, revision))) => Some((leaf, revision, 'd')),
            _ => None,
        }
    }
}

/// The entries of the first `n` links of a branch, or the first failure among them.
pub open spec fn branch_entries(branch: Seq<char>, links: Seq<LinkRead>, n: int) -> Result<
    Seq<IndexView>,
    FailureView,
>
    decreases n,
{
    if n <= 0 {
        Ok(Seq::empty())
    } else {
        match branch_entries(branch, links, n - 1) {
            Err(f) => Err(f),
            Ok(before) => match link_of_name(links[n - 1].name@) {
                None => Ok(before),
                Some((leaf, revision, kind)) => match links[n - 1].target {
                    Err(f) => Err(f@),
                    Ok(target) => Ok(
                        before.push(
                            IndexView {
                                branch,
                                leaf,
                                revision: revision as u64,
                                kind,
                                target: target@,
                            },
                        ),
                    ),
                },
            },
        }
    }
}

/// The directory that a branch stands for.
pub open spec fn branch_directory(read: BranchRead) -> Result<Seq<char>, FailureView> {
    match read.branch {
        Err(f) => Err(f@),
        Ok(bytes) => if valid_utf8(bytes@) {
            Ok(trimmed(decode_utf8(bytes@)))
        } else {
            Err(fails(FailureKind::InvalidData, utf8_fault(bytes@)))
        },
    }
}

/// The entries of one branch.
pub open spec fn entries_of_branch(read: BranchRead) -> Result<Seq<IndexView>, FailureView> {
    match branch_directory(read) {
        Err(f) => Err(f),
        Ok(branch) => match read.links {
            Err(f) => Err(f@),
            Ok(links) => branch_entries(branch, links@, links@.len() as int),
        },
    }
}

/// The entries of the first `n` branches, or the first failure among them.
pub open spec fn index_all(reads: Seq<BranchRead>, n: int) -> Result<Seq<IndexView>, FailureView>
    decreases n,
{
    if n <= 0 {
        Ok(Seq::empty())
    } else {
        match index_all(reads, n - 1) {
            Err(f) => Err(f),
            Ok(before) => match entries_of_branch(reads[n - 1]) {
                Err(f) => Err(f),
                Ok(more) => Ok(before + more),
            },
        }
    }
}

/// Index entries are ordered by branch, file name, revision and kind.
pub open spec fn index_key(e: IndexView) -> Seq<u64> {
    (path_key(e.branch) + text_key(e.leaf)).push(e.revision) + text_key(seq![e.kind])
}

/// The keys of index entries.
pub open spec fn index_keys(es: Seq<IndexView>) -> Seq<Seq<u64>> {
    Seq::new(es.len(), |i: int| index_key(es[i]))
}

/// The index of a repository, in order, or the first failure.
pub open spec fn index_of(reads: Seq<BranchRead>) -> Result<Seq<IndexView>, FailureView> {
    match index_all(reads, reads.len() as int) {
        Ok(es) => Ok(sorted_by_key(es, index_keys(es))),
        Err(f) => Err(f),
    }
}

/// Whether an entry of the index is listed no later than another: by branch, then by file name,
/// revision and kind.
pub open spec fn indexed_before(a: IndexView, b: IndexView) -> bool {
    path_less(a.branch, b.branch) || (same_path_text(a.branch, b.branch) && (text_less(
        a.leaf,
        b.leaf,
    ) || (a.leaf == b.leaf && (a.revision < b.revision || (a.revision == b.revision && a.kind
        <= b.kind)))))
}

proof fn lemma_index_keys(a: IndexView, b: IndexView)
    requires
        key_at_most(index_key(a), index_key(b)),
    ensures
        indexed_before(a, b),
{
    let (p, q) = (path_key(a.branch), path_key(b.branch));
    let (x, y) = (text_key(a.leaf), text_key(b.leaf));
    let (m, n) = (seq![a.revision], seq![b.revision]);
    let (s, t) = (text_key(seq![a.kind]), text_key(seq![b.kind]));
    assert(index_key(a) =~= p + (x + (m + s)));
    assert(index_key(b) =~= q + (y + (n + t)));
    if key_begins(p, q) {
        law_path_keys_are_separate(a.branch, b.branch);
    }
    if key_begins(q, p) {
        law_path_keys_are_separate(b.branch, a.branch);
    }
    lemma_joined_keys(p, q, x + (m + s), y + (n + t));
    law_path_keys_order_paths(a.branch, b.branch);
    law_path_keys_are_faithful(a.branch, b.branch);
    if !key_less(p, q) {
        if key_begins(x, y) {
            law_text_keys_are_separate(a.leaf, b.leaf);
        }
        if key_begins(y, x) {
            law_text_keys_are_separate(b.leaf, a.leaf);
        }
        lemma_joined_keys(x, y, m + s, n + t);
        law_text_keys_are_faithful(a.leaf, b.leaf);
        if !key_less(x, y) {
            assert(m.subrange(0, 1) =~= m && n.subrange(0, 1) =~= n);
            lemma_joined_keys(m, n, s, t);
            if key_less(m, n) {
                let k = choose|k: int| smaller_at(m, n, k);
                assert(k == 0);
                assert(m[0] < n[0]);
            } else {
                assert(m[0] == n[0]);
                if key_less(s, t) {
                    let k = choose|k: int| smaller_at(s, t, k);
                    lemma_letter(a.kind, b.kind);
                    assert(k == 0);
                    assert(s[0] == letter(a.kind) && t[0] == letter(b.kind));
                } else {
                    law_text_keys_are_faithful(seq![a.kind], seq![b.kind]);
                    assert(seq![a.kind][0] == seq![b.kind][0]);
                }
            }
        }
    }
}

/// Whether an entry of the index is of a known kind.
pub open spec fn has_kind(e: IndexView) -> bool {
    e.kind == 'a' || e.kind == 'b' || e.kind == 'd'
}

proof fn lemma_branch_kinds(branch: Seq<char>, links: Seq<LinkRead>, n: int)
    requires
        0 <= n <= links.len(),
    ensures
        branch_entries(branch, links, n) matches Ok(es) ==> forall|i: int|
            0 <= i < es.len() ==> has_kind(#[trigger] es[i]),
    decreases n,
{
    if n > 0 {
        lemma_branch_kinds(branch, links, n - 1);
    }
}

proof fn lemma_index_kinds(reads: Seq<BranchRead>, n: int)
    requires
        0 <= n <= reads.len(),
    ensures
        index_all(reads, n) matches Ok(es) ==> forall|i: int|
            0 <= i < es.len() ==> has_kind(#[trigger] es[i]),
    decreases n,
{
    if n > 0 {
        lemma_index_kinds(reads, n - 1);
        match (branch_directory(reads[n - 1]), reads[n - 1].links) {
            (Ok(branch), Ok(links)) => {
                lemma_branch_kinds(branch, links@, links@.len() as int);
            },
            _ => {},
        }
    }
}

/// The index of a repository holds the entries of every branch, each as often as it was read, by
/// branch, file name, revision and kind; where there are no branches it is empty.
pub proof fn law_index_is_ordered(reads: Seq<BranchRead>)
    requires
        index_of(reads) is Ok,
    ensures
        index_all(reads, reads.len() as int) matches Ok(es) && index_of(
            reads,
        )->Ok_0.to_multiset() == es.to_multiset(),
        reads.len() == 0 ==> index_of(reads)->Ok_0.len() == 0,
        forall|i: int|
            0 <= i < index_of(reads)->Ok_0.len() ==> has_kind(#[trigger] index_of(reads)->Ok_0[i]),
        forall|i: int, j: int|
            0 <= i < j < index_of(reads)->Ok_0.len() ==> indexed_before(
                #[trigger] index_of(reads)->Ok_0[i],
                #[trigger] index_of(reads)->Ok_0[j],
            ),
{
    let es = index_all(reads, reads.len() as int)->Ok_0;
    let keys = index_keys(es);
    law_sorting_keeps_items(es, keys);
    law_stable_order(keys);
    let order = stable_order(keys);
    let sorted = index_of(reads)->Ok_0;
    lemma_index_kinds(reads, reads.len() as int);
    assert forall|i: int| 0 <= i < sorted.len() implies has_kind(#[trigger] sorted[i]) by {
        assert(sorted[i] == es[order[i]]);
    }
    assert forall|i: int, j: int| 0 <= i < j < sorted.len() implies indexed_before(
        #[trigger] sorted[i],
        #[trigger] sorted[j],
    ) by {
        assert(comes_before(keys, order[i], order[j]));
        lemma_index_keys(es[order[i]], es[order[j]]);
    }
}

/// The model of a result with index entries.
pub open spec fn index_result(r: Result<Vec<IndexEntry>, Failure>) -> Result<
    Seq<IndexView>,
    FailureView,
> {
    match r {
        Ok(v) => Ok(all_views(v@)),
        Err(f) => Err(f@),
    }
}

/// The name of a record directory below the root, where it is a direct child of it.
pub open spec fn child_of_root(root: Seq<char>, child: Seq<char>) -> Result<Seq<char>, FailureView> {
    let c = components(child);
    let k = components(root).len();
    if !is_within(child, root) {
        Err(
            fails(FailureKind::InvalidInput, "repository child escapes trusted root: "@ + child),
        )
    } else if c.len() == k {
        Err(fails(FailureKind::InvalidInput, "invalid repository child"@))
    } else if c.len() > k + 1 {
        Err(
            fails(
                FailureKind::InvalidInput,
                "repository record directories must be direct children of the trusted root"@,
            ),
        )
    } else {
        Ok(c[k as int])
    }
}

/// The name of a record directory below the root.
pub fn child_name(root: &str, child: &str) -> (r: Result<String, Failure>)
    ensures
        match r {
            Ok(name) => child_of_root(root@, child@) == Ok::<_, FailureView>(name@),
            Err(f) => child_of_root(root@, child@) == Err::<Seq<char>, _>(f@),
        },
{
    if !starts_with_path(child, root) {
        let mut message: String = "repository child escapes trusted root: ".to_owned();
        message.append(child);
        return Err(Failure { kind: FailureKind::InvalidInput, message });
    }
    let c: Vec<String> = components_of(child);
    let base: Vec<String> = components_of(root);
    let k: usize = base.len();
    assert(components(root@).len() == k);
    assert(components(child@).len() == c@.len());
    if c.len() == k {
        return Err(Failure::new(FailureKind::InvalidInput, "invalid repository child"));
    }
    if c.len() - k > 1 {
        return Err(
            Failure::new(
                FailureKind::InvalidInput,
                "repository record directories must be direct children of the trusted root",
            ),
        );
    }
    assert(components(child@)[k as int] == c@[k as int]@);
    Ok(c[k].clone())
}

fn read_file_text(bytes: &Vec<u8>) -> (r: Result<String, Failure>)
    ensures
        match r {
            Ok(t) => file_text(bytes@) == Ok::<_, FailureView>(t@),
            Err(f) => file_text(bytes@) == Err::<Seq<char>, _>(f@),
        },
{
    let copy: Vec<u8> = crate::encoding::copy_bytes(bytes);
    match decode(copy) {
        Ok(text) => Ok(trim_end(text.as_str(), CharClass::Newline)),
        Err(message) => Err(Failure { kind: FailureKind::InvalidData, message }),
    }
}

/// The names of the files of a revision beside its access record.
#[derive(Debug, PartialEq, Eq)]
pub struct RecordFiles {
    pub backup: String,
    pub diff: String,
    pub tag: String,
    pub actor: String,
}

/// The names of the files that belong to an access record; none for another name.
pub fn record_files(name: &str) -> (r: Option<RecordFiles>)
    ensures
        match record_of_name(name@, 'a') {
            Some((key, leaf, number)) => r matches Some(files) && files.backup@ == name_of_record(
                key,
                leaf,
                number,
                'b',
            ) && files.diff@ == name_of_record(key, leaf, number, 'd') && files.tag@
                == name_of_record(key, leaf, number, 't') && files.actor@ == name_of_record(
                key,
                leaf,
                number,
                'u',
            ),
            None => r is None,
        },
{
    match parse_record_name(name, 'a') {
        Some((key, leaf, number)) => Some(
            RecordFiles {
                backup: record_name(key.as_str(), leaf.as_str(), number, 'b'),
                diff: record_name(key.as_str(), leaf.as_str(), number, 'd'),
                tag: record_name(key.as_str(), leaf.as_str(), number, 't'),
                actor: record_name(key.as_str(), leaf.as_str(), number, 'u'),
            },
        ),
        None => None,
    }
}

/// The name of a link in a branch, read as an index entry.
pub fn parse_link_name(name: &str) -> (r: Option<(String, u64, char)>)
    ensures
        match r {
            Some(p) => link_of_name(name@) == Some((p.0@, p.1 as nat, p.2)),
            None => link_of_name(name@) is None,
        },
{
    if crate::text::same(name, ".branch") {
        return None;
    }
    let mut full: String = "index".to_owned();
    full.append(SEPARATOR);
    full.append(name);
    match parse_record_name(full.as_str(), 'a') {
        Some((_, leaf, revision)) => Some((leaf, revision, 'a')),
        None => match parse_record_name(full.as_str(), 'b') {
            Some((_, leaf, revision)) => Some((leaf, revision, 'b')),
            None => match parse_record_name(full.as_str(), 'd') {
                Some((_, leaf, revision)) => Some((leaf, revision, 'd')),
                None => None,
            },
        },
    }
}

/// What one name came to, as a value.
pub enum Assembly {
    Skipped,
    Refused(Failure),
    Found(Revision),
}

/// The model of an assembly.
pub open spec fn assembly_view(a: Assembly) -> Assembled {
    match a {
        Assembly::Skipped => Assembled::Skipped,
        Assembly::Refused(f) => Assembled::Refused(f@),
        Assembly::Found(r) => Assembled::Found(r@),
    }
}

fn assemble(config: &Config, read: &RecordRead) -> (r: Assembly)
    ensures
        assembly_view(r) == assembled(config@, *read),
{
    let (key, leaf, number): (String, String, u64) = match parse_record_name(
        read.name.as_str(),
        'a',
    ) {
        Some(p) => p,
        None => {
            return Assembly::Skipped;
        },
    };
    let access: AccessRecord = match &read.access {
        Err(f) => {
            return Assembly::Refused(f.clone());
        },
        Ok(bytes) => match parse_access_bytes(bytes) {
            Err(f) => {
                return Assembly::Refused(f);
            },
            Ok(access) => access,
        },
    };
    if !read.has_backup {
        return Assembly::Skipped;
    }
    let tag: Option<String> = match &read.tag {
        FileRead::Bytes(b) => match read_file_text(b) {
            Ok(t) => Some(t),
            Err(f) => {
                return Assembly::Refused(f);
            },
        },
        FileRead::Missing => None,
        FileRead::Failed(f) => {
            return Assembly::Refused(f.clone());
        },
    };
    let actor: String = match &read.actor {
        FileRead::Bytes(b) => match read_file_text(b) {
            Ok(t) => t,
            Err(f) => {
                return Assembly::Refused(f);
            },
        },
        FileRead::Missing => config.history_owner.clone(),
        FileRead::Failed(f) => {
            return Assembly::Refused(f.clone());
        },
    };
    let diff: Option<String> = match &read.diff {
        Presence::Present => Some(
            record_path(config.edits.as_str(), key.as_str(), leaf.as_str(), number, 'd'),
        ),
        Presence::Missing => None,
        Presence::Failed(f) => {
            return Assembly::Refused(f.clone());
        },
    };
    let backup: String = record_path(
        config.backups.as_str(),
        key.as_str(),
        leaf.as_str(),
        number,
        'b',
    );
    Assembly::Found(Revision { key, leaf, number, access, backup, diff, tag, actor })
}

/// Revisions in order.
pub fn sort_revisions(list: &Vec<Revision>) -> (r: Vec<Revision>)
    ensures
        all_views(r@) == sorted_revisions(all_views(list@)),
{
    let mut keys: Vec<Vec<u64>> = Vec::new();
    let mut i: usize = 0;
    while i < list.len()
        invariant
            i <= list.len(),
            keys@.len() == i,
            forall|j: int| 0 <= j < i ==> (#[trigger] keys@[j])@ == revision_key(list@[j]@),
        decreases list.len() - i,
    {
        let mut key: Vec<u64> = Vec::new();
        push_path_key(&mut key, list[i].access.path.as_str());
        push_number_key(&mut key, list[i].number);
        assert(key@ =~= revision_key(list@[i as int]@));
        keys.push(key);
        i += 1;
    }
    let order: Vec<usize> = sort_order(&keys);
    assert(key_views(keys@) =~= revision_keys(all_views(list@)));
    arrange(list, &order)
}

fn sort_index(list: &Vec<IndexEntry>) -> (r: Vec<IndexEntry>)
    ensures
        all_views(r@) == sorted_by_key(all_views(list@), index_keys(all_views(list@))),
{
    let mut keys: Vec<Vec<u64>> = Vec::new();
    let mut i: usize = 0;
    while i < list.len()
        invariant
            i <= list.len(),
            keys@.len() == i,
            forall|j: int| 0 <= j < i ==> (#[trigger] keys@[j])@ == index_key(list@[j]@),
        decreases list.len() - i,
    {
        let mut key: Vec<u64> = Vec::new();
        push_path_key(&mut key, list[i].branch.as_str());
        push_text_key(&mut key, list[i].leaf.as_str());
        push_number_key(&mut key, list[i].revision);
        let mut kind: String = String::new();
        kind.push(list[i].kind);
        assert(kind@ =~= seq![list@[i as int].kind]);
        push_text_key(&mut key, kind.as_str());
        assert(key@ =~= index_key(list@[i as int]@));
        keys.push(key);
        i += 1;
    }
    let order: Vec<usize> = sort_order(&keys);
    assert(key_views(keys@) =~= index_keys(all_views(list@)));
    arrange(list, &order)
}

/// What to read to render a revision.
pub enum RenderPlan {
    /// The backup is the content.
    Backup(String),
    /// The content is the backup with the diff applied.
    Patched(String, String),
}

impl Store {
    pub fn new(config: Config) -> (r: Self)
        ensures
            r.config@ == config@,
            r.mirror is None,
    {
        Store { config, mirror: None }
    }

    pub fn with_mirror(config: Config, mirror: Config) -> (r: Self)
        ensures
            r.config@ == config@,
            opt_config(r.mirror) == Some(mirror@),
    {
        Store { config, mirror: Some(mirror) }
    }

    /// The canonical repository.
    pub fn config(&self) -> (r: &Config)
        ensures
            *r == self.config,
    {
        &self.config
    }

    /// The mirror, where there is one.
    pub fn mirror_config(&self) -> (r: Option<&Config>)
        ensures
            match r {
                Some(c) => self.mirror == Some(*c),
                None => self.mirror is None,
            },
    {
        match &self.mirror {
            Some(c) => Some(c),
            None => None,
        }
    }

    /// The revisions of the canonical repository, by path and number, from what was read for each
    /// name in its access directory.
    pub fn revisions(&self, reads: &Vec<RecordRead>) -> (r: Result<Vec<Revision>, Failure>)
        ensures
            revisions_result(r) == revisions_of(self.config@, reads@),
    {
        let mut out: Vec<Revision> = Vec::new();
        let mut i: usize = 0;
        assert(all_views(out@) =~= Seq::empty());
        while i < reads.len()
            invariant
                i <= reads.len(),
                assembled_all(self.config@, reads@, i as int) == Ok::<_, FailureView>(
                    all_views(out@),
                ),
            decreases reads.len() - i,
        {
            let ghost before = out@;
            match assemble(&self.config, &reads[i]) {
                Assembly::Skipped => {},
                Assembly::Refused(f) => {
                    proof {
                        lemma_assembled_failure(self.config@, reads@, i + 1, reads@.len() as int);
                    }
                    return Err(f);
                },
                Assembly::Found(revision) => {
                    out.push(revision);
                    assert(all_views(out@) =~= all_views(before).push(revision@));
                },
            }
            i += 1;
        }
        Ok(sort_revisions(&out))
    }

    /// The index of the canonical repository, from what was read of each of its branches.
    pub fn index_entries(&self, reads: &Vec<BranchRead>) -> (r: Result<Vec<IndexEntry>, Failure>)
        ensures
            index_result(r) == index_of(reads@),
    {
        let mut out: Vec<IndexEntry> = Vec::new();
        let mut i: usize = 0;
        assert(all_views(out@) =~= Seq::empty());
        while i < reads.len()
            invariant
                i <= reads.len(),
                index_all(reads@, i as int) == Ok::<_, FailureView>(all_views(out@)),
            decreases reads.len() - i,
        {
            let ghost before = out@;
            match read_branch(&reads[i]) {
                Err(f) => {
                    proof {
                        lemma_index_failure(reads@, i + 1, reads@.len() as int);
                    }
                    return Err(f);
                },
                Ok(mut more) => {
                    let ghost added = more@;
                    out.append(&mut more);
                    assert(all_views(out@) =~= all_views(before) + all_views(added));
                },
            }
            i += 1;
        }
        Ok(sort_index(&out))
    }

    /// What to read to render a revision.
    pub fn render(&self, revision: &Revision) -> (r: RenderPlan)
        ensures
            r == match revision.diff {
                None => RenderPlan::Backup(r->Backup_0),
                Some(_) => RenderPlan::Patched(r->Patched_0, r->Patched_1),
            },
            r matches RenderPlan::Backup(b) ==> b@ == name_of_record(
                revision.key@,
                revision.leaf@,
                revision.number as nat,
                'b',
            ),
            r matches RenderPlan::Patched(b, d) ==> b@ == name_of_record(
                revision.key@,
                revision.leaf@,
                revision.number as nat,
                'b',
            ) && d@ == name_of_record(
                revision.key@,
                revision.leaf@,
                revision.number as nat,
                'd',
            ),
    {
        let backup: String = self.backup(revision);
        match &revision.diff {
            None => RenderPlan::Backup(backup),
            Some(_) => RenderPlan::Patched(
                backup,
                record_name(revision.key.as_str(), revision.leaf.as_str(), revision.number, 'd'),
            ),
        }
    }

    /// The name of the backup of a revision.
    pub fn backup(&self, revision: &Revision) -> (r: String)
        ensures
            r@ == name_of_record(
                revision.key@,
                revision.leaf@,
                revision.number as nat,
                'b',
            ),
    {
        record_name(revision.key.as_str(), revision.leaf.as_str(), revision.number, 'b')
    }
}

/// What a run of `patch` gives: the output it wrote, where it was read and the run succeeded.
pub fn patch_result(
    succeeded: bool,
    status: &str,
    output: Result<Vec<u8>, Failure>,
) -> (r: Result<Vec<u8>, Failure>)
    ensures
        if succeeded {
            r == output
        } else {
            r matches Err(f) && f@ == fails(
                FailureKind::Other,
                "patch exited with "@ + status@,
            )
        },
{
    if succeeded {
        output
    } else {
        let mut message: String = "patch exited with ".to_owned();
        message.append(status);
        Err(Failure { kind: FailureKind::Other, message })
    }
}

fn read_branch(read: &BranchRead) -> (r: Result<Vec<IndexEntry>, Failure>)
    ensures
        index_result(r) == entries_of_branch(*read),
{
    let branch: String = match &read.branch {
        Err(f) => {
            return Err(f.clone());
        },
        Ok(bytes) => match decode(crate::encoding::copy_bytes(bytes)) {
            Ok(text) => trim(text.as_str()),
            Err(message) => {
                return Err(Failure { kind: FailureKind::InvalidData, message });
            },
        },
    };
    let links: &Vec<LinkRead> = match &read.links {
        Err(f) => {
            return Err(f.clone());
        },
        Ok(links) => links,
    };
    let mut out: Vec<IndexEntry> = Vec::new();
    let mut i: usize = 0;
    assert(all_views(out@) =~= Seq::empty());
    while i < links.len()
        invariant
            i <= links.len(),
            entries_of_branch(*read) == branch_entries(branch@, links@, links@.len() as int),
            branch_entries(branch@, links@, i as int) == Ok::<_, FailureView>(all_views(out@)),
        decreases links.len() - i,
    {
        let ghost before = out@;
        match parse_link_name(links[i].name.as_str()) {
            None => {},
            Some((leaf, revision, kind)) => match &links[i].target {
                Err(f) => {
                    proof {
                        lemma_branch_failure(branch@, links@, i + 1, links@.len() as int);
                    }
                    return Err(f.clone());
                },
                Ok(target) => {
                    let entry: IndexEntry = IndexEntry {
                        branch: branch.clone(),
                        leaf,
                        revision,
                        kind,
                        target: target.clone(),
                    };
                    out.push(entry);
                    assert(all_views(out@) =~= all_views(before).push(entry@));
                },
            },
        }
        i += 1;
    }
    Ok(out)
}

proof fn lemma_assembled_failure(config: ConfigView, reads: Seq<RecordRead>, n: int, m: int)
    requires
        0 <= n <= m,
        assembled_all(config, reads, n) is Err,
    ensures
        assembled_all(config, reads, m) == assembled_all(config, reads, n),
    decreases m - n,
{
    if n < m {
        lemma_assembled_failure(config, reads, n, m - 1);
    }
}

proof fn lemma_index_failure(reads: Seq<BranchRead>, n: int, m: int)
    requires
        0 <= n <= m,
        index_all(reads, n) is Err,
    ensures
        index_all(reads, m) == index_all(reads, n),
    decreases m - n,
{
    if n < m {
        lemma_index_failure(reads, n, m - 1);
    }
}

proof fn lemma_branch_failure(branch: Seq<char>, links: Seq<LinkRead>, n: int, m: int)
    requires
        0 <= n <= m,
        branch_entries(branch, links, n) is Err,
    ensures
        branch_entries(branch, links, m) == branch_entries(branch, links, n),
    decreases m - n,
{
    if n < m {
        lemma_branch_failure(branch, links, n, m - 1);
    }
}

proof fn lemma_bytes_before(content: Seq<u8>, from: int)
    requires
        0 <= from <= content.len(),
    ensures
        ({
            let line = bytes_before(content, from);
            &&& from + line.len() <= content.len()
            &&& line == content.subrange(from, from + line.len())
            &&& from + line.len() < content.len() ==> content[from + line.len()] == 10
            &&& forall|i: int| 0 <= i < line.len() ==> #[trigger] line[i] != 10
        }),
    decreases content.len() - from,
{
    if from < content.len() && content[from] != 10 {
        lemma_bytes_before(content, from + 1);
        let rest = bytes_before(content, from + 1);
        let line = bytes_before(content, from);
        assert(line == seq![content[from]] + rest);
        assert(line =~= content.subrange(from, from + line.len()));
        assert forall|i: int| 0 <= i < line.len() implies #[trigger] line[i] != 10 by {
            if i > 0 {
                assert(line[i] == rest[i - 1]);
            }
        }
    }
}

/// The record of an access is the first line of its file. A zero byte in it counts as a tab, and
/// what stands behind the line counts for nothing.
pub proof fn law_access_record_is_the_first_line(line: Seq<u8>, rest: Seq<u8>)
    requires
        forall|i: int| 0 <= i < line.len() ==> #[trigger] line[i] != 10,
    ensures
        access_line(line + seq![10u8] + rest).len() == line.len(),
        access_line(line).len() == line.len(),
        forall|i: int|
            0 <= i < line.len() ==> #[trigger] access_line(line + seq![10u8] + rest)[i] == if line[i]
                == 0 {
                9u8
            } else {
                line[i]
            },
        access_line(line + seq![10u8] + rest) == access_line(line),
        access_of_bytes(line + seq![10u8] + rest) == access_of_bytes(line),
{
    let whole = line + seq![10u8] + rest;
    lemma_bytes_before(whole, 0);
    lemma_bytes_before(line, 0);
    let n = bytes_before(whole, 0).len() as int;
    let m = bytes_before(line, 0).len() as int;
    assert(whole[line.len() as int] == 10);
    if n > line.len() {
        assert(bytes_before(whole, 0)[line.len() as int] == 10);
    }
    if n < line.len() {
        assert(whole[n] == line[n]);
    }
    if m < line.len() {
        assert(line[m] == 10);
    }
    assert(bytes_before(whole, 0) =~= line);
    assert(bytes_before(line, 0) =~= line);
}

spec fn no_tab(s: Seq<char>) -> bool {
    forall|i: int| 0 <= i < s.len() ==> #[trigger] s[i] != '\t'
}

proof fn lemma_cut_at_tab(a: Seq<char>, rest: Seq<char>)
    requires
        no_tab(a),
    ensures
        cut_at(a + "\t"@ + rest, "\t"@) == Some((a, rest)),
        cut_at(a, "\t"@) is None,
{
    reveal_strlit("\t");
    lemma_ends_cleanly(a, "\t"@);
    lemma_pieces_step(a, "\t"@, rest);
    assert(!occurs(a, "\t"@)) by {
        if occurs(a, "\t"@) {
            let i = choose|i: int| occurs_at(a, "\t"@, i);
            assert(a.subrange(i, i + 1)[0] == '\t');
        }
    }
    lemma_pieces_last(a, "\t"@);
}

/// The record of an access is four fields with tabs between them: the time as a number, the time as
/// text, the path, and the editor, which may hold tabs. A record with fewer fields, or with a time
/// that is no number, is refused, and the refusal names the first field that is wrong.
pub proof fn law_access_record_has_four_fields(
    epoch: Seq<char>,
    stamp: Seq<char>,
    path: Seq<char>,
    editor: Seq<char>,
)
    requires
        forall|i: int| 0 <= i < epoch.len() ==> #[trigger] epoch[i] != '\t',
        forall|i: int| 0 <= i < stamp.len() ==> #[trigger] stamp[i] != '\t',
        forall|i: int| 0 <= i < path.len() ==> #[trigger] path[i] != '\t',
    ensures
        ({
            let two = epoch + "\t"@ + stamp;
            let three = epoch + "\t"@ + (stamp + "\t"@ + path);
            let four = epoch + "\t"@ + (stamp + "\t"@ + (path + "\t"@ + editor));
            match parsed(epoch, u64::MAX as nat) {
                None => {
                    let refused = Err::<AccessView, FailureView>(
                        fails(FailureKind::InvalidData, "invalid access epoch"@),
                    );
                    access_of_text(epoch) == refused && access_of_text(two) == refused
                        && access_of_text(three) == refused && access_of_text(four) == refused
                },
                Some(n) => {
                    &&& access_of_text(epoch) == Err::<AccessView, FailureView>(
                        fails(FailureKind::InvalidData, "missing access stamp"@),
                    )
                    &&& access_of_text(two) == Err::<AccessView, FailureView>(
                        fails(FailureKind::InvalidData, "missing access path"@),
                    )
                    &&& access_of_text(three) == Err::<AccessView, FailureView>(
                        fails(FailureKind::InvalidData, "missing access editor"@),
                    )
                    &&& access_of_text(four) matches Ok(a) && a.epoch == n && a.stamp == stamp
                        && a.path == path && a.editor == editor
                },
            }
        }),
{
    lemma_cut_at_tab(epoch, stamp);
    lemma_cut_at_tab(epoch, stamp + "\t"@ + path);
    lemma_cut_at_tab(epoch, stamp + "\t"@ + (path + "\t"@ + editor));
    lemma_cut_at_tab(stamp, path);
    lemma_cut_at_tab(stamp, path + "\t"@ + editor);
    lemma_cut_at_tab(path, editor);
}

/// Reading gives a revision for each record that there is one for, in the order of the records, and
/// leaves none out; it is refused exactly where a record is, with the refusal of the first such.
pub proof fn law_every_record_gives_its_revision(config: ConfigView, reads: Seq<RecordRead>, n: int)
    requires
        0 <= n <= reads.len(),
    ensures
        match assembled_all(config, reads, n) {
            Ok(rs) => {
                &&& forall|i: int|
                    0 <= i < n ==> !(assembled(config, #[trigger] reads[i]) is Refused)
                &&& rs == reads.take(n).filter(
                    |r: RecordRead| assembled(config, r) is Found,
                ).map(|i: int, r: RecordRead| assembled(config, r)->Found_0)
            },
            Err(f) => exists|i: int|
                0 <= i < n && assembled(config, #[trigger] reads[i]) == Assembled::Refused(f)
                    && forall|j: int|
                    0 <= j < i ==> !(assembled(config, #[trigger] reads[j]) is Refused),
        },
    decreases n,
{
    reveal(Seq::filter);
    let is_found = |r: RecordRead| assembled(config, r) is Found;
    let revision = |i: int, r: RecordRead| assembled(config, r)->Found_0;
    let kept = reads.take(n).filter(is_found);
    if n > 0 {
        law_every_record_gives_its_revision(config, reads, n - 1);
        assert(reads.take(n).drop_last() =~= reads.take(n - 1));
        assert(reads.take(n).last() == reads[n - 1]);
        let before = reads.take(n - 1).filter(is_found);
        if assembled(config, reads[n - 1]) is Found {
            assert(kept == before.push(reads[n - 1]));
            assert(kept.map(revision) =~= before.map(revision).push(
                assembled(config, reads[n - 1])->Found_0,
            ));
        }
    } else {
        assert(kept.len() == 0);
        assert(kept.map(revision) =~= Seq::<RevisionView>::empty());
    }
}

/// A record gives a revision where its name is that of an access record, its line can be read, and
/// its backup is there. The revision has the key, the file and the number of the name, the access,
/// the tag, and the actor of the record, or the owner of the history where there is none; and it has
/// a diff exactly where one is there.
pub proof fn law_revision_is_that_of_its_record(config: ConfigView, read: RecordRead)
    ensures
        assembled(config, read) matches Assembled::Found(r) ==> {
            &&& record_of_name(read.name@, 'a') matches Some((key, leaf, number)) && r.key == key
                && r.leaf == leaf && r.number == number as u64
            &&& read.has_backup && (read.access matches Ok(b) && access_of_bytes(b@) == Ok::<
                AccessView,
                FailureView,
            >(r.access))
            &&& r.tag is Some <==> read.tag is Bytes
            &&& read.actor is Missing ==> r.actor == config.history_owner
            &&& r.diff is Some <==> read.diff is Present
        },
        record_of_name(read.name@, 'a') is None ==> assembled(config, read) is Skipped,
        !read.has_backup ==> !(assembled(config, read) is Found),
        assembled(config, read) is Skipped ==> record_of_name(read.name@, 'a') is None
            || !read.has_backup,
{
}

/// The entry of a link in a branch.
pub open spec fn entry_of_link(branch: Seq<char>, link: LinkRead) -> IndexView {
    let (leaf, revision, kind) = link_of_name(link.name@)->Some_0;
    IndexView { branch, leaf, revision: revision as u64, kind, target: link.target->Ok_0@ }
}

/// A branch of the index has an entry for each of its links whose name is that of a record, with the
/// file, the number and the kind of the name and what the link leads to.
pub proof fn law_every_link_gives_its_entry(branch: Seq<char>, links: Seq<LinkRead>, n: int)
    requires
        0 <= n <= links.len(),
    ensures
        match branch_entries(branch, links, n) {
            Ok(es) => {
                &&& forall|i: int|
                    0 <= i < n && link_of_name((#[trigger] links[i]).name@) is Some
                        ==> links[i].target is Ok
                &&& es == links.take(n).filter(
                    |l: LinkRead| link_of_name(l.name@) is Some,
                ).map(|i: int, l: LinkRead| entry_of_link(branch, l))
            },
            Err(f) => exists|i: int|
                0 <= i < n && link_of_name((#[trigger] links[i]).name@) is Some && (
                links[i].target matches Err(e) && e@ == f),
        },
    decreases n,
{
    reveal(Seq::filter);
    let named = |l: LinkRead| link_of_name(l.name@) is Some;
    let entry = |i: int, l: LinkRead| entry_of_link(branch, l);
    let kept = links.take(n).filter(named);
    if n > 0 {
        law_every_link_gives_its_entry(branch, links, n - 1);
        assert(links.take(n).drop_last() =~= links.take(n - 1));
        assert(links.take(n).last() == links[n - 1]);
        let before = links.take(n - 1).filter(named);
        if named(links[n - 1]) {
            assert(kept == before.push(links[n - 1]));
            assert(kept.map(entry) =~= before.map(entry).push(
                entry_of_link(branch, links[n - 1]),
            ));
        }
    } else {
        assert(kept.len() == 0);
        assert(kept.map(entry) =~= Seq::<IndexView>::empty());
    }
}

/// The index holds the entries of every branch: each entry of a branch that was read is among them.
pub proof fn law_index_holds_every_branch(reads: Seq<BranchRead>, n: int, k: int)
    requires
        0 <= k < n <= reads.len(),
        index_all(reads, n) is Ok,
    ensures
        entries_of_branch(reads[k]) is Ok,
        forall|e: IndexView| #[trigger]
            entries_of_branch(reads[k])->Ok_0.contains(e) ==> index_all(reads, n)->Ok_0.contains(e),
        index_all(reads, n)->Ok_0.len() >= entries_of_branch(reads[k])->Ok_0.len(),
    decreases n,
{
    let before = index_all(reads, n - 1)->Ok_0;
    let more = entries_of_branch(reads[n - 1])->Ok_0;
    if k < n - 1 {
        law_index_holds_every_branch(reads, n - 1, k);
    }
    assert forall|e: IndexView| #[trigger]
        entries_of_branch(reads[k])->Ok_0.contains(e) implies index_all(
        reads,
        n,
    )->Ok_0.contains(e) by {
        if k < n - 1 {
            assert(before.contains(e));
            let i = choose|i: int| 0 <= i < before.len() && before[i] == e;
            assert((before + more)[i] == e);
        } else {
            let i = choose|i: int| 0 <= i < more.len() && more[i] == e;
            assert((before + more)[before.len() + i] == e);
        }
    }
}

/// A directory of records is a direct child of the root: its components are those of the root and
/// one name, which is the answer. Everything else is refused.
pub proof fn law_child_has_one_name_more(root: Seq<char>, child: Seq<char>)
    ensures
        child_of_root(root, child) is Ok <==> exists|name: Seq<char>|
            components(child) == #[trigger] components(root).push(name),
        child_of_root(root, child) matches Ok(name) ==> components(child) == components(root).push(
            name,
        ),
{
    let c = components(child);
    let b = components(root);
    let k = b.len() as int;
    if child_of_root(root, child) is Ok {
        assert(c =~= b.push(c[k]));
    }
    assert forall|name: Seq<char>| c == #[trigger] b.push(name) implies child_of_root(
        root,
        child,
    ) is Ok by {
        assert(c.subrange(0, k) =~= b);
    }
}

/// What is read is handed on whole: the record, the revisions and the entries, or the failure.
pub proof fn law_results_are_handed_on(
    a: AccessRecord,
    rs: Vec<Revision>,
    es: Vec<IndexEntry>,
    r: Revision,
    f: Failure,
)
    ensures
        access_result(Ok(a)) == Ok::<AccessView, FailureView>(a@),
        access_result(Err(f)) == Err::<AccessView, FailureView>(f@),
        revisions_result(Ok(rs)) == Ok::<Seq<RevisionView>, FailureView>(all_views(rs@)),
        revisions_result(Err(f)) == Err::<Seq<RevisionView>, FailureView>(f@),
        index_result(Ok(es)) == Ok::<Seq<IndexView>, FailureView>(all_views(es@)),
        index_result(Err(f)) == Err::<Seq<IndexView>, FailureView>(f@),
        assembly_view(Assembly::Found(r)) == Assembled::Found(r@),
        assembly_view(Assembly::Refused(f)) == Assembled::Refused(f@),
        assembly_view(Assembly::Skipped) is Skipped,
{
}

/// The text of a tag or an actor is what stands in its file, without the line ends behind it; a file
/// that is missing is no tag, and the owner as the actor.
pub proof fn law_text_of_a_file(text: Seq<char>, bytes: Vec<u8>, owner: Seq<char>, f: Failure)
    requires
        text.len() == 0 || (text.last() != '\n' && text.last() != '\r'),
        bytes@ == encode_utf8(text + "\n"@),
    ensures
        tag_read(FileRead::Bytes(bytes)) == Ok::<Option<Seq<char>>, FailureView>(Some(text)),
        actor_read(FileRead::Bytes(bytes), owner) == Ok::<Seq<char>, FailureView>(text),
        tag_read(FileRead::Missing) == Ok::<Option<Seq<char>>, FailureView>(None),
        actor_read(FileRead::Missing, owner) == Ok::<Seq<char>, FailureView>(owner),
        tag_read(FileRead::Failed(f)) == Err::<Option<Seq<char>>, FailureView>(f@),
        actor_read(FileRead::Failed(f), owner) == Err::<Seq<char>, FailureView>(f@),
{
    reveal_strlit("\n");
    reveal_with_fuel(trimmed_end, 2);
    let s = text + "\n"@;
    encode_utf8_valid_utf8(s);
    encode_utf8_decode_utf8(s);
    assert(s.last() == '\n');
    assert(s.drop_last() =~= text);
    assert(trimmed_end(text, CharClass::Newline) == text);
}

/// The directory of a branch is what stands in its file, without the spaces around it.
pub proof fn law_directory_of_a_branch(read: BranchRead, text: Seq<char>)
    requires
        read.branch matches Ok(bytes) && bytes@ == encode_utf8(text),
    ensures
        branch_directory(read) == Ok::<Seq<char>, FailureView>(trimmed(text)),
{
    encode_utf8_valid_utf8(text);
    encode_utf8_decode_utf8(text);
}

/// The model of an access record has all that is known of it.
pub proof fn law_model_of_an_access_record(x: AccessRecord)
    ensures
        x@.epoch == x.epoch,
        x@.stamp == x.stamp@,
        x@.path == x.path@,
        x@.editor == x.editor@,
{
}

/// The model of a revision has all that is known of it.
pub proof fn law_model_of_a_revision(x: Revision)
    ensures
        x@.key == x.key@,
        x@.leaf == x.leaf@,
        x@.number == x.number,
        x@.access == x.access@,
        x@.backup == x.backup@,
        x@.diff == opt_view(x.diff),
        x@.tag == opt_view(x.tag),
        x@.actor == x.actor@,
{
}

/// The model of an entry of the index has all that is known of it.
pub proof fn law_model_of_an_entry_of_the_index(x: IndexEntry)
    ensures
        x@.branch == x.branch@,
        x@.leaf == x.leaf@,
        x@.revision == x.revision,
        x@.kind == x.kind,
        x@.target == x.target@,
{
}

} // verus!
