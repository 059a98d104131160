//! The rules that keep file operations inside a trusted directory.

use crate::failure::{Failure, FailureKind};
use crate::mutation::names_component;
use crate::path::{components_of, is_absolute};
#[allow(unused_imports)]
use crate::{
    config::passes_or,
    failure::{fails, FailureView},
    mutation::is_component,
    path::{components, is_name, is_rooted},
    text::views,
};
use vstd::prelude::*;

verus! {

/// The kinds of file that a mode can tell.
#[derive(Clone, Copy, Debug, PartialEq, Eq, Structural)]
pub enum FileKind {
    Regular,
    Directory,
    Symlink,
    Fifo,
    Socket,
    CharacterDevice,
    BlockDevice,
    Unknown,
}

/// The kind of file that the type bits of a mode tell.
pub open spec fn kind_of_mode(mode: u32) -> FileKind {
    let bits = mode & 0o170000;
    if bits == 0o100000 {
        FileKind::Regular
    } else if bits == 0o040000 {
        FileKind::Directory
    } else if bits == 0o120000 {
        FileKind::Symlink
    } else if bits == 0o010000 {
        FileKind::Fifo
    } else if bits == 0o140000 {
        FileKind::Socket
    } else if bits == 0o020000 {
        FileKind::CharacterDevice
    } else if bits == 0o060000 {
        FileKind::BlockDevice
    } else {
        FileKind::Unknown
    }
}

/// Calls `rustix::fs::FileType::from_raw_mode`. Trusted: it tells the kind by the type bits of the
/// mode alone.
#[verifier::external_body]
fn raw_file_kind(mode: u32) -> (r: FileKind)
    ensures
        r == kind_of_mode(mode),
{
    match rustix::fs::FileType::from_raw_mode(mode as rustix::fs::RawMode) {
        rustix::fs::FileType::RegularFile => FileKind::Regular,
        rustix::fs::FileType::Directory => FileKind::Directory,
        rustix::fs::FileType::Symlink => FileKind::Symlink,
        rustix::fs::FileType::Fifo => FileKind::Fifo,
        rustix::fs::FileType::Socket => FileKind::Socket,
        rustix::fs::FileType::CharacterDevice => FileKind::CharacterDevice,
        rustix::fs::FileType::BlockDevice => FileKind::BlockDevice,
        rustix::fs::FileType::Unknown => FileKind::Unknown,
    }
}

/// The kind of file that a mode tells.
pub fn file_kind(mode: u32) -> (r: FileKind)
    ensures
        r == kind_of_mode(mode),
{
    raw_file_kind(mode)
}

/// What is wrong with a name that is to stand for one component of a path.
pub open spec fn component_name_fault(name: Seq<char>) -> Option<FailureView> {
    if is_component(name) {
        None
    } else {
        Some(fails(FailureKind::InvalidInput, "invalid path component"@))
    }
}

/// Whether a name can stand for one component of a path.
pub fn component(name: &str) -> (r: Result<(), Failure>)
    ensures
        passes_or(r, component_name_fault(name@)),
{
    if names_component(name) {
        Ok(())
    } else {
        Err(Failure::new(FailureKind::InvalidInput, "invalid path component"))
    }
}

/// How many components from `from` on are names.
pub open spec fn names_from(parts: Seq<Seq<char>>, from: int) -> int
    decreases parts.len() - from,
{
    if from < 0 || from >= parts.len() || !is_name(parts[from]) {
        0
    } else {
        1 + names_from(parts, from + 1)
    }
}

/// The directories to enter one after the other, and the failure that follows the last of them
/// where a component is no name.
#[derive(Debug, PartialEq, Eq)]
pub struct DirectoryWalk {
    pub names: Vec<String>,
    pub failure: Option<Failure>,
}

/// The walk over components from `from` on.
pub open spec fn is_walk(
    walk: DirectoryWalk,
    parts: Seq<Seq<char>>,
    from: int,
    complaint: Seq<char>,
) -> bool {
    let n = names_from(parts, from);
    &&& views(walk.names@) == parts.subrange(from, from + n)
    &&& if from + n == parts.len() {
        walk.failure is None
    } else {
        walk.failure matches Some(f) && f@ == fails(FailureKind::InvalidInput, complaint)
    }
}

proof fn lemma_names_from(parts: Seq<Seq<char>>, from: int)
    requires
        0 <= from <= parts.len(),
    ensures
        0 <= names_from(parts, from) <= parts.len() - from,
    decreases parts.len() - from,
{
    if from < parts.len() {
        lemma_names_from(parts, from + 1);
    }
}

fn walk_from(parts: &Vec<String>, from: usize, complaint: &str) -> (r: DirectoryWalk)
    requires
        from <= parts@.len(),
    ensures
        is_walk(r, views(parts@), from as int, complaint@),
{
    let ghost all = views(parts@);
    let mut names: Vec<String> = Vec::new();
    let mut i: usize = from;
    proof {
        reveal_strlit("/");
        reveal_strlit(".");
        reveal_strlit("..");
        assert("/"@ =~= seq!['/']);
        assert("."@ =~= seq!['.']);
        assert(".."@ =~= seq!['.', '.']);
        lemma_names_from(all, from as int);
    }
    while i < parts.len()
        invariant
            from <= i <= parts.len(),
            all == views(parts@),
            views(names@) == all.subrange(from as int, i as int),
            names_from(all, from as int) == i - from + names_from(all, i as int),
            "/"@ == seq!['/'],
            "."@ == seq!['.'],
            ".."@ == seq!['.', '.'],
        decreases parts.len() - i,
    {
        let part: &str = parts[i].as_str();
        assert(all[i as int] == part@);
        if crate::text::same(part, "/") || crate::text::same(part, ".") || crate::text::same(
            part,
            "..",
        ) {
            return DirectoryWalk {
                names,
                failure: Some(Failure::new(FailureKind::InvalidInput, complaint)),
            };
        }
        let ghost before = names@;
        names.push(parts[i].clone());
        assert(views(names@) =~= views(before).push(part@));
        assert(all.subrange(from as int, i + 1) =~= all.subrange(from as int, i as int).push(part@));
        i += 1;
    }
    assert(all.len() == parts@.len());
    DirectoryWalk { names, failure: None }
}

/// The directories from the root to an absolute path.
pub fn absolute_walk(path: &str) -> (r: Result<DirectoryWalk, Failure>)
    ensures
        match r {
            Ok(walk) => is_rooted(path@) && is_walk(
                walk,
                components(path@),
                1,
                "invalid absolute directory path"@,
            ),
            Err(f) => !is_rooted(path@) && f@ == fails(
                FailureKind::InvalidInput,
                "trusted root must be absolute"@,
            ),
        },
{
    if !is_absolute(path) {
        return Err(Failure::new(FailureKind::InvalidInput, "trusted root must be absolute"));
    }
    let parts: Vec<String> = components_of(path);
    assert(components(path@).len() == parts@.len());
    Ok(walk_from(&parts, 1, "invalid absolute directory path"))
}

/// The directories from a directory to a path below it.
pub fn relative_walk(path: &str) -> (r: DirectoryWalk)
    ensures
        is_walk(r, components(path@), 0, "invalid relative directory path"@),
{
    let parts: Vec<String> = components_of(path);
    walk_from(&parts, 0, "invalid relative directory path")
}

/// Whether an inode may be used: a regular file, with one link where that is asked for.
pub open spec fn is_plain(mode: u32, links: u64, require_single_link: bool) -> bool {
    kind_of_mode(mode) == FileKind::Regular && (require_single_link ==> links == 1)
}

/// Whether an inode that was opened may be used.
pub fn check_opened(mode: u32, links: u64, require_single_link: bool) -> (r: Result<(), Failure>)
    ensures
        passes_or(
            r,
            if is_plain(mode, links, require_single_link) {
                None
            } else {
                Some(
                    fails(
                        FailureKind::InvalidData,
                        "inode is not a single-link regular file"@,
                    ),
                )
            },
        ),
{
    if file_kind(mode) != FileKind::Regular || (require_single_link && links != 1) {
        return Err(
            Failure::new(FailureKind::InvalidData, "inode is not a single-link regular file"),
        );
    }
    Ok(())
}

/// Whether an inode that was created may be used.
pub fn check_created(mode: u32, links: u64) -> (r: Result<(), Failure>)
    ensures
        passes_or(
            r,
            if is_plain(mode, links, true) {
                None
            } else {
                Some(
                    fails(
                        FailureKind::InvalidData,
                        "created inode is not a single-link regular file"@,
                    ),
                )
            },
        ),
{
    if file_kind(mode) != FileKind::Regular || links != 1 {
        return Err(
            Failure::new(
                FailureKind::InvalidData,
                "created inode is not a single-link regular file",
            ),
        );
    }
    Ok(())
}

/// What is wrong with what stands at the destination of a replacement.
pub open spec fn destination_fault(found: Option<(u32, u64)>) -> Option<FailureView> {
    match found {
        Some((mode, links)) if !is_plain(mode, links, true) => Some(
            fails(
                FailureKind::InvalidData,
                "replacement destination is not a single-link regular file"@,
            ),
        ),
        _ => None,
    }
}

/// Whether what stands at the destination of a replacement may be replaced; nothing may.
pub fn check_replaceable(found: Option<(u32, u64)>) -> (r: Result<(), Failure>)
    ensures
        passes_or(r, destination_fault(found)),
{
    match found {
        Some((mode, links)) => {
            if file_kind(mode) != FileKind::Regular || links != 1 {
                return Err(
                    Failure::new(
                        FailureKind::InvalidData,
                        "replacement destination is not a single-link regular file",
                    ),
                );
            }
        },
        None => {},
    }
    Ok(())
}

/// How an entry of a directory is written.
#[derive(Clone, Copy, Debug, PartialEq, Eq, Structural)]
pub enum WriteWay {
    /// A file under a name that is free.
    New,
    /// A file in place of another.
    Replace,
    /// A symbolic link in place of whatever has the name.
    Link,
}

/// How far a write has come, and what it wants done.
#[derive(Clone, Copy, Debug, PartialEq, Eq, Structural)]
pub enum WriteStage {
    /// Look at what has the name.
    Inspect,
    /// Create the entry under its staging name.
    Create,
    /// Set the permissions of the file.
    Permit,
    /// Write the content.
    Write,
    /// Have the content reach the disk.
    Sync,
    /// Give the entry its name.
    Rename,
    /// Have the directory reach the disk.
    SyncDirectory,
    /// Remove what has the staging name.
    Discard,
    Done,
    Failed,
}

/// A write under way.
pub struct StagedWrite {
    pub way: WriteWay,
    pub stage: WriteStage,
    pub failure: Option<Failure>,
}

/// The model of a write.
pub struct WriteView {
    pub way: WriteWay,
    pub stage: WriteStage,
    pub failure: Option<FailureView>,
}

impl View for StagedWrite {
    type V = WriteView;

    open spec fn view(&self) -> WriteView {
        WriteView {
            way: self.way,
            stage: self.stage,
            failure: match self.failure {
                Some(f) => Some(f@),
                None => None,
            },
        }
    }
}

/// A write that has just begun: only what is to replace a file has to look at it first.
pub open spec fn write_start(way: WriteWay) -> WriteView {
    WriteView {
        way,
        stage: if way == WriteWay::Replace {
            WriteStage::Inspect
        } else {
            WriteStage::Create
        },
        failure: None,
    }
}

/// A write at another stage.
pub open spec fn write_at(w: WriteView, stage: WriteStage) -> WriteView {
    WriteView { stage, ..w }
}

/// A write that failed for a reason.
pub open spec fn write_fails(w: WriteView, stage: WriteStage, f: FailureView) -> WriteView {
    WriteView { stage, failure: Some(f), ..w }
}

/// A write after a look at what has the name.
pub open spec fn write_inspected(w: WriteView, found: Result<Option<(u32, u64)>, Failure>) -> WriteView {
    match found {
        Ok(entry) => match destination_fault(entry) {
            Some(f) => write_fails(w, WriteStage::Failed, f),
            None => write_at(w, WriteStage::Create),
        },
        Err(f) => write_fails(w, WriteStage::Failed, f@),
    }
}

/// The stage behind one that went well.
pub open spec fn stage_behind(way: WriteWay, stage: WriteStage) -> WriteStage {
    match stage {
        WriteStage::Create => match way {
            WriteWay::New => WriteStage::Write,
            WriteWay::Replace => WriteStage::Permit,
            WriteWay::Link => WriteStage::Rename,
        },
        WriteStage::Permit => WriteStage::Write,
        WriteStage::Write => WriteStage::Sync,
        WriteStage::Sync => WriteStage::Rename,
        WriteStage::Rename => WriteStage::SyncDirectory,
        WriteStage::SyncDirectory => WriteStage::Done,
        WriteStage::Discard => WriteStage::Failed,
        _ => stage,
    }
}

/// A write after a stage. What fails once the entry was created is discarded first; whether that
/// goes well makes no difference.
pub open spec fn write_after(w: WriteView, result: Result<(), Failure>) -> WriteView {
    if w.stage == WriteStage::Discard {
        write_at(w, WriteStage::Failed)
    } else {
        match result {
            Ok(_) => write_at(w, stage_behind(w.way, w.stage)),
            Err(f) => write_fails(
                w,
                if w.stage == WriteStage::Create {
                    WriteStage::Failed
                } else {
                    WriteStage::Discard
                },
                f@,
            ),
        }
    }
}

/// Whether a write waits for the end of a stage.
pub open spec fn write_waits(stage: WriteStage) -> bool {
    stage != WriteStage::Inspect && stage != WriteStage::Done && stage != WriteStage::Failed
}

impl StagedWrite {
    /// Begins to write an entry; both its names have to be single components.
    pub fn begin(way: WriteWay, name: &str, staging: &str) -> (r: Result<Self, Failure>)
        ensures
            match r {
                Ok(w) => is_component(name@) && is_component(staging@) && w@ == write_start(way),
                Err(f) => !(is_component(name@) && is_component(staging@)) && f@ == fails(
                    FailureKind::InvalidInput,
                    "invalid path component"@,
                ),
            },
    {
        match component(name) {
            Ok(_) => {},
            Err(f) => {
                return Err(f);
            },
        }
        match component(staging) {
            Ok(_) => {},
            Err(f) => {
                return Err(f);
            },
        }
        let stage: WriteStage = match way {
            WriteWay::Replace => WriteStage::Inspect,
            _ => WriteStage::Create,
        };
        Ok(StagedWrite { way, stage, failure: None })
    }

    /// Takes in the mode and the number of links of what has the name.
    pub fn inspected(&mut self, found: Result<Option<(u32, u64)>, Failure>)
        requires
            old(self).stage == WriteStage::Inspect,
        ensures
            final(self)@ == write_inspected(old(self)@, found),
    {
        let checked: Result<(), Failure> = match found {
            Ok(entry) => check_replaceable(entry),
            Err(f) => Err(f),
        };
        match checked {
            Ok(_) => {
                self.stage = WriteStage::Create;
            },
            Err(f) => {
                self.stage = WriteStage::Failed;
                self.failure = Some(f);
            },
        }
    }

    /// Takes in what a stage came to.
    pub fn report(&mut self, result: Result<(), Failure>)
        requires
            write_waits(old(self).stage),
        ensures
            final(self)@ == write_after(old(self)@, result),
    {
        match self.stage {
            WriteStage::Discard => {
                self.stage = WriteStage::Failed;
                return;
            },
            _ => {},
        }
        match result {
            Ok(_) => {
                self.stage = match self.stage {
                    WriteStage::Create => match self.way {
                        WriteWay::New => WriteStage::Write,
                        WriteWay::Replace => WriteStage::Permit,
                        WriteWay::Link => WriteStage::Rename,
                    },
                    WriteStage::Permit => WriteStage::Write,
                    WriteStage::Write => WriteStage::Sync,
                    WriteStage::Sync => WriteStage::Rename,
                    WriteStage::Rename => WriteStage::SyncDirectory,
                    _ => WriteStage::Done,
                };
            },
            Err(f) => {
                self.stage = match self.stage {
                    WriteStage::Create => WriteStage::Failed,
                    _ => WriteStage::Discard,
                };
                self.failure = Some(f);
            },
        }
    }
}

/// A directory: what stands under each name.
pub struct Directory {
    pub entries: Map<Seq<char>, Seq<u8>>,
}

/// Whether two directories differ at one name at most.
pub open spec fn same_but_for(a: Directory, b: Directory, name: Seq<char>) -> bool {
    a.entries.remove(name) == b.entries.remove(name)
}

/// What a stage of a write may do to a directory: where it goes well, what it is there for; where
/// it fails, nothing but to what has the staging name.
pub open spec fn stage_does(
    w: WriteView,
    name: Seq<char>,
    staging: Seq<char>,
    content: Seq<u8>,
    ok: bool,
    before: Directory,
    after: Directory,
) -> bool {
    match w.stage {
        WriteStage::Create => if ok {
            &&& !before.entries.contains_key(staging)
            &&& after.entries == before.entries.insert(
                staging,
                if w.way == WriteWay::Link {
                    content
                } else {
                    Seq::empty()
                },
            )
        } else {
            same_but_for(before, after, staging)
        },
        WriteStage::Write => if ok {
            after.entries == before.entries.insert(staging, content)
        } else {
            same_but_for(before, after, staging)
        },
        WriteStage::Rename => if ok {
            &&& w.way == WriteWay::New ==> !before.entries.contains_key(name)
            &&& after.entries == before.entries.remove(staging).insert(
                name,
                before.entries[staging],
            )
        } else {
            after == before
        },
        WriteStage::Discard => after.entries == before.entries.remove(staging) || (!ok && after
            == before),
        _ => after == before,
    }
}

/// Whether a directory is one that a write can have made of another by the time it has come to
/// its stage.
pub open spec fn write_made(
    w: WriteView,
    name: Seq<char>,
    staging: Seq<char>,
    content: Seq<u8>,
    first: Directory,
    now: Directory,
) -> bool {
    let changed = Directory { entries: first.entries.insert(name, content) };
    match w.stage {
        WriteStage::Inspect | WriteStage::Create => now == first,
        WriteStage::Permit | WriteStage::Write => same_but_for(first, now, staging),
        WriteStage::Sync | WriteStage::Rename => same_but_for(first, now, staging)
            && now.entries.contains_key(staging) && now.entries[staging] == content,
        WriteStage::SyncDirectory | WriteStage::Done => same_but_for(changed, now, staging)
            && !now.entries.contains_key(staging),
        WriteStage::Discard | WriteStage::Failed => same_but_for(first, now, staging)
            || same_but_for(changed, now, staging),
    }
}

/// A write changes an entry at once or not at all: at every stage the name has what it had before
/// or the whole content, never a part of it; once the write is done it has the content, the
/// staging name is free, and no other entry was touched.
pub proof fn law_entry_changes_at_once(
    w: WriteView,
    name: Seq<char>,
    staging: Seq<char>,
    content: Seq<u8>,
    result: Result<(), Failure>,
    first: Directory,
    before: Directory,
    after: Directory,
)
    requires
        name != staging,
        write_waits(w.stage),
        write_made(w, name, staging, content, first, before),
        stage_does(w, name, staging, content, result is Ok, before, after),
    ensures
        write_made(write_after(w, result), name, staging, content, first, after),
        after.entries.contains_key(name) ==> after.entries[name] == content || (
        first.entries.contains_key(name) && after.entries[name] == first.entries[name]),
        first.entries.contains_key(name) ==> after.entries.contains_key(name),
        after.entries.remove(staging).remove(name) == first.entries.remove(staging).remove(name),
        w.stage == WriteStage::Discard && result is Ok ==> !after.entries.contains_key(staging),
{
    let f = first.entries;
    let b = before.entries;
    let a = after.entries;
    let g = f.insert(name, content);
    if w.stage == WriteStage::Rename && result is Ok {
        assert(a.remove(staging) =~= b.remove(staging).insert(name, content));
        assert(g.remove(staging) =~= f.remove(staging).insert(name, content));
    } else {
        assert(a.remove(staging) =~= b.remove(staging));
    }
    assert(a.remove(staging).contains_key(name) <==> a.contains_key(name));
    assert(f.remove(staging).contains_key(name) <==> f.contains_key(name));
    assert(a.contains_key(name) ==> a.remove(staging)[name] == a[name]);
    assert(f.contains_key(name) ==> f.remove(staging)[name] == f[name]);
    assert(g.remove(staging).contains_key(name) && g.remove(staging)[name] == content);
    assert(g.remove(staging).remove(name) =~= f.remove(staging).remove(name));
}

/// A name is given only to an entry whose content is on the disk, a write that fails once its
/// entry was created discards it before it gives up, and it gives up with the first reason.
pub proof fn law_failed_write_is_discarded(w: WriteView, result: Result<(), Failure>)
    requires
        write_waits(w.stage),
    ensures
        write_after(w, result).stage == WriteStage::Rename ==> result is Ok && (w.stage
            == WriteStage::Sync || (w.way == WriteWay::Link && w.stage == WriteStage::Create)),
        write_after(w, result).stage == WriteStage::Failed ==> w.stage == WriteStage::Create
            || w.stage == WriteStage::Discard,
        result matches Err(f) ==> w.stage != WriteStage::Discard ==> write_after(w, result).failure
            == Some(f@),
        w.stage == WriteStage::Discard ==> write_after(w, result).failure == w.failure,
        result matches Err(_) ==> w.stage != WriteStage::Create ==> w.stage != WriteStage::Discard
            ==> write_after(w, result).stage == WriteStage::Discard,
{
}

/// Where a trusted directory cannot be had, every operation on one fails with this.
pub fn unsupported() -> (r: Failure)
    ensures
        r@ == fails(
            FailureKind::Unsupported,
            "trusted descriptor filesystem operations are currently supported only on Linux"@,
        ),
{
    Failure::new(
        FailureKind::Unsupported,
        "trusted descriptor filesystem operations are currently supported only on Linux",
    )
}

/// A walk never leaves the directory it starts in: each of its names is one plain component.
pub proof fn law_walks_stay_inside(parts: Seq<Seq<char>>, from: int, i: int)
    requires
        0 <= from <= i < from + names_from(parts, from),
    ensures
        i < parts.len(),
        is_name(parts[i]),
    decreases i - from,
{
    if from < i {
        law_walks_stay_inside(parts, from + 1, i);
    }
}

/// What a file is, is told by the bits of its mode that stand for it.
pub proof fn law_kinds_of_files(mode: u32)
    ensures
        kind_of_mode(mode) == FileKind::Regular <==> mode & 0o170000 == 0o100000,
        kind_of_mode(mode) == FileKind::Directory <==> mode & 0o170000 == 0o040000,
        kind_of_mode(mode) == FileKind::Symlink <==> mode & 0o170000 == 0o120000,
        kind_of_mode(mode) == FileKind::Fifo <==> mode & 0o170000 == 0o010000,
        kind_of_mode(mode) == FileKind::Socket <==> mode & 0o170000 == 0o140000,
        kind_of_mode(mode) == FileKind::CharacterDevice <==> mode & 0o170000 == 0o020000,
        kind_of_mode(mode) == FileKind::BlockDevice <==> mode & 0o170000 == 0o060000,
        destination_fault(None) is None,
{
}

/// A file may be replaced where it is a plain file that has one name.
pub proof fn law_only_plain_files_are_replaced(mode: u32, links: u64)
    ensures
        destination_fault(Some((mode, links))) is None <==> mode & 0o170000 == 0o100000 && links
            == 1,
        is_plain(mode, links, false) <==> mode & 0o170000 == 0o100000,
        destination_fault(Some((mode, links))) matches Some(f) ==> f.kind
            == FailureKind::InvalidData,
{
}

/// A component is a name: not empty, neither dot nor two dots, and without a slash.
pub proof fn law_component_is_a_plain_name(name: Seq<char>)
    ensures
        component_name_fault(name) is None <==> name.len() > 0 && name != seq!['.'] && name != seq![
            '.',
            '.',
        ] && forall|i: int| 0 <= i < name.len() ==> #[trigger] name[i] != '/',
        component_name_fault(name) matches Some(f) ==> f.kind == FailureKind::InvalidInput,
{
    reveal_strlit(".");
    reveal_strlit("..");
    assert("."@ =~= seq!['.']);
    assert(".."@ =~= seq!['.', '.']);
    if name.contains('/') {
        let i = choose|i: int| 0 <= i < name.len() && name[i] == '/';
        assert(name[i] == '/');
    }
    assert forall|i: int| 0 <= i < name.len() && !name.contains('/') implies #[trigger] name[i]
        != '/' by {
        if name[i] == '/' {
            assert(name.contains('/'));
        }
    }
}

/// A walk goes as far as there are names, and no further than the first component that is none.
pub proof fn law_walk_ends_at_the_first_that_is_no_name(parts: Seq<Seq<char>>, from: int)
    requires
        0 <= from <= parts.len(),
    ensures
        from + names_from(parts, from) <= parts.len(),
        names_from(parts, from) >= 0,
        from + names_from(parts, from) < parts.len() ==> !is_name(
            parts[from + names_from(parts, from)],
        ),
        (forall|i: int| from <= i < parts.len() ==> is_name(#[trigger] parts[i])) ==> from
            + names_from(parts, from) == parts.len(),
    decreases parts.len() - from,
{
    if from < parts.len() && is_name(parts[from]) {
        law_walk_ends_at_the_first_that_is_no_name(parts, from + 1);
    }
}

/// A write takes its steps in order: a replacement is looked at first and gets its permissions, the
/// content is written and made safe, then the entry takes its place, and the directory is made safe
/// last. A link needs no content.
pub proof fn law_write_takes_its_steps_in_order(w: WriteView, found: Option<(u32, u64)>)
    ensures
        ({
            let ok = Ok::<(), Failure>(());
            let next = |w: WriteView| write_after(w, ok);
            let start = write_start(w.way);
            let made = if w.way == WriteWay::Replace {
                write_inspected(start, Ok(found))
            } else {
                start
            };
            &&& start.failure is None && start.way == w.way
            &&& w.way == WriteWay::Replace ==> start.stage == WriteStage::Inspect
            &&& w.way != WriteWay::Replace ==> start.stage == WriteStage::Create
            &&& w.way == WriteWay::Replace && destination_fault(found) is Some ==> made.stage
                == WriteStage::Failed && made.failure == destination_fault(found)
            &&& w.way != WriteWay::Replace || destination_fault(found) is None ==> {
                let written = match w.way {
                    WriteWay::New => next(made),
                    WriteWay::Replace => next(next(made)),
                    WriteWay::Link => made,
                };
                let ready = if w.way == WriteWay::Link {
                    next(made)
                } else {
                    next(next(written))
                };
                &&& made.stage == WriteStage::Create
                &&& w.way == WriteWay::Replace ==> next(made).stage == WriteStage::Permit
                &&& w.way != WriteWay::Link ==> written.stage == WriteStage::Write && next(
                    written,
                ).stage == WriteStage::Sync
                &&& ready.stage == WriteStage::Rename
                &&& next(ready).stage == WriteStage::SyncDirectory
                &&& next(next(ready)).stage == WriteStage::Done
                &&& next(next(ready)).failure is None
            }
        }),
{
}

} // verus!
