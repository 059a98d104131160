use std::collections::BTreeMap;

use bedit::failure::{Failure, FailureKind};
use bedit::trusted_fs::{
    absolute_walk, check_created, check_opened, check_replaceable, component, file_kind,
    relative_walk, unsupported, FileKind, StagedWrite, WriteStage, WriteWay,
};

#[test]
fn unsupported_operations_fail_closed() {
    let error = unsupported();
    assert_eq!(error.kind, FailureKind::Unsupported);
    assert_eq!(
        error.to_string(),
        "trusted descriptor filesystem operations are currently supported only on Linux"
    );
}

#[test]
fn modes_tell_what_a_file_is() {
    assert_eq!(file_kind(0o100644), FileKind::Regular);
    assert_eq!(file_kind(0o040755), FileKind::Directory);
    assert_eq!(file_kind(0o120777), FileKind::Symlink);
    assert_eq!(file_kind(0o010600), FileKind::Fifo);
    assert_eq!(file_kind(0o140600), FileKind::Socket);
    assert_eq!(file_kind(0o020600), FileKind::CharacterDevice);
    assert_eq!(file_kind(0o060600), FileKind::BlockDevice);
    assert_eq!(file_kind(0), FileKind::Unknown);
}

#[test]
fn walks_go_down_one_name_at_a_time() {
    let walk = absolute_walk("/a/./b//c").unwrap();
    assert_eq!(walk.names, vec!["a", "b", "c"]);
    assert_eq!(walk.failure, None);
    assert_eq!(
        absolute_walk("a/b").unwrap_err().kind,
        FailureKind::InvalidInput
    );
    let up = absolute_walk("/a/../b").unwrap();
    assert_eq!(up.names, vec!["a"]);
    assert_eq!(up.failure.unwrap().kind, FailureKind::InvalidInput);
    assert_eq!(relative_walk("a/b").names, vec!["a", "b"]);
    assert!(relative_walk("/a").failure.is_some());
    assert!(component("x").is_ok());
    for bad in ["", ".", "..", "a/b"] {
        assert_eq!(component(bad).unwrap_err().kind, FailureKind::InvalidInput);
    }
}

#[test]
fn only_single_regular_files_are_touched() {
    assert_eq!(check_opened(0o100600, 1, true), Ok(()));
    assert_eq!(check_opened(0o100600, 2, false), Ok(()));
    assert!(check_opened(0o100600, 2, true).is_err());
    assert!(check_opened(0o040700, 1, false).is_err());
    assert_eq!(check_created(0o100600, 1), Ok(()));
    assert!(check_created(0o100600, 2).is_err());
    assert!(check_created(0o010600, 1).is_err());
    assert_eq!(check_replaceable(None), Ok(()));
    assert_eq!(check_replaceable(Some((0o100600, 1))), Ok(()));
    assert!(check_replaceable(Some((0o120777, 1))).is_err());
}

/// Writes `content` under `name` in a directory held in memory; the given stage fails.
fn write(
    entries: &mut BTreeMap<&'static str, Vec<u8>>,
    way: WriteWay,
    failing: Option<WriteStage>,
) -> (Vec<WriteStage>, Result<(), String>) {
    let mut stages = Vec::new();
    let mut write = StagedWrite::begin(way, "name", ".staging").unwrap();
    loop {
        let stage = write.stage;
        stages.push(stage);
        let full = || Failure::new(FailureKind::Other, "disk full");
        if failing == Some(stage) && stage != WriteStage::Inspect {
            if stage == WriteStage::Write {
                entries.insert(".staging", b"con".to_vec());
            }
            write.report(Err(full()));
            continue;
        }
        match stage {
            WriteStage::Inspect => {
                write.inspected(if failing == Some(stage) {
                    Err(full())
                } else {
                    Ok(entries.get("name").map(|_| (0o100600, 1)))
                });
                continue;
            }
            WriteStage::Create => {
                let linked = way == WriteWay::Link;
                entries.insert(".staging", if linked { b"content".to_vec() } else { Vec::new() });
            }
            WriteStage::Write => {
                entries.insert(".staging", b"content".to_vec());
            }
            WriteStage::Rename => {
                let staged = entries.remove(".staging").unwrap();
                entries.insert("name", staged);
            }
            WriteStage::Discard => {
                entries.remove(".staging");
            }
            WriteStage::Permit | WriteStage::Sync | WriteStage::SyncDirectory => {}
            WriteStage::Done => {
                assert!(write.failure.is_none());
                return (stages, Ok(()));
            }
            WriteStage::Failed => return (stages, Err(write.failure.unwrap().message)),
        }
        write.report(Ok(()));
    }
}

#[test]
fn an_entry_changes_at_once_or_not_at_all() {
    let all = [
        WriteStage::Inspect,
        WriteStage::Create,
        WriteStage::Permit,
        WriteStage::Write,
        WriteStage::Sync,
        WriteStage::Rename,
        WriteStage::SyncDirectory,
    ];
    let mut entries = BTreeMap::from([("name", b"old".to_vec()), ("other", b"kept".to_vec())]);
    let (stages, result) = write(&mut entries, WriteWay::Replace, None);
    assert_eq!(stages[..7], all);
    assert_eq!(result, Ok(()));
    assert_eq!(entries["name"], b"content");
    assert_eq!(entries["other"], b"kept");
    assert_eq!(entries.len(), 2);

    for failing in all {
        let mut entries = BTreeMap::from([("name", b"old".to_vec())]);
        let (stages, result) = write(&mut entries, WriteWay::Replace, Some(failing));
        assert_eq!(result, Err("disk full".to_string()));
        assert_eq!(entries.len(), 1);
        let renamed = failing == WriteStage::SyncDirectory;
        assert_eq!(entries["name"], if renamed { &b"content"[..] } else { &b"old"[..] });
        let created = failing != WriteStage::Inspect && failing != WriteStage::Create;
        assert_eq!(stages.contains(&WriteStage::Discard), created);
    }
}

#[test]
fn each_way_of_writing_has_its_stages() {
    let mut entries = BTreeMap::new();
    let (stages, _) = write(&mut entries, WriteWay::New, None);
    assert_eq!(
        stages,
        [
            WriteStage::Create,
            WriteStage::Write,
            WriteStage::Sync,
            WriteStage::Rename,
            WriteStage::SyncDirectory,
            WriteStage::Done,
        ]
    );
    let (stages, _) = write(&mut entries, WriteWay::Link, None);
    assert_eq!(
        stages,
        [
            WriteStage::Create,
            WriteStage::Rename,
            WriteStage::SyncDirectory,
            WriteStage::Done,
        ]
    );
    let mut write = StagedWrite::begin(WriteWay::Replace, "a", "b").unwrap();
    write.inspected(Ok(Some((0o120777, 1))));
    assert_eq!(write.stage, WriteStage::Failed);
    assert_eq!(
        write.failure.unwrap().message,
        "replacement destination is not a single-link regular file"
    );
    for (name, staging) in [("a/b", "c"), ("a", "..")] {
        let error = StagedWrite::begin(WriteWay::New, name, staging).err().unwrap();
        assert_eq!(error.message, "invalid path component");
    }
}
