use std::collections::HashSet;

use bedit::editor::{
    alias, bytes_occur, editor_aliases, is_bedit_shim, resolve_executable, same_directory,
    split_search_path, CandidateFacts, EditorFamily, ProcessStrategy,
};
use bedit::failure::FailureKind;

fn candidate(in_shim_dir: bool, file_mode: Option<u32>, content: &str) -> CandidateFacts {
    CandidateFacts {
        in_shim_dir,
        file_mode,
        content: Some(content.as_bytes().to_vec()),
    }
}

#[test]
fn registry_has_unique_aliases_and_explicit_strategies() {
    let mut names = HashSet::new();
    for entry in editor_aliases() {
        assert!(names.insert(entry.name), "duplicate {}", entry.name);
    }
    assert_eq!(
        alias("mvim").unwrap().strategy,
        ProcessStrategy::GuiOrDetachingEditor
    );
    assert_eq!(
        alias("emacsclient").unwrap().strategy,
        ProcessStrategy::ClientToExistingEditor
    );
    assert!(!alias("mvim").unwrap().supported);
    assert_eq!(alias("rnano").unwrap().family, EditorFamily::Nano);
    assert!(alias("no-such-editor").is_none());
}

#[test]
fn resolution_skips_shim_dir_and_handles_spaces() {
    let facts = vec![
        candidate(true, Some(0o100755), "#!/bin/sh\n"),
        candidate(false, Some(0o100755), "#!/bin/sh\n"),
    ];
    assert_eq!(
        resolve_executable("vim", "/base/shim dir:/base/real dir", &facts).unwrap(),
        "/base/real dir/vim"
    );
}

#[test]
fn resolution_passes_over_what_cannot_be_the_editor() {
    let shim = "#!/bin/sh\n# Bedit transparent editor shim\n";
    assert!(is_bedit_shim(&shim.as_bytes().to_vec()));
    let late = format!("{}{}", " ".repeat(250), shim);
    assert!(!is_bedit_shim(&late.into_bytes()));
    let facts = vec![
        candidate(false, None, ""),
        candidate(false, Some(0o100644), "#!/bin/sh\n"),
        candidate(false, Some(0o100755), shim),
        candidate(false, Some(0o100755), "\u{7f}ELF"),
    ];
    let found = resolve_executable("vi", "/a:/b:/c:/d", &facts);
    assert_eq!(found.unwrap(), "/d/vi");
    let error = resolve_executable("vi", "/a", &vec![candidate(false, None, "")]).unwrap_err();
    assert_eq!(error.kind, FailureKind::NotFound);
    assert_eq!(error.message, "bedit: vi is not installed");
}

#[test]
fn search_path_is_split_at_colons() {
    assert_eq!(split_search_path("/a:/b c::"), vec!["/a", "/b c", ".", "."]);
    assert_eq!(split_search_path(""), vec!["."]);
}

#[test]
fn directories_are_compared_by_what_they_lead_to() {
    assert!(same_directory("/a/", "/a", None, None));
    assert!(!same_directory("/a", "/b", None, None));
    assert!(same_directory("/a", "/b", Some("/c"), Some("/c")));
    assert!(!same_directory("/a", "/b", Some("/c"), Some("/d")));
}

#[test]
fn bytes_are_found_within_bytes() {
    assert!(bytes_occur(&b"abcabd".to_vec(), &b"abd".to_vec()));
    assert!(!bytes_occur(&b"abcab".to_vec(), &b"abd".to_vec()));
    assert!(bytes_occur(&b"abc".to_vec(), &b"".to_vec()));
    assert!(!bytes_occur(&b"".to_vec(), &b"a".to_vec()));
}
