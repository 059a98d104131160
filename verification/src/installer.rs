//! Installing and uninstalling: what is asked for, what is done in which order, and what is refused.

use crate::editor::bytes_occur;
use crate::encoding::{bytes_of, decode};
use crate::failure::{Failure, FailureKind};
use crate::identity::SudoHistoryPolicy;
use crate::path::{
    ends_with_path, file_name, is_absolute, join as join_path, parent, same_path, starts_with_path,
};
use crate::store::FileRead;
use crate::text::{
    chars_of, contains, join, lines, same, split, split_once, starts_with, to_decimal,
    to_wide_decimal, trim_start, CharClass,
};
use crate::trusted_fs::{file_kind, FileKind};
#[allow(unused_imports)]
use crate::{
    editor::{bytes_at, bytes_within, is_shim_content, registry, shim_mark},
    encoding::{lemma_encode_concat, utf8_fault},
    failure::{fails, FailureView},
    identity::{line_content, policy_from, policy_line, policy_value, PolicyLine},
    path::{
        components, file_name_of, has_tail, is_rooted, is_within, joined_path,
        law_parent_leaves_the_last_component_out, parent_of, same_path_text,
    },
    text::{
        all_views, begins_with, cut_at, decimal, finishes_with, first_occurrence, in_class,
        is_space, joined, law_occurrence_splits_a_text, law_splitting_undoes_joining,
        lemma_ends_cleanly, lemma_first_occurrence, lemma_first_occurrence_is, lemma_occurs_between,
        lemma_one_line, lemma_pieces_last, lemma_pieces_step, line_seq, lines_from, occurs,
        occurs_at, one_line, opt_view, pieces, trimmed, trimmed_end, trimmed_start, views,
        without_return,
    },
    trusted_fs::kind_of_mode,
};
use vstd::prelude::*;
#[allow(unused_imports)]
use vstd::utf8::{decode_utf8, encode_utf8, is_ascii_chars, is_ascii_chars_encode_utf8, valid_utf8};

verus! {

/// The commands that are installed.
pub open spec fn command_names() -> Seq<Seq<char>> {
    seq!["bedit"@, "bed"@, "bvi"@, "bnvim"@, "bnano"@, "bpico"@, "bemacs"@]
}

/// The commands whose older links are removed.
pub open spec fn stale_names() -> Seq<Seq<char>> {
    seq!["bedit"@, "bed"@, "bvi"@, "bnano"@, "bpico"@, "bemacs"@]
}

/// The editors that were once wrapped without being listed.
pub open spec fn legacy_editors() -> Seq<Seq<char>> {
    seq!["vi"@, "nvim"@, "nano"@, "pico"@, "emacs"@, "ed"@]
}

fn list_commands() -> (r: Vec<&'static str>)
    ensures
        r@.map(|i: int, s: &'static str| s@) == command_names(),
        r@.len() == 7,
{
    let r: Vec<&'static str> = vec!["bedit", "bed", "bvi", "bnvim", "bnano", "bpico", "bemacs"];
    assert(r@.map(|i: int, s: &'static str| s@) =~= command_names());
    r
}

fn list_stale() -> (r: Vec<&'static str>)
    ensures
        r@.map(|i: int, s: &'static str| s@) == stale_names(),
        r@.len() == 6,
{
    let r: Vec<&'static str> = vec!["bedit", "bed", "bvi", "bnano", "bpico", "bemacs"];
    assert(r@.map(|i: int, s: &'static str| s@) =~= stale_names());
    r
}

fn list_legacy() -> (r: Vec<&'static str>)
    ensures
        r@.map(|i: int, s: &'static str| s@) == legacy_editors(),
        r@.len() == 6,
{
    let r: Vec<&'static str> = vec!["vi", "nvim", "nano", "pico", "emacs", "ed"];
    assert(r@.map(|i: int, s: &'static str| s@) =~= legacy_editors());
    r
}

/// How editors are wrapped.
#[derive(Clone, Copy, Debug, PartialEq, Eq, Structural)]
pub enum InstallMode {
    /// By commands with names of their own.
    Named,
    /// By commands with the names of the editors.
    Transparent,
}

/// An editor and the command that wraps it.
#[derive(Debug, PartialEq, Eq)]
pub struct EditorRow {
    pub editor: String,
    pub wrapper: String,
}

/// The model of an editor and its command.
pub struct EditorRowView {
    pub editor: Seq<char>,
    pub wrapper: Seq<char>,
}

impl View for EditorRow {
    type V = EditorRowView;

    open spec fn view(&self) -> EditorRowView {
        EditorRowView { editor: self.editor@, wrapper: self.wrapper@ }
    }
}

/// What is asked for.
#[derive(Debug, PartialEq, Eq)]
pub struct InstallRequest {
    pub install: bool,
    pub prefix: String,
    pub config: Option<String>,
    pub mode: InstallMode,
    pub policy: SudoHistoryPolicy,
    pub source: String,
    pub man_root: String,
    pub editors: Vec<EditorRow>,
    pub copy: bool,
    pub purge: bool,
}

/// The model of what is asked for.
pub struct RequestView {
    pub install: bool,
    pub prefix: Seq<char>,
    pub config: Option<Seq<char>>,
    pub mode: InstallMode,
    pub policy: SudoHistoryPolicy,
    pub source: Seq<char>,
    pub man_root: Seq<char>,
    pub editors: Seq<EditorRowView>,
    pub copy: bool,
    pub purge: bool,
}

impl View for InstallRequest {
    type V = RequestView;

    open spec fn view(&self) -> RequestView {
        RequestView {
            install: self.install,
            prefix: self.prefix@,
            config: opt_view(self.config),
            mode: self.mode,
            policy: self.policy,
            source: self.source@,
            man_root: self.man_root@,
            editors: all_views(self.editors@),
            copy: self.copy,
            purge: self.purge,
        }
    }
}

/// What matters of the user on a system where only users install for themselves.
#[derive(Debug, PartialEq, Eq)]
pub struct OwnUser {
    pub root: bool,
    pub home: Option<String>,
}

/// An argument that cannot be used.
pub open spec fn bad_argument(message: Seq<char>) -> FailureView {
    fails(FailureKind::InvalidInput, message)
}

/// Whether a text can be the name of an editor.
pub open spec fn is_safe_name(s: Seq<char>) -> bool {
    s.len() > 0 && forall|i: int| 0 <= i < s.len() ==> is_safe_char(#[trigger] s[i])
}

/// Whether a character can stand in the name of an editor.
pub open spec fn is_safe_char(c: char) -> bool {
    ('a' <= c <= 'z') || ('A' <= c <= 'Z') || ('0' <= c <= '9') || c == '-'
}

/// Whether a text can be the name of an editor.
pub fn safe_name(value: &str) -> (r: bool)
    ensures
        r == is_safe_name(value@),
{
    let x: Vec<char> = chars_of(value);
    let mut i: usize = 0;
    while i < x.len()
        invariant
            x@ == value@,
            i <= x.len(),
            forall|j: int| 0 <= j < i ==> is_safe_char(#[trigger] value@[j]),
        decreases x.len() - i,
    {
        let c: char = x[i];
        if !(('a' <= c && c <= 'z') || ('A' <= c && c <= 'Z') || ('0' <= c && c <= '9') || c
            == '-') {
            assert(!is_safe_char(value@[i as int]));
            return false;
        }
        i += 1;
    }
    x.len() > 0
}

/// What a row of the registry of editors says.
pub open spec fn row_of(row: Seq<char>) -> Result<EditorRowView, FailureView> {
    match cut_at(row, ":"@) {
        None => Err(bad_argument("invalid editor registry"@)),
        Some((editor, wrapper)) => if is_safe_name(editor) && is_safe_name(wrapper) {
            Ok(EditorRowView { editor, wrapper })
        } else {
            Err(bad_argument("invalid editor name"@))
        },
    }
}

/// What the first `n` rows of a registry say; the first that cannot be read decides.
pub open spec fn rows_part(rows: Seq<Seq<char>>, n: int) -> Result<Seq<EditorRowView>, FailureView>
    decreases n,
{
    if n <= 0 {
        Ok(Seq::empty())
    } else {
        match rows_part(rows, n - 1) {
            Err(f) => Err(f),
            Ok(before) => if rows[n - 1].len() == 0 {
                Ok(before)
            } else {
                match row_of(rows[n - 1]) {
                    Err(f) => Err(f),
                    Ok(row) => Ok(before.push(row)),
                }
            },
        }
    }
}

/// What a registry of editors says.
pub open spec fn editors_of(value: Seq<char>) -> Result<Seq<EditorRowView>, FailureView> {
    let rows = pieces(value, ","@);
    rows_part(rows, rows.len() as int)
}

fn parse_row(row: &str) -> (r: Result<EditorRow, Failure>)
    ensures
        match (r, row_of(row@)) {
            (Ok(x), Ok(y)) => x@ == y,
            (Err(e), Err(f)) => e@ == f,
            _ => false,
        },
{
    proof {
        reveal_strlit(":");
    }
    match split_once(row, ":") {
        None => Err(Failure::new(FailureKind::InvalidInput, "invalid editor registry")),
        Some((editor, wrapper)) => if safe_name(editor.as_str()) && safe_name(wrapper.as_str()) {
            Ok(EditorRow { editor, wrapper })
        } else {
            Err(Failure::new(FailureKind::InvalidInput, "invalid editor name"))
        },
    }
}

/// Reads a registry of editors.
pub fn parse_editors(value: &str) -> (r: Result<Vec<EditorRow>, Failure>)
    ensures
        match (r, editors_of(value@)) {
            (Ok(x), Ok(y)) => all_views(x@) == y,
            (Err(e), Err(f)) => e@ == f,
            _ => false,
        },
{
    proof {
        reveal_strlit(",");
    }
    let rows: Vec<String> = split(value, ",");
    let ghost p = pieces(value@, ","@);
    let mut out: Vec<EditorRow> = Vec::new();
    let mut i: usize = 0;
    assert(all_views(out@) =~= Seq::empty());
    while i < rows.len()
        invariant
            i <= rows.len(),
            p == views(rows@),
            p == pieces(value@, ","@),
            rows_part(p, i as int) == Ok::<Seq<EditorRowView>, FailureView>(all_views(out@)),
        decreases rows.len() - i,
    {
        assert(p[i as int] == rows@[i as int]@);
        if chars_of(rows[i].as_str()).len() > 0 {
            match parse_row(rows[i].as_str()) {
                Ok(row) => {
                    let ghost before = all_views(out@);
                    out.push(row);
                    assert(all_views(out@) =~= before.push(row@));
                },
                Err(f) => {
                    proof {
                        assert(rows_part(p, i + 1) == Err::<Seq<EditorRowView>, FailureView>(f@));
                        lemma_bad_row(p, i + 1, p.len() as int, f@);
                        assert(p.len() == rows@.len());
                    }
                    return Err(f);
                },
            }
        }
        i += 1;
    }
    assert(p.len() == rows@.len());
    Ok(out)
}

proof fn lemma_bad_row(rows: Seq<Seq<char>>, n: int, m: int, f: FailureView)
    requires
        rows_part(rows, n) == Err::<Seq<EditorRowView>, FailureView>(f),
        0 < n <= m,
    ensures
        rows_part(rows, m) == Err::<Seq<EditorRowView>, FailureView>(f),
    decreases m,
{
    if n < m {
        lemma_bad_row(rows, n, m - 1, f);
    }
}

/// Reads a yes or a no.
pub fn parse_bool(value: &str) -> (r: Result<bool, Failure>)
    ensures
        match r {
            Ok(b) => value@ == if b {
                "1"@
            } else {
                "0"@
            },
            Err(e) => value@ != "0"@ && value@ != "1"@ && e@ == bad_argument(
                "invalid helper boolean"@,
            ),
        },
{
    if same(value, "0") {
        Ok(false)
    } else if same(value, "1") {
        Ok(true)
    } else {
        Err(Failure::new(FailureKind::InvalidInput, "invalid helper boolean"))
    }
}

/// What is wrong with a path that should be whole.
pub open spec fn path_fault(value: Seq<char>) -> Option<FailureView> {
    if is_rooted(value) {
        None
    } else {
        Some(bad_argument("helper path must be absolute"@))
    }
}

/// Reads a whole path.
pub fn absolute(value: &str) -> (r: Result<String, Failure>)
    ensures
        match r {
            Ok(p) => path_fault(value@) is None && p@ == value@,
            Err(e) => path_fault(value@) == Some(e@),
        },
{
    if is_absolute(value) {
        Ok(value.to_owned())
    } else {
        Err(Failure::new(FailureKind::InvalidInput, "helper path must be absolute"))
    }
}

/// What is wrong with an install of one user for themselves.
pub open spec fn own_install_fault(
    root: bool,
    home: Option<Seq<char>>,
    prefix: Seq<char>,
    with_config: bool,
) -> Option<FailureView> {
    if root || with_config {
        Some(
            fails(
                FailureKind::Unsupported,
                "privileged macOS installation is unsupported; use a non-root user install"@,
            ),
        )
    } else {
        match home {
            None => Some(bad_argument("HOME is required"@)),
            Some(h) => if !is_within(prefix, h) || same_path_text(prefix, h) {
                Some(
                    fails(
                        FailureKind::PermissionDenied,
                        "macOS user install prefix must be below HOME"@,
                    ),
                )
            } else {
                None
            },
        }
    }
}

fn check_own_install(user: &OwnUser, prefix: &str, with_config: bool) -> (r: Option<Failure>)
    ensures
        match r {
            Some(f) => own_install_fault(user.root, opt_view(user.home), prefix@, with_config)
                == Some(f@),
            None => own_install_fault(user.root, opt_view(user.home), prefix@, with_config) is None,
        },
{
    if user.root || with_config {
        return Some(
            Failure::new(
                FailureKind::Unsupported,
                "privileged macOS installation is unsupported; use a non-root user install",
            ),
        );
    }
    match &user.home {
        None => Some(Failure::new(FailureKind::InvalidInput, "HOME is required")),
        Some(h) => if !starts_with_path(prefix, h.as_str()) || same_path(prefix, h.as_str()) {
            Some(
                Failure::new(
                    FailureKind::PermissionDenied,
                    "macOS user install prefix must be below HOME",
                ),
            )
        } else {
            None
        },
    }
}

/// What is wrong with an install, on a system where only users install for themselves.
pub open spec fn own_fault(
    own: Option<(bool, Option<Seq<char>>)>,
    prefix: Seq<char>,
    with_config: bool,
) -> Option<FailureView> {
    match own {
        Some((root, home)) => own_install_fault(root, home, prefix, with_config),
        None => None,
    }
}

/// The mode that a name means.
pub open spec fn mode_of(name: Seq<char>) -> Option<InstallMode> {
    if name == "named"@ {
        Some(InstallMode::Named)
    } else if name == "transparent"@ {
        Some(InstallMode::Transparent)
    } else {
        None
    }
}

/// The policy that a name means.
pub open spec fn policy_named(name: Seq<char>) -> Option<SudoHistoryPolicy> {
    if name == "root_and_user"@ {
        Some(SudoHistoryPolicy::RootAndUser)
    } else if name == "root_only"@ {
        Some(SudoHistoryPolicy::RootOnly)
    } else {
        None
    }
}

/// What is wrong with the arguments that come before the registry of editors.
pub open spec fn leading_fault(args: Seq<Seq<char>>, own: Option<(bool, Option<Seq<char>>)>) -> Option<
    FailureView,
> {
    if args.len() != 10 {
        Some(bad_argument("invalid trusted installer helper arguments"@))
    } else if path_fault(args[1]) is Some {
        path_fault(args[1])
    } else if args[2] != "-"@ && path_fault(args[2]) is Some {
        path_fault(args[2])
    } else if own_fault(own, args[1], args[2] != "-"@) is Some {
        own_fault(own, args[1], args[2] != "-"@)
    } else if mode_of(args[3]) is None {
        Some(bad_argument("invalid install mode"@))
    } else if policy_named(args[4]) is None {
        Some(bad_argument("invalid sudo policy"@))
    } else if path_fault(args[5]) is Some {
        path_fault(args[5])
    } else {
        path_fault(args[6])
    }
}

/// Whether a text says yes or no.
pub open spec fn is_flag(value: Seq<char>) -> bool {
    value == "0"@ || value == "1"@
}

/// What arguments ask for, or what is wrong with the first that cannot be used.
pub open spec fn request_read(args: Seq<Seq<char>>, own: Option<(bool, Option<Seq<char>>)>) -> Result<
    RequestView,
    FailureView,
> {
    match leading_fault(args, own) {
        Some(f) => Err(f),
        None => match editors_of(args[7]) {
            Err(f) => Err(f),
            Ok(editors) => if !is_flag(args[8]) || !is_flag(args[9]) {
                Err(bad_argument("invalid helper boolean"@))
            } else if args[0] != "install"@ && args[0] != "uninstall"@ {
                Err(bad_argument("invalid helper action"@))
            } else {
                Ok(
                    RequestView {
                        install: args[0] == "install"@,
                        prefix: args[1],
                        config: if args[2] == "-"@ {
                            None
                        } else {
                            Some(args[2])
                        },
                        mode: mode_of(args[3])->0,
                        policy: policy_named(args[4])->0,
                        source: args[5],
                        man_root: args[6],
                        editors,
                        copy: args[8] == "1"@,
                        purge: args[9] == "1"@,
                    },
                )
            },
        },
    }
}

/// The facts of an own user.
pub open spec fn own_view(own: Option<OwnUser>) -> Option<(bool, Option<Seq<char>>)> {
    match own {
        Some(u) => Some((u.root, opt_view(u.home))),
        None => None,
    }
}

fn read_mode(name: &str) -> (r: Option<InstallMode>)
    ensures
        r == mode_of(name@),
{
    if same(name, "named") {
        Some(InstallMode::Named)
    } else if same(name, "transparent") {
        Some(InstallMode::Transparent)
    } else {
        None
    }
}

fn read_policy(name: &str) -> (r: Option<SudoHistoryPolicy>)
    ensures
        r == policy_named(name@),
{
    if same(name, "root_and_user") {
        Some(SudoHistoryPolicy::RootAndUser)
    } else if same(name, "root_only") {
        Some(SudoHistoryPolicy::RootOnly)
    } else {
        None
    }
}

proof fn lemma_flags_differ()
    ensures
        "0"@ != "1"@,
{
    reveal_strlit("0");
    reveal_strlit("1");
    assert("0"@[0] != "1"@[0]);
}

/// Reads what arguments ask for. `own` is set on systems where only users install for themselves.
pub fn parse_request(args: &Vec<String>, own: &Option<OwnUser>) -> (r: Result<
    InstallRequest,
    Failure,
>)
    ensures
        match (r, request_read(views(args@), own_view(*own))) {
            (Ok(x), Ok(y)) => x@ == y,
            (Err(e), Err(f)) => e@ == f,
            _ => false,
        },
{
    let ghost a = views(args@);
    assert(a.len() == args@.len());
    if args.len() != 10 {
        return Err(
            Failure::new(FailureKind::InvalidInput, "invalid trusted installer helper arguments"),
        );
    }
    assert(forall|i: int| 0 <= i < 10 ==> a[i] == #[trigger] args@[i]@);
    let prefix: String = match absolute(args[1].as_str()) {
        Ok(p) => p,
        Err(f) => {
            return Err(f);
        },
    };
    let config: Option<String> = if same(args[2].as_str(), "-") {
        None
    } else {
        match absolute(args[2].as_str()) {
            Ok(p) => Some(p),
            Err(f) => {
                return Err(f);
            },
        }
    };
    match own {
        Some(user) => match check_own_install(user, prefix.as_str(), config.is_some()) {
            Some(f) => {
                return Err(f);
            },
            None => {},
        },
        None => {},
    }
    let mode: InstallMode = match read_mode(args[3].as_str()) {
        Some(m) => m,
        None => {
            return Err(Failure::new(FailureKind::InvalidInput, "invalid install mode"));
        },
    };
    let policy: SudoHistoryPolicy = match read_policy(args[4].as_str()) {
        Some(p) => p,
        None => {
            return Err(Failure::new(FailureKind::InvalidInput, "invalid sudo policy"));
        },
    };
    let source: String = match absolute(args[5].as_str()) {
        Ok(p) => p,
        Err(f) => {
            return Err(f);
        },
    };
    let man_root: String = match absolute(args[6].as_str()) {
        Ok(p) => p,
        Err(f) => {
            return Err(f);
        },
    };
    let editors: Vec<EditorRow> = match parse_editors(args[7].as_str()) {
        Ok(e) => e,
        Err(f) => {
            return Err(f);
        },
    };
    proof {
        lemma_flags_differ();
    }
    let copy: bool = match parse_bool(args[8].as_str()) {
        Ok(b) => b,
        Err(f) => {
            return Err(f);
        },
    };
    let purge: bool = match parse_bool(args[9].as_str()) {
        Ok(b) => b,
        Err(f) => {
            return Err(f);
        },
    };
    let install: bool = same(args[0].as_str(), "install");
    if !install && !same(args[0].as_str(), "uninstall") {
        return Err(Failure::new(FailureKind::InvalidInput, "invalid helper action"));
    }
    Ok(
        InstallRequest {
            install,
            prefix,
            config,
            mode,
            policy,
            source,
            man_root,
            editors,
            copy,
            purge,
        },
    )
}

/// What looking at a name in a directory came to, links not followed.
#[derive(Debug, PartialEq, Eq)]
pub enum EntryStat {
    Missing,
    Failed(Failure),
    Found { mode: u32, links: u64 },
}

/// What is done about a name.
pub enum EntryView {
    /// There is nothing to do.
    Leave,
    /// There is something to do.
    Take,
    /// It fails.
    Refuse(FailureView),
}

/// What comes of a decision about a name.
pub open spec fn decided(r: Result<bool, Failure>) -> EntryView {
    match r {
        Ok(true) => EntryView::Take,
        Ok(false) => EntryView::Leave,
        Err(f) => EntryView::Refuse(f@),
    }
}

/// A refusal to touch something.
pub open spec fn refused(message: Seq<char>) -> EntryView {
    EntryView::Refuse(fails(FailureKind::InvalidData, message))
}

/// A plain file with one name is taken, a missing one is left, anything else is refused.
pub open spec fn plain_only(stat: EntryStat, message: Seq<char>) -> EntryView {
    match stat {
        EntryStat::Missing => EntryView::Leave,
        EntryStat::Failed(f) => EntryView::Refuse(f@),
        EntryStat::Found { mode, links } => if kind_of_mode(mode) == FileKind::Regular && links
            == 1 {
            EntryView::Take
        } else {
            refused(message)
        },
    }
}

/// A link is taken, a missing one is left, anything else is refused.
pub open spec fn link_only(stat: EntryStat, message: Seq<char>) -> EntryView {
    match stat {
        EntryStat::Missing => EntryView::Leave,
        EntryStat::Failed(f) => EntryView::Refuse(f@),
        EntryStat::Found { mode, .. } => if kind_of_mode(mode) == FileKind::Symlink {
            EntryView::Take
        } else {
            refused(message)
        },
    }
}

fn take_plain(stat: &EntryStat, message: &str) -> (r: Result<bool, Failure>)
    ensures
        decided(r) == plain_only(*stat, message@),
{
    match stat {
        EntryStat::Missing => Ok(false),
        EntryStat::Failed(f) => Err(f.clone()),
        EntryStat::Found { mode, links } => if file_kind(*mode) == FileKind::Regular && *links
            == 1 {
            Ok(true)
        } else {
            Err(Failure::new(FailureKind::InvalidData, message))
        },
    }
}

fn take_link(stat: &EntryStat, message: &str) -> (r: Result<bool, Failure>)
    ensures
        decided(r) == link_only(*stat, message@),
{
    match stat {
        EntryStat::Missing => Ok(false),
        EntryStat::Failed(f) => Err(f.clone()),
        EntryStat::Found { mode, .. } => if file_kind(*mode) == FileKind::Symlink {
            Ok(true)
        } else {
            Err(Failure::new(FailureKind::InvalidData, message))
        },
    }
}

/// Whether an old payload is to be set aside.
pub fn legacy_payload(stat: &EntryStat) -> (r: Result<bool, Failure>)
    ensures
        decided(r) == plain_only(*stat, "unsafe legacy payload inode"@),
{
    take_plain(stat, "unsafe legacy payload inode")
}

/// Whether there is a stale link to be looked at.
pub fn stale_link(stat: &EntryStat) -> (r: Result<bool, Failure>)
    ensures
        decided(r) == link_only(*stat, "unsafe stale migration destination"@),
{
    take_link(stat, "unsafe stale migration destination")
}

/// Whether a stale link leads where it should, so that it can be removed.
pub fn check_stale_target(target: &str, name: &str) -> (r: Result<(), Failure>)
    ensures
        match r {
            Ok(_) => has_tail(target@, "libexec/bedit/"@ + name@),
            Err(e) => !has_tail(target@, "libexec/bedit/"@ + name@) && e@ == fails(
                FailureKind::InvalidData,
                "unsafe stale migration link"@,
            ),
        },
{
    let mut tail: String = "libexec/bedit/".to_owned();
    tail.append(name);
    if ends_with_path(target, tail.as_str()) {
        Ok(())
    } else {
        Err(Failure::new(FailureKind::InvalidData, "unsafe stale migration link"))
    }
}

/// Whether a stale payload is to be removed.
pub fn stale_payload(stat: &EntryStat) -> (r: Result<bool, Failure>)
    ensures
        decided(r) == plain_only(*stat, "unsafe stale migration payload"@),
{
    take_plain(stat, "unsafe stale migration payload")
}

/// Whether a payload can be run.
pub fn check_executable(mode: u32) -> (r: Result<(), Failure>)
    ensures
        match r {
            Ok(_) => mode & 0o111 != 0,
            Err(e) => mode & 0o111 == 0 && e@ == fails(
                FailureKind::PermissionDenied,
                "payload is not executable"@,
            ),
        },
{
    if mode & 0o111 == 0 {
        Err(Failure::new(FailureKind::PermissionDenied, "payload is not executable"))
    } else {
        Ok(())
    }
}

/// Whether a payload is one of bedit.
pub fn check_marker(bytes: &Vec<u8>) -> (r: Result<(), Failure>)
    ensures
        match r {
            Ok(_) => bytes_within(bytes@, encode_utf8("bedit"@)),
            Err(e) => !bytes_within(bytes@, encode_utf8("bedit"@)) && e@ == fails(
                FailureKind::InvalidData,
                "payload lacks Bedit marker"@,
            ),
        },
{
    if bytes_occur(bytes, &bytes_of("bedit")) {
        Ok(())
    } else {
        Err(Failure::new(FailureKind::InvalidData, "payload lacks Bedit marker"))
    }
}

/// The name of the directory that holds the payloads of one install.
pub fn instance_name(version: &str, process: u32, nonce: u128) -> (r: String)
    ensures
        r@ == "bedit-"@ + version@ + "-"@ + decimal(process as nat) + "-"@ + decimal(nonce as nat),
{
    let mut out: String = "bedit-".to_owned();
    out.append(version);
    out.append("-");
    out.append(to_decimal(process as u64).as_str());
    out.append("-");
    out.append(to_wide_decimal(nonce).as_str());
    out
}

/// The name under which a file is written before it takes its place.
pub fn stage_name(kind: &str, process: u32, nonce: u128) -> (r: String)
    ensures
        r@ == ".bedit-"@ + kind@ + "-"@ + decimal(process as nat) + "-"@ + decimal(nonce as nat),
{
    let mut out: String = ".bedit-".to_owned();
    out.append(kind);
    out.append("-");
    out.append(to_decimal(process as u64).as_str());
    out.append("-");
    out.append(to_wide_decimal(nonce).as_str());
    out
}

/// Whether a link is one that was installed.
pub open spec fn is_managed_link(target: Seq<char>) -> bool {
    occurs(target, "libexec/bedit/current/"@)
}

/// Whether a link is one that was installed.
pub fn managed_link(target: &str) -> (r: bool)
    ensures
        r == is_managed_link(target@),
{
    contains(target, "libexec/bedit/current/")
}

/// Whether a link is one from an install to its payloads.
pub open spec fn is_managed_current(target: Seq<char>) -> bool {
    begins_with(target, "versions/"@) && !occurs(target, ".."@)
}

/// Whether a link is one from an install to its payloads.
pub fn managed_current(target: &str) -> (r: bool)
    ensures
        r == is_managed_current(target@),
{
    starts_with(target, "versions/") && !contains(target, "..")
}

/// Whether there is a link to the payloads to be looked at before it is replaced.
pub fn current_link(stat: &EntryStat) -> (r: Result<bool, Failure>)
    ensures
        decided(r) == link_only(*stat, "unsafe managed link destination"@),
{
    take_link(stat, "unsafe managed link destination")
}

/// Whether the link to the payloads may be replaced.
pub fn check_current(target: &str) -> (r: Result<(), Failure>)
    ensures
        match r {
            Ok(_) => is_managed_current(target@),
            Err(e) => !is_managed_current(target@) && e@ == fails(
                FailureKind::InvalidData,
                "unsafe managed link"@,
            ),
        },
{
    if managed_current(target) {
        Ok(())
    } else {
        Err(Failure::new(FailureKind::InvalidData, "unsafe managed link"))
    }
}

/// Whether a file is a shim.
pub fn is_shim(bytes: &Vec<u8>) -> (r: bool)
    ensures
        r == bytes_within(bytes@, shim_mark()),
{
    bytes_occur(bytes, &bytes_of("Bedit transparent editor shim"))
}

/// What stands under a name.
#[derive(Debug, PartialEq, Eq)]
pub enum Occupant {
    Nothing,
    /// A link, with its target.
    Link(String),
    /// A file, with its content.
    File(Vec<u8>),
}

/// The model of what stands under a name.
pub enum OccupantView {
    Nothing,
    Link(Seq<char>),
    File(Seq<u8>),
}

impl View for Occupant {
    type V = OccupantView;

    open spec fn view(&self) -> OccupantView {
        match self {
            Occupant::Nothing => OccupantView::Nothing,
            Occupant::Link(t) => OccupantView::Link(t@),
            Occupant::File(b) => OccupantView::File(b@),
        }
    }
}

/// What is to be read under a name.
#[derive(Clone, Copy, Debug, PartialEq, Eq, Structural)]
pub enum ToRead {
    Nothing,
    Link,
    File,
}

/// What is to be read under a name before something is installed there.
pub open spec fn reads_before_install(stat: EntryStat) -> Result<ToRead, FailureView> {
    match stat {
        EntryStat::Missing => Ok(ToRead::Nothing),
        EntryStat::Failed(f) => Err(f@),
        EntryStat::Found { mode, links } => if kind_of_mode(mode) == FileKind::Symlink {
            Ok(ToRead::Link)
        } else if kind_of_mode(mode) != FileKind::Regular || links != 1 {
            Err(fails(FailureKind::InvalidData, "unsafe install destination"@))
        } else {
            Ok(ToRead::File)
        },
    }
}

/// What is to be read under a name before it is uninstalled.
pub open spec fn reads_before_uninstall(stat: EntryStat) -> Result<ToRead, FailureView> {
    match stat {
        EntryStat::Missing => Ok(ToRead::Nothing),
        EntryStat::Failed(f) => Err(f@),
        EntryStat::Found { mode, .. } => if kind_of_mode(mode) == FileKind::Symlink {
            Ok(ToRead::Link)
        } else if kind_of_mode(mode) == FileKind::Regular {
            Ok(ToRead::File)
        } else {
            Err(fails(FailureKind::InvalidData, "unsafe uninstall destination"@))
        },
    }
}

/// Whether a reading came out as it should.
pub open spec fn reads(r: Result<ToRead, Failure>, wanted: Result<ToRead, FailureView>) -> bool {
    match (r, wanted) {
        (Ok(x), Ok(y)) => x == y,
        (Err(e), Err(f)) => e@ == f,
        _ => false,
    }
}

/// What is to be read under a name before something is installed there.
pub fn look_before_install(stat: &EntryStat) -> (r: Result<ToRead, Failure>)
    ensures
        reads(r, reads_before_install(*stat)),
{
    match stat {
        EntryStat::Missing => Ok(ToRead::Nothing),
        EntryStat::Failed(f) => Err(f.clone()),
        EntryStat::Found { mode, links } => {
            let kind: FileKind = file_kind(*mode);
            if kind == FileKind::Symlink {
                Ok(ToRead::Link)
            } else if kind != FileKind::Regular || *links != 1 {
                Err(Failure::new(FailureKind::InvalidData, "unsafe install destination"))
            } else {
                Ok(ToRead::File)
            }
        },
    }
}

/// What is to be read under a name before it is uninstalled.
pub fn look_before_uninstall(stat: &EntryStat) -> (r: Result<ToRead, Failure>)
    ensures
        reads(r, reads_before_uninstall(*stat)),
{
    match stat {
        EntryStat::Missing => Ok(ToRead::Nothing),
        EntryStat::Failed(f) => Err(f.clone()),
        EntryStat::Found { mode, .. } => {
            let kind: FileKind = file_kind(*mode);
            if kind == FileKind::Symlink {
                Ok(ToRead::Link)
            } else if kind == FileKind::Regular {
                Ok(ToRead::File)
            } else {
                Err(Failure::new(FailureKind::InvalidData, "unsafe uninstall destination"))
            }
        },
    }
}

/// What happens to what stands under a name.
#[derive(Clone, Copy, Debug, PartialEq, Eq, Structural)]
pub enum Fate {
    Keep,
    Remove,
    /// It gets another name, from which it can come back.
    SetAside,
}

/// What happens to what stands under a name before something is installed there.
pub open spec fn fate_before_install(o: OccupantView) -> Result<Fate, FailureView> {
    match o {
        OccupantView::Nothing => Ok(Fate::Keep),
        OccupantView::Link(t) => if is_managed_link(t) {
            Ok(Fate::Remove)
        } else {
            Err(fails(FailureKind::InvalidData, "unsafe destination symlink"@))
        },
        OccupantView::File(b) => if bytes_within(b, shim_mark()) {
            Ok(Fate::Remove)
        } else {
            Ok(Fate::SetAside)
        },
    }
}

/// Whether what stands under a name is removed when it is uninstalled.
pub open spec fn is_ours(o: OccupantView) -> bool {
    match o {
        OccupantView::Nothing => false,
        OccupantView::Link(t) => is_managed_link(t),
        OccupantView::File(b) => bytes_within(b, shim_mark()),
    }
}

/// What happens to what stands under a name before something is installed there.
pub fn backup_destination(occupant: &Occupant) -> (r: Result<Fate, Failure>)
    ensures
        match (r, fate_before_install(occupant@)) {
            (Ok(x), Ok(y)) => x == y,
            (Err(e), Err(f)) => e@ == f,
            _ => false,
        },
{
    match occupant {
        Occupant::Nothing => Ok(Fate::Keep),
        Occupant::Link(t) => if managed_link(t.as_str()) {
            Ok(Fate::Remove)
        } else {
            Err(Failure::new(FailureKind::InvalidData, "unsafe destination symlink"))
        },
        Occupant::File(b) => if is_shim(b) {
            Ok(Fate::Remove)
        } else {
            Ok(Fate::SetAside)
        },
    }
}

/// Whether what stands under a name is removed when it is uninstalled. Where nothing stands there
/// then, what was set aside comes back.
pub fn restore_or_remove(occupant: &Occupant) -> (r: bool)
    ensures
        r == is_ours(occupant@),
{
    match occupant {
        Occupant::Nothing => false,
        Occupant::Link(t) => managed_link(t.as_str()),
        Occupant::File(b) => is_shim(b),
    }
}

/// The name under which something is set aside.
pub open spec fn aside(name: Seq<char>) -> Seq<char> {
    name + ".bedit-backup"@
}

/// The name under which something is set aside.
pub fn backup_name(name: &str) -> (r: String)
    ensures
        r@ == aside(name@),
{
    let mut out: String = name.to_owned();
    out.append(".bedit-backup");
    out
}

/// A directory: what stands under each name.
pub type Names = Map<Seq<char>, OccupantView>;

/// What stands under a name in a directory.
pub open spec fn at(names: Names, name: Seq<char>) -> OccupantView {
    if names.dom().contains(name) {
        names[name]
    } else {
        OccupantView::Nothing
    }
}

/// A directory after something was installed under a name.
pub open spec fn after_install(names: Names, name: Seq<char>, new: OccupantView) -> Names {
    match fate_before_install(at(names, name)) {
        Ok(Fate::SetAside) => names.insert(aside(name), at(names, name)).insert(name, new),
        Ok(_) => names.insert(name, new),
        Err(_) => names,
    }
}

/// A directory after a name was uninstalled.
pub open spec fn after_uninstall(names: Names, name: Seq<char>) -> Names {
    let cleared = if is_ours(at(names, name)) {
        names.remove(name)
    } else {
        names
    };
    if !cleared.dom().contains(name) && cleared.dom().contains(aside(name)) {
        cleared.remove(aside(name)).insert(name, cleared[aside(name)])
    } else {
        cleared
    }
}

/// A file that stood under a name before an install stands there again after the uninstall, and
/// every other name is as it was. `new` is what was installed: a link or a shim.
pub proof fn law_set_aside_file_comes_back(
    names: Names,
    name: Seq<char>,
    new: OccupantView,
    content: Seq<u8>,
)
    requires
        names.dom().contains(name),
        names[name] == OccupantView::File(content),
        !bytes_within(content, shim_mark()),
        !names.dom().contains(aside(name)),
        is_ours(new),
    ensures
        after_uninstall(after_install(names, name, new), name) == names,
{
    reveal_strlit(".bedit-backup");
    assert(aside(name).len() > name.len());
    let installed = after_install(names, name, new);
    assert(at(installed, name) == new);
    assert(installed.remove(name).dom().contains(aside(name)));
    assert(after_uninstall(installed, name) =~= names);
}

/// What an install puts under a name is removed by the uninstall, and where nothing stood there
/// before, nothing stands there then.
pub proof fn law_installed_name_is_removed(names: Names, name: Seq<char>, new: OccupantView)
    requires
        !names.dom().contains(name),
        !names.dom().contains(aside(name)),
        is_ours(new),
    ensures
        after_uninstall(after_install(names, name, new), name) == names,
{
    reveal_strlit(".bedit-backup");
    assert(aside(name).len() > name.len());
    let installed = after_install(names, name, new);
    assert(at(installed, name) == new);
    assert(after_uninstall(installed, name) =~= names);
}

/// Whether a manual page is one of bedit.
pub open spec fn is_own_page(bytes: Seq<u8>) -> bool {
    bytes_within(bytes, encode_utf8("Bedit"@))
}

/// Whether a manual page that stands where another is installed is set aside.
pub fn page_is_set_aside(old: Option<&Vec<u8>>, new: &Vec<u8>) -> (r: bool)
    ensures
        r == (old matches Some(o) && o@ != new@ && !is_own_page(o@)),
{
    match old {
        Some(o) => !crate::encoding::same_bytes(o, new) && !bytes_occur(o, &bytes_of("Bedit")),
        None => false,
    }
}

/// Whether a manual page is removed when it is uninstalled.
pub fn page_is_removed(bytes: &Vec<u8>) -> (r: bool)
    ensures
        r == is_own_page(bytes@),
{
    bytes_occur(bytes, &bytes_of("Bedit"))
}

/// Whether a manifest is that of an install.
pub fn is_installed(manifest: Option<&Vec<u8>>) -> (r: bool)
    ensures
        r == (manifest matches Some(m) && bytes_at(m@, encode_utf8("mode="@), 0)),
{
    match manifest {
        None => false,
        Some(m) => {
            let mark: Vec<u8> = bytes_of("mode=");
            if m.len() < mark.len() {
                return false;
            }
            let mut i: usize = 0;
            while i < mark.len()
                invariant
                    i <= mark.len() <= m.len(),
                    manifest == Some(m),
                    mark@ == encode_utf8("mode="@),
                    forall|j: int| 0 <= j < i ==> m@[j] == mark@[j],
                decreases mark.len() - i,
            {
                if m[i] != mark[i] {
                    assert(!bytes_at(m@, mark@, 0)) by {
                        assert(m@.subrange(0, mark@.len() as int)[i as int] == m@[i as int]);
                    }
                    return false;
                }
                i += 1;
            }
            assert(m@.subrange(0, mark@.len() as int) =~= mark@);
            true
        },
    }
}

/// One step of an install.
#[derive(Debug, PartialEq, Eq)]
pub enum InstallStep {
    /// A file of the source must be one of bedit.
    CheckMarker(String),
    /// A file of the source must be one that can be run.
    CheckPayload(String),
    /// The directories for commands and payloads are opened, or made.
    OpenPlaces,
    /// An old payload is set aside.
    SetAsideLegacy(String),
    /// A stale link and its payload are removed.
    DropStale(String),
    /// The directory for manual pages is opened, or made.
    OpenManual,
    /// A payload is copied.
    CopyPayload { instance: String, file: String },
    /// The link to the payloads is replaced.
    LinkCurrent(String),
    /// There must be payloads already.
    RequireCurrent,
    /// The manifest is written.
    WriteManifest(String),
    /// A command is linked, after what stands under its name was dealt with.
    LinkCommand { name: String, target: String },
    /// A manual page is installed, if the source has one.
    InstallManual(String),
    /// A shim is written, after what stands under its name was dealt with.
    WriteShim { editor: String, text: String },
    /// What stands under the name of an editor is uninstalled.
    RestoreEditor(String),
    /// The policy is written into the configuration.
    WriteConfig { path: String, policy: SudoHistoryPolicy },
}

/// The model of one step of an install.
pub enum InstallStepView {
    CheckMarker(Seq<char>),
    CheckPayload(Seq<char>),
    OpenPlaces,
    SetAsideLegacy(Seq<char>),
    DropStale(Seq<char>),
    OpenManual,
    CopyPayload { instance: Seq<char>, file: Seq<char> },
    LinkCurrent(Seq<char>),
    RequireCurrent,
    WriteManifest(Seq<char>),
    LinkCommand { name: Seq<char>, target: Seq<char> },
    InstallManual(Seq<char>),
    WriteShim { editor: Seq<char>, text: Seq<char> },
    RestoreEditor(Seq<char>),
    WriteConfig { path: Seq<char>, policy: SudoHistoryPolicy },
}

impl View for InstallStep {
    type V = InstallStepView;

    open spec fn view(&self) -> InstallStepView {
        match self {
            InstallStep::CheckMarker(f) => InstallStepView::CheckMarker(f@),
            InstallStep::CheckPayload(f) => InstallStepView::CheckPayload(f@),
            InstallStep::OpenPlaces => InstallStepView::OpenPlaces,
            InstallStep::SetAsideLegacy(f) => InstallStepView::SetAsideLegacy(f@),
            InstallStep::DropStale(f) => InstallStepView::DropStale(f@),
            InstallStep::OpenManual => InstallStepView::OpenManual,
            InstallStep::CopyPayload { instance, file } => InstallStepView::CopyPayload {
                instance: instance@,
                file: file@,
            },
            InstallStep::LinkCurrent(t) => InstallStepView::LinkCurrent(t@),
            InstallStep::RequireCurrent => InstallStepView::RequireCurrent,
            InstallStep::WriteManifest(t) => InstallStepView::WriteManifest(t@),
            InstallStep::LinkCommand { name, target } => InstallStepView::LinkCommand {
                name: name@,
                target: target@,
            },
            InstallStep::InstallManual(f) => InstallStepView::InstallManual(f@),
            InstallStep::WriteShim { editor, text } => InstallStepView::WriteShim {
                editor: editor@,
                text: text@,
            },
            InstallStep::RestoreEditor(e) => InstallStepView::RestoreEditor(e@),
            InstallStep::WriteConfig { path, policy } => InstallStepView::WriteConfig {
                path: path@,
                policy: *policy,
            },
        }
    }
}

/// The steps that every command takes part in.
#[derive(Clone, Copy, Debug, PartialEq, Eq, Structural)]
pub enum CommandStep {
    CheckPayload,
    SetAsideLegacy,
    DropStale,
    CopyPayload,
    LinkCommand,
    InstallManual,
}

/// A step for a command.
pub open spec fn command_step(step: CommandStep, name: Seq<char>, instance: Seq<char>) -> InstallStepView {
    match step {
        CommandStep::CheckPayload => InstallStepView::CheckPayload(name + "-rust"@),
        CommandStep::SetAsideLegacy => InstallStepView::SetAsideLegacy(name + "-rust"@),
        CommandStep::DropStale => InstallStepView::DropStale(name + "-perl"@),
        CommandStep::CopyPayload => InstallStepView::CopyPayload { instance, file: name + "-rust"@ },
        CommandStep::LinkCommand => InstallStepView::LinkCommand {
            name,
            target: "../libexec/bedit/current/"@ + name + "-rust"@,
        },
        CommandStep::InstallManual => InstallStepView::InstallManual(name + ".1"@),
    }
}

/// A step for each command.
pub open spec fn command_steps(step: CommandStep, names: Seq<Seq<char>>, instance: Seq<char>) -> Seq<
    InstallStepView,
> {
    names.map(|i: int, name: Seq<char>| command_step(step, name, instance))
}

/// The names of the editors in a registry.
pub open spec fn editor_names(rows: Seq<EditorRowView>) -> Seq<Seq<char>> {
    rows.map(|i: int, row: EditorRowView| row.editor)
}

/// The name of a mode.
pub open spec fn mode_text(mode: InstallMode) -> Seq<char> {
    match mode {
        InstallMode::Named => "named"@,
        InstallMode::Transparent => "transparent"@,
    }
}

/// What a manifest says.
pub open spec fn manifest_text(mode: InstallMode, version: Seq<char>, rows: Seq<EditorRowView>) -> Seq<
    char,
> {
    "mode="@ + mode_text(mode) + "\nversion="@ + version + "\neditors="@ + joined(
        editor_names(rows),
        " "@,
    ) + "\n"@
}

/// What a shim says.
pub open spec fn shim_text(row: EditorRowView, prefix: Seq<char>) -> Seq<char> {
    "#!/bin/sh\n# Bedit transparent editor shim\nset -eu\nBEDIT_EDITOR_ALIAS='"@ + row.editor
        + "'\nBEDIT_SHIM_DIR='"@ + joined_path(prefix, "bin"@)
        + "'\nexport BEDIT_EDITOR_ALIAS BEDIT_SHIM_DIR\nexec '"@ + prefix
        + "/libexec/bedit/current/"@ + row.wrapper + "-rust' \"$@\"\n"@
}

/// The step for an editor.
pub open spec fn editor_step(row: EditorRowView, mode: InstallMode, prefix: Seq<char>) -> InstallStepView {
    match mode {
        InstallMode::Transparent => InstallStepView::WriteShim {
            editor: row.editor,
            text: shim_text(row, prefix),
        },
        InstallMode::Named => InstallStepView::RestoreEditor(row.editor),
    }
}

/// The step for each editor.
pub open spec fn editor_steps(rows: Seq<EditorRowView>, mode: InstallMode, prefix: Seq<char>) -> Seq<
    InstallStepView,
> {
    rows.map(|i: int, row: EditorRowView| editor_step(row, mode, prefix))
}

/// What is checked before anything is touched.
pub open spec fn checking_steps(copy: bool) -> Seq<InstallStepView> {
    if copy {
        seq![InstallStepView::CheckMarker("bedit-rust"@)] + command_steps(
            CommandStep::CheckPayload,
            command_names(),
            Seq::empty(),
        )
    } else {
        Seq::empty()
    }
}

/// How the payloads come.
pub open spec fn payload_steps(copy: bool, instance: Seq<char>) -> Seq<InstallStepView> {
    if copy {
        command_steps(CommandStep::CopyPayload, command_names(), instance).push(
            InstallStepView::LinkCurrent("versions/"@ + instance),
        )
    } else {
        seq![InstallStepView::RequireCurrent]
    }
}

/// How the configuration is written.
pub open spec fn config_steps(config: Option<Seq<char>>, policy: SudoHistoryPolicy) -> Seq<
    InstallStepView,
> {
    match config {
        Some(path) => seq![InstallStepView::WriteConfig { path, policy }],
        None => Seq::empty(),
    }
}

/// The steps of an install behind the checks.
pub open spec fn working_steps(r: RequestView, version: Seq<char>, instance: Seq<char>) -> Seq<
    InstallStepView,
> {
    seq![InstallStepView::OpenPlaces] + command_steps(
        CommandStep::SetAsideLegacy,
        command_names(),
        Seq::empty(),
    ) + command_steps(CommandStep::DropStale, stale_names(), Seq::empty()) + seq![
        InstallStepView::OpenManual,
    ] + payload_steps(r.copy, instance) + seq![
        InstallStepView::WriteManifest(manifest_text(r.mode, version, r.editors)),
    ] + command_steps(CommandStep::LinkCommand, command_names(), Seq::empty()) + command_steps(
        CommandStep::InstallManual,
        command_names(),
        Seq::empty(),
    ) + editor_steps(r.editors, r.mode, r.prefix) + config_steps(r.config, r.policy)
}

/// The steps of an install.
pub open spec fn install_steps(r: RequestView, version: Seq<char>, instance: Seq<char>) -> Seq<
    InstallStepView,
> {
    checking_steps(r.copy) + working_steps(r, version, instance)
}

fn push_command_steps(
    out: &mut Vec<InstallStep>,
    step: CommandStep,
    names: &Vec<&'static str>,
    instance: &str,
)
    ensures
        all_views(final(out)@) == all_views(old(out)@) + command_steps(
            step,
            names@.map(|i: int, s: &'static str| s@),
            instance@,
        ),
{
    let ghost n = names@.map(|i: int, s: &'static str| s@);
    let ghost start = all_views(out@);
    let ghost wanted = command_steps(step, n, instance@);
    let mut i: usize = 0;
    assert(start + wanted.take(0) =~= start);
    while i < names.len()
        invariant
            i <= names.len(),
            n == names@.map(|i: int, s: &'static str| s@),
            wanted == command_steps(step, n, instance@),
            wanted.len() == names@.len(),
            all_views(out@) == start + wanted.take(i as int),
        decreases names.len() - i,
    {
        assert(n[i as int] == names@[i as int]@);
        let name: &str = names[i];
        let mut file: String = name.to_owned();
        let item: InstallStep = match step {
            CommandStep::CheckPayload => {
                file.append("-rust");
                InstallStep::CheckPayload(file)
            },
            CommandStep::SetAsideLegacy => {
                file.append("-rust");
                InstallStep::SetAsideLegacy(file)
            },
            CommandStep::DropStale => {
                file.append("-perl");
                InstallStep::DropStale(file)
            },
            CommandStep::CopyPayload => {
                file.append("-rust");
                InstallStep::CopyPayload { instance: instance.to_owned(), file }
            },
            CommandStep::LinkCommand => {
                let mut target: String = "../libexec/bedit/current/".to_owned();
                target.append(name);
                target.append("-rust");
                InstallStep::LinkCommand { name: file, target }
            },
            CommandStep::InstallManual => {
                file.append(".1");
                InstallStep::InstallManual(file)
            },
        };
        let ghost before = all_views(out@);
        out.push(item);
        assert(item@ == wanted[i as int]);
        assert(all_views(out@) =~= before.push(item@));
        assert(start + wanted.take(i + 1) =~= (start + wanted.take(i as int)).push(
            wanted[i as int],
        ));
        i += 1;
    }
    assert(wanted.take(wanted.len() as int) =~= wanted);
}

fn write_manifest(mode: InstallMode, version: &str, rows: &Vec<EditorRow>) -> (r: String)
    ensures
        r@ == manifest_text(mode, version@, all_views(rows@)),
{
    let ghost v = all_views(rows@);
    let mut names: Vec<String> = Vec::new();
    let mut i: usize = 0;
    while i < rows.len()
        invariant
            i <= rows.len(),
            v == all_views(rows@),
            names@.len() == i,
            forall|j: int| 0 <= j < i ==> (#[trigger] names@[j])@ == v[j].editor,
        decreases rows.len() - i,
    {
        assert(v[i as int] == rows@[i as int]@);
        names.push(rows[i].editor.clone());
        i += 1;
    }
    assert(views(names@) =~= editor_names(v));
    let mut out: String = "mode=".to_owned();
    out.append(
        match mode {
            InstallMode::Named => "named",
            InstallMode::Transparent => "transparent",
        },
    );
    out.append("\nversion=");
    out.append(version);
    out.append("\neditors=");
    out.append(join(&names, " ").as_str());
    out.append("\n");
    out
}

/// What the shim of an editor says.
pub fn write_shim(row: &EditorRow, prefix: &str) -> (r: String)
    ensures
        r@ == shim_text(row@, prefix@),
{
    let mut out: String =
        "#!/bin/sh\n# Bedit transparent editor shim\nset -eu\nBEDIT_EDITOR_ALIAS='".to_owned();
    out.append(row.editor.as_str());
    out.append("'\nBEDIT_SHIM_DIR='");
    out.append(join_path(prefix, "bin").as_str());
    out.append("'\nexport BEDIT_EDITOR_ALIAS BEDIT_SHIM_DIR\nexec '");
    out.append(prefix);
    out.append("/libexec/bedit/current/");
    out.append(row.wrapper.as_str());
    out.append("-rust' \"$@\"\n");
    out
}

fn push_editor_steps(
    out: &mut Vec<InstallStep>,
    rows: &Vec<EditorRow>,
    mode: InstallMode,
    prefix: &str,
)
    ensures
        all_views(final(out)@) == all_views(old(out)@) + editor_steps(
            all_views(rows@),
            mode,
            prefix@,
        ),
{
    let ghost v = all_views(rows@);
    let ghost start = all_views(out@);
    let ghost wanted = editor_steps(v, mode, prefix@);
    let mut i: usize = 0;
    assert(start + wanted.take(0) =~= start);
    while i < rows.len()
        invariant
            i <= rows.len(),
            v == all_views(rows@),
            wanted == editor_steps(v, mode, prefix@),
            wanted.len() == rows@.len(),
            all_views(out@) == start + wanted.take(i as int),
        decreases rows.len() - i,
    {
        assert(v[i as int] == rows@[i as int]@);
        let row: &EditorRow = &rows[i];
        let item: InstallStep = match mode {
            InstallMode::Transparent => InstallStep::WriteShim {
                editor: row.editor.clone(),
                text: write_shim(row, prefix),
            },
            InstallMode::Named => InstallStep::RestoreEditor(row.editor.clone()),
        };
        let ghost before = all_views(out@);
        out.push(item);
        assert(item@ == wanted[i as int]);
        assert(all_views(out@) =~= before.push(item@));
        assert(start + wanted.take(i + 1) =~= (start + wanted.take(i as int)).push(
            wanted[i as int],
        ));
        i += 1;
    }
    assert(wanted.take(wanted.len() as int) =~= wanted);
}

fn push_step(out: &mut Vec<InstallStep>, step: InstallStep)
    ensures
        all_views(final(out)@) == all_views(old(out)@) + seq![step@],
{
    let ghost before = all_views(out@);
    out.push(step);
    assert(all_views(out@) =~= before + seq![step@]);
}

/// The steps of an install. `instance` is the name of the directory for its payloads.
pub fn plan_install(request: &InstallRequest, version: &str, instance: &str) -> (r: Vec<InstallStep>)
    ensures
        all_views(r@) == install_steps(request@, version@, instance@),
{
    let nothing: String = String::new();
    let commands: Vec<&'static str> = list_commands();
    let mut out: Vec<InstallStep> = Vec::new();
    assert(all_views(out@) =~= Seq::empty());
    if request.copy {
        push_step(&mut out, InstallStep::CheckMarker("bedit-rust".to_owned()));
        push_command_steps(&mut out, CommandStep::CheckPayload, &commands, nothing.as_str());
    }
    assert(all_views(out@) =~= checking_steps(request.copy));
    let mut work: Vec<InstallStep> = Vec::new();
    assert(all_views(work@) =~= Seq::empty());
    push_step(&mut work, InstallStep::OpenPlaces);
    assert(all_views(work@) =~= seq![InstallStepView::OpenPlaces]);
    push_command_steps(&mut work, CommandStep::SetAsideLegacy, &commands, nothing.as_str());
    push_command_steps(&mut work, CommandStep::DropStale, &list_stale(), nothing.as_str());
    push_step(&mut work, InstallStep::OpenManual);
    let ghost before = all_views(work@);
    if request.copy {
        push_command_steps(&mut work, CommandStep::CopyPayload, &commands, instance);
        let mut target: String = "versions/".to_owned();
        target.append(instance);
        push_step(&mut work, InstallStep::LinkCurrent(target));
    } else {
        push_step(&mut work, InstallStep::RequireCurrent);
    }
    assert(all_views(work@) =~= before + payload_steps(request.copy, instance@));
    push_step(
        &mut work,
        InstallStep::WriteManifest(write_manifest(request.mode, version, &request.editors)),
    );
    push_command_steps(&mut work, CommandStep::LinkCommand, &commands, nothing.as_str());
    push_command_steps(&mut work, CommandStep::InstallManual, &commands, nothing.as_str());
    push_editor_steps(&mut work, &request.editors, request.mode, request.prefix.as_str());
    let ghost last = all_views(work@);
    match &request.config {
        Some(path) => push_step(
            &mut work,
            InstallStep::WriteConfig { path: path.clone(), policy: request.policy },
        ),
        None => {},
    }
    assert(all_views(work@) =~= last + config_steps(request@.config, request.policy));
    assert(all_views(work@) =~= working_steps(request@, version@, instance@));
    let ghost front = all_views(out@);
    let ghost back = all_views(work@);
    out.append(&mut work);
    assert(all_views(out@) =~= front + back);
    out
}

/// Whether a step only looks at the source.
pub open spec fn is_check(step: InstallStepView) -> bool {
    step is CheckMarker || step is CheckPayload
}

/// Every payload is checked before anything is opened, made or changed.
pub proof fn law_payloads_are_checked_first(
    r: RequestView,
    version: Seq<char>,
    instance: Seq<char>,
    earlier: int,
    later: int,
)
    requires
        0 <= earlier < later < install_steps(r, version, instance).len(),
        is_check(install_steps(r, version, instance)[later]),
    ensures
        is_check(install_steps(r, version, instance)[earlier]),
{
    let checks = checking_steps(r.copy);
    let work = working_steps(r, version, instance);
    if later >= checks.len() {
        assert(install_steps(r, version, instance)[later] == work[later - checks.len()]);
        lemma_work_does_not_check(r, version, instance, later - checks.len());
    } else {
        assert(install_steps(r, version, instance)[earlier] == checks[earlier]);
        if earlier > 0 {
            assert(checks[earlier] == command_steps(
                CommandStep::CheckPayload,
                command_names(),
                Seq::empty(),
            )[earlier - 1]);
        }
    }
}

proof fn lemma_work_does_not_check(r: RequestView, version: Seq<char>, instance: Seq<char>, i: int)
    requires
        0 <= i < working_steps(r, version, instance).len(),
    ensures
        !is_check(working_steps(r, version, instance)[i]),
{
    let parts: Seq<Seq<InstallStepView>> = seq![
        seq![InstallStepView::OpenPlaces],
        command_steps(CommandStep::SetAsideLegacy, command_names(), Seq::empty()),
        command_steps(CommandStep::DropStale, stale_names(), Seq::empty()),
        seq![InstallStepView::OpenManual],
        payload_steps(r.copy, instance),
        seq![InstallStepView::WriteManifest(manifest_text(r.mode, version, r.editors))],
        command_steps(CommandStep::LinkCommand, command_names(), Seq::empty()),
        command_steps(CommandStep::InstallManual, command_names(), Seq::empty()),
        editor_steps(r.editors, r.mode, r.prefix),
        config_steps(r.config, r.policy),
    ];
    let all = working_steps(r, version, instance);
    assert(all == parts[0] + parts[1] + parts[2] + parts[3] + parts[4] + parts[5] + parts[6]
        + parts[7] + parts[8] + parts[9]);
    assert forall|k: int, j: int| 0 <= k < 10 && 0 <= j < parts[k].len() implies !is_check(
        #[trigger] parts[k][j],
    ) by {
        if k == 4 && r.copy {
            let copies = command_steps(CommandStep::CopyPayload, command_names(), instance);
            if j < copies.len() {
                assert(parts[4][j] == copies[j]);
            }
        }
    }
    assert(exists|k: int, j: int| 0 <= k < 10 && 0 <= j < parts[k].len() && all[i] == #[trigger] parts[k][j])
    by {
        lemma_in_parts(parts, all, i);
    }
}

proof fn lemma_in_parts(parts: Seq<Seq<InstallStepView>>, all: Seq<InstallStepView>, i: int)
    requires
        parts.len() == 10,
        all == parts[0] + parts[1] + parts[2] + parts[3] + parts[4] + parts[5] + parts[6] + parts[7]
            + parts[8] + parts[9],
        0 <= i < all.len(),
    ensures
        exists|k: int, j: int|
            0 <= k < 10 && 0 <= j < parts[k].len() && all[i] == #[trigger] parts[k][j],
{
    let l0 = parts[0].len();
    let l1 = l0 + parts[1].len();
    let l2 = l1 + parts[2].len();
    let l3 = l2 + parts[3].len();
    let l4 = l3 + parts[4].len();
    let l5 = l4 + parts[5].len();
    let l6 = l5 + parts[6].len();
    let l7 = l6 + parts[7].len();
    let l8 = l7 + parts[8].len();
    if i < l0 {
        assert(all[i] == parts[0][i]);
    } else if i < l1 {
        assert(all[i] == parts[1][i - l0]);
    } else if i < l2 {
        assert(all[i] == parts[2][i - l1]);
    } else if i < l3 {
        assert(all[i] == parts[3][i - l2]);
    } else if i < l4 {
        assert(all[i] == parts[4][i - l3]);
    } else if i < l5 {
        assert(all[i] == parts[5][i - l4]);
    } else if i < l6 {
        assert(all[i] == parts[6][i - l5]);
    } else if i < l7 {
        assert(all[i] == parts[7][i - l6]);
    } else if i < l8 {
        assert(all[i] == parts[8][i - l7]);
    } else {
        assert(all[i] == parts[9][i - l8]);
    }
}

/// One step of an uninstall.
#[derive(Debug, PartialEq, Eq)]
pub enum UninstallStep {
    /// What stands under the name of a command or an editor is uninstalled.
    RestoreName(String),
    /// What stands under the name of a manual page is uninstalled.
    RestorePage(String),
    /// The payloads are removed.
    RemovePayloads,
    /// The configuration is removed.
    RemoveConfig(String),
}

/// The model of one step of an uninstall.
pub enum UninstallStepView {
    RestoreName(Seq<char>),
    RestorePage(Seq<char>),
    RemovePayloads,
    RemoveConfig(Seq<char>),
}

impl View for UninstallStep {
    type V = UninstallStepView;

    open spec fn view(&self) -> UninstallStepView {
        match self {
            UninstallStep::RestoreName(n) => UninstallStepView::RestoreName(n@),
            UninstallStep::RestorePage(n) => UninstallStepView::RestorePage(n@),
            UninstallStep::RemovePayloads => UninstallStepView::RemovePayloads,
            UninstallStep::RemoveConfig(p) => UninstallStepView::RemoveConfig(p@),
        }
    }
}

/// What is there to be uninstalled.
#[derive(Clone, Copy, Debug, PartialEq, Eq, Structural)]
pub struct Installed {
    /// The directory for commands.
    pub commands: bool,
    /// The directory for manual pages.
    pub manual: bool,
    /// A manifest.
    pub manifest: bool,
}

/// Names to be uninstalled.
pub open spec fn name_steps(names: Seq<Seq<char>>) -> Seq<UninstallStepView> {
    names.map(|i: int, name: Seq<char>| UninstallStepView::RestoreName(name))
}

/// Manual pages to be uninstalled.
pub open spec fn page_steps(names: Seq<Seq<char>>) -> Seq<UninstallStepView> {
    names.map(|i: int, name: Seq<char>| UninstallStepView::RestorePage(name + ".1"@))
}

/// The commands and editors that are uninstalled.
pub open spec fn name_part(r: RequestView, found: Installed) -> Seq<UninstallStepView> {
    if found.commands {
        name_steps(command_names()) + name_steps(editor_names(r.editors)) + name_steps(
            legacy_editors(),
        )
    } else {
        Seq::empty()
    }
}

/// The manual pages and payloads that are uninstalled.
pub open spec fn payload_part(found: Installed) -> Seq<UninstallStepView> {
    if found.manifest {
        (if found.manual {
            page_steps(command_names())
        } else {
            Seq::empty()
        }).push(UninstallStepView::RemovePayloads)
    } else {
        Seq::empty()
    }
}

/// The configuration that is removed.
pub open spec fn config_part(r: RequestView) -> Seq<UninstallStepView> {
    match r.config {
        Some(path) => if r.purge {
            seq![UninstallStepView::RemoveConfig(path)]
        } else {
            Seq::empty()
        },
        None => Seq::empty(),
    }
}

/// The steps of an uninstall.
pub open spec fn uninstall_steps(r: RequestView, found: Installed) -> Seq<UninstallStepView> {
    name_part(r, found) + payload_part(found) + config_part(r)
}

fn push_names(out: &mut Vec<UninstallStep>, names: &Vec<&'static str>)
    ensures
        all_views(final(out)@) == all_views(old(out)@) + name_steps(
            names@.map(|i: int, s: &'static str| s@),
        ),
{
    let ghost n = names@.map(|i: int, s: &'static str| s@);
    let ghost start = all_views(out@);
    let ghost wanted = name_steps(n);
    let mut i: usize = 0;
    assert(start + wanted.take(0) =~= start);
    while i < names.len()
        invariant
            i <= names.len(),
            n == names@.map(|i: int, s: &'static str| s@),
            wanted == name_steps(n),
            wanted.len() == names@.len(),
            all_views(out@) == start + wanted.take(i as int),
        decreases names.len() - i,
    {
        assert(n[i as int] == names@[i as int]@);
        let ghost before = all_views(out@);
        let item: UninstallStep = UninstallStep::RestoreName(names[i].to_owned());
        out.push(item);
        assert(item@ == wanted[i as int]);
        assert(all_views(out@) =~= before.push(item@));
        assert(start + wanted.take(i + 1) =~= (start + wanted.take(i as int)).push(
            wanted[i as int],
        ));
        i += 1;
    }
    assert(wanted.take(wanted.len() as int) =~= wanted);
}

fn push_pages(out: &mut Vec<UninstallStep>, names: &Vec<&'static str>)
    ensures
        all_views(final(out)@) == all_views(old(out)@) + page_steps(
            names@.map(|i: int, s: &'static str| s@),
        ),
{
    let ghost n = names@.map(|i: int, s: &'static str| s@);
    let ghost start = all_views(out@);
    let ghost wanted = page_steps(n);
    let mut i: usize = 0;
    assert(start + wanted.take(0) =~= start);
    while i < names.len()
        invariant
            i <= names.len(),
            n == names@.map(|i: int, s: &'static str| s@),
            wanted == page_steps(n),
            wanted.len() == names@.len(),
            all_views(out@) == start + wanted.take(i as int),
        decreases names.len() - i,
    {
        assert(n[i as int] == names@[i as int]@);
        let ghost before = all_views(out@);
        let mut page: String = names[i].to_owned();
        page.append(".1");
        let item: UninstallStep = UninstallStep::RestorePage(page);
        out.push(item);
        assert(item@ == wanted[i as int]);
        assert(all_views(out@) =~= before.push(item@));
        assert(start + wanted.take(i + 1) =~= (start + wanted.take(i as int)).push(
            wanted[i as int],
        ));
        i += 1;
    }
    assert(wanted.take(wanted.len() as int) =~= wanted);
}

fn push_editors(out: &mut Vec<UninstallStep>, rows: &Vec<EditorRow>)
    ensures
        all_views(final(out)@) == all_views(old(out)@) + name_steps(
            editor_names(all_views(rows@)),
        ),
{
    let ghost v = all_views(rows@);
    let ghost start = all_views(out@);
    let ghost wanted = name_steps(editor_names(v));
    let mut i: usize = 0;
    assert(start + wanted.take(0) =~= start);
    while i < rows.len()
        invariant
            i <= rows.len(),
            v == all_views(rows@),
            wanted == name_steps(editor_names(v)),
            wanted.len() == rows@.len(),
            all_views(out@) == start + wanted.take(i as int),
        decreases rows.len() - i,
    {
        assert(v[i as int] == rows@[i as int]@);
        let ghost before = all_views(out@);
        let item: UninstallStep = UninstallStep::RestoreName(rows[i].editor.clone());
        out.push(item);
        assert(item@ == wanted[i as int]);
        assert(all_views(out@) =~= before.push(item@));
        assert(start + wanted.take(i + 1) =~= (start + wanted.take(i as int)).push(
            wanted[i as int],
        ));
        i += 1;
    }
    assert(wanted.take(wanted.len() as int) =~= wanted);
}

/// The steps of an uninstall.
pub fn plan_uninstall(request: &InstallRequest, found: Installed) -> (r: Vec<UninstallStep>)
    ensures
        all_views(r@) == uninstall_steps(request@, found),
{
    let commands: Vec<&'static str> = list_commands();
    let mut out: Vec<UninstallStep> = Vec::new();
    assert(all_views(out@) =~= Seq::empty());
    if found.commands {
        push_names(&mut out, &commands);
        push_editors(&mut out, &request.editors);
        push_names(&mut out, &list_legacy());
    }
    let ghost first = all_views(out@);
    assert(first =~= name_part(request@, found));
    if found.manifest {
        if found.manual {
            push_pages(&mut out, &commands);
        }
        let ghost before = all_views(out@);
        out.push(UninstallStep::RemovePayloads);
        assert(all_views(out@) =~= before.push(UninstallStepView::RemovePayloads));
    }
    let ghost second = all_views(out@);
    assert(second =~= first + payload_part(found));
    match &request.config {
        Some(path) => {
            if request.purge {
                let item: UninstallStep = UninstallStep::RemoveConfig(path.clone());
                out.push(item);
                assert(all_views(out@) =~= second.push(item@));
            }
        },
        None => {},
    }
    assert(all_views(out@) =~= second + config_part(request@));
    out
}

/// Every name that an install puts something under is uninstalled, with the same editors.
pub proof fn law_uninstall_covers_install(
    r: RequestView,
    version: Seq<char>,
    instance: Seq<char>,
    found: Installed,
    i: int,
)
    requires
        found.commands,
        0 <= i < install_steps(r, version, instance).len(),
    ensures
        install_steps(r, version, instance)[i] matches InstallStepView::LinkCommand { name, .. }
            ==> uninstall_steps(r, found).contains(UninstallStepView::RestoreName(name)),
        install_steps(r, version, instance)[i] matches InstallStepView::WriteShim { editor, .. }
            ==> uninstall_steps(r, found).contains(UninstallStepView::RestoreName(editor)),
        install_steps(r, version, instance)[i] matches InstallStepView::InstallManual(page)
            ==> found.manifest && found.manual ==> uninstall_steps(r, found).contains(
            UninstallStepView::RestorePage(page),
        ),
{
    let steps = install_steps(r, version, instance);
    let checks = checking_steps(r.copy);
    let work = working_steps(r, version, instance);
    let undo = uninstall_steps(r, found);
    let commands = name_steps(command_names());
    let editors = name_steps(editor_names(r.editors));
    if i < checks.len() {
        assert(steps[i] == checks[i]);
        if i > 0 {
            assert(checks[i] == command_steps(
                CommandStep::CheckPayload,
                command_names(),
                Seq::empty(),
            )[i - 1]);
        }
    } else {
        assert(steps[i] == work[i - checks.len()]);
        let parts: Seq<Seq<InstallStepView>> = seq![
            seq![InstallStepView::OpenPlaces],
            command_steps(CommandStep::SetAsideLegacy, command_names(), Seq::empty()),
            command_steps(CommandStep::DropStale, stale_names(), Seq::empty()),
            seq![InstallStepView::OpenManual],
            payload_steps(r.copy, instance),
            seq![InstallStepView::WriteManifest(manifest_text(r.mode, version, r.editors))],
            command_steps(CommandStep::LinkCommand, command_names(), Seq::empty()),
            command_steps(CommandStep::InstallManual, command_names(), Seq::empty()),
            editor_steps(r.editors, r.mode, r.prefix),
            config_steps(r.config, r.policy),
        ];
        lemma_in_parts(parts, work, i - checks.len());
        let (k, j) = choose|k: int, j: int|
            0 <= k < 10 && 0 <= j < parts[k].len() && steps[i] == #[trigger] parts[k][j];
        if k == 4 && r.copy {
            let copies = command_steps(CommandStep::CopyPayload, command_names(), instance);
            if j < copies.len() {
                assert(parts[4][j] == copies[j]);
            }
        }
        if k == 6 {
            assert(undo[j] == commands[j]);
            assert(undo.contains(commands[j]));
        }
        if k == 7 && found.manifest && found.manual {
            let pages = page_steps(command_names());
            let from = name_part(r, found).len() as int;
            assert(payload_part(found)[j] == pages[j]);
            assert(undo[from + j] == pages[j]);
            assert(undo.contains(pages[j]));
        }
        if k == 8 {
            assert(undo[commands.len() + j] == editors[j]);
            assert(undo.contains(editors[j]));
        }
    }
}

/// A shim is known for one by what installs it and by what looks for the real editor.
pub proof fn law_shim_is_known(row: EditorRowView, prefix: Seq<char>)
    ensures
        is_ours(OccupantView::File(encode_utf8(shim_text(row, prefix)))),
        is_shim_content(encode_utf8(shim_text(row, prefix))),
{
    let head = "#!/bin/sh\n# Bedit transparent editor shim\nset -eu\nBEDIT_EDITOR_ALIAS='"@;
    let mark = "Bedit transparent editor shim"@;
    reveal_strlit("#!/bin/sh\n# Bedit transparent editor shim\nset -eu\nBEDIT_EDITOR_ALIAS='");
    reveal_strlit("Bedit transparent editor shim");
    let text = shim_text(row, prefix);
    assert(text.subrange(0, head.len() as int) =~= head);
    let front = head.subrange(0, 12);
    let back = text.subrange(41, text.len() as int);
    assert(head.subrange(12, 41) =~= mark);
    assert(text =~= front + mark + back);
    lemma_encode_concat(front + mark, back);
    lemma_encode_concat(front, mark);
    let bytes = encode_utf8(text);
    let before = encode_utf8(front);
    assert(is_ascii_chars(front));
    assert(is_ascii_chars(mark));
    is_ascii_chars_encode_utf8(front);
    is_ascii_chars_encode_utf8(mark);
    let n = shim_mark().len() as int;
    assert(bytes.subrange(12, 12 + n) =~= shim_mark());
    assert(bytes_at(bytes, shim_mark(), 12));
}

/// A link to an installed command is known for one.
pub proof fn law_command_link_is_known(name: Seq<char>)
    ensures
        is_ours(OccupantView::Link("../libexec/bedit/current/"@ + name + "-rust"@)),
{
    let target = "../libexec/bedit/current/"@ + name + "-rust"@;
    reveal_strlit("../libexec/bedit/current/");
    reveal_strlit("libexec/bedit/current/");
    assert(target.subrange(3, 25) =~= "libexec/bedit/current/"@);
    assert(occurs_at(target, "libexec/bedit/current/"@, 3));
}

/// The directory and the name of a configuration.
pub open spec fn place_of_config(path: Seq<char>) -> Result<(Seq<char>, Seq<char>), FailureView> {
    match (parent_of(path), file_name_of(path)) {
        (None, _) => Err(bad_argument("config has no parent"@)),
        (Some(_), None) => Err(bad_argument("invalid config name"@)),
        (Some(directory), Some(name)) => Ok((directory, name)),
    }
}

/// The directory and the name of a configuration.
pub fn config_place(path: &str) -> (r: Result<(String, String), Failure>)
    ensures
        match (r, place_of_config(path@)) {
            (Ok((d, n)), Ok((e, m))) => d@ == e && n@ == m,
            (Err(e), Err(f)) => e@ == f,
            _ => false,
        },
{
    match parent(path) {
        None => Err(Failure::new(FailureKind::InvalidInput, "config has no parent")),
        Some(directory) => match file_name(path) {
            None => Err(Failure::new(FailureKind::InvalidInput, "invalid config name")),
            Some(name) => Ok((directory, name)),
        },
    }
}

/// The text of a configuration, which is empty where there is none.
pub fn config_text(read: FileRead) -> (r: Result<String, Failure>)
    ensures
        match (read, r) {
            (FileRead::Bytes(b), Ok(s)) => valid_utf8(b@) && s@ == decode_utf8(b@),
            (FileRead::Bytes(b), Err(e)) => !valid_utf8(b@) && e@ == fails(
                FailureKind::InvalidData,
                utf8_fault(b@),
            ),
            (FileRead::Missing, Ok(s)) => s@ == Seq::<char>::empty(),
            (FileRead::Failed(f), Err(e)) => e@ == f@,
            _ => false,
        },
{
    match read {
        FileRead::Bytes(b) => match decode(b) {
            Ok(s) => Ok(s),
            Err(m) => Err(Failure { kind: FailureKind::InvalidData, message: m }),
        },
        FileRead::Missing => Ok(String::new()),
        FileRead::Failed(f) => Err(f),
    }
}

/// The name of a policy.
pub open spec fn policy_text(policy: SudoHistoryPolicy) -> Seq<char> {
    match policy {
        SudoHistoryPolicy::RootAndUser => "sudo_history = \"root_and_user\""@,
        SudoHistoryPolicy::RootOnly => "sudo_history = \"root_only\""@,
    }
}

/// Whether a line of a configuration sets the policy.
pub open spec fn sets_policy(line: Seq<char>) -> bool {
    begins_with(trimmed_start(line, CharClass::Space), "sudo_history"@) && occurs(line, "="@)
}

/// The first `n` lines of a configuration with the policy set in them, where it was set first, and
/// whether it is.
pub open spec fn updated_part(lines: Seq<Seq<char>>, n: int, setting: Seq<char>) -> (
    Seq<Seq<char>>,
    bool,
)
    decreases n,
{
    if n <= 0 {
        (Seq::empty(), false)
    } else {
        let (before, written) = updated_part(lines, n - 1, setting);
        if !sets_policy(lines[n - 1]) {
            (before.push(lines[n - 1]), written)
        } else if written {
            (before, true)
        } else {
            (before.push(setting), true)
        }
    }
}

/// The lines of a configuration with the policy set in them.
pub open spec fn updated_lines(lines: Seq<Seq<char>>, setting: Seq<char>) -> Seq<Seq<char>> {
    let (all, written) = updated_part(lines, lines.len() as int, setting);
    if written {
        all
    } else {
        all.push(setting)
    }
}

/// Lines, each with a line end.
pub open spec fn ended(lines: Seq<Seq<char>>) -> Seq<char>
    decreases lines.len(),
{
    if lines.len() == 0 {
        Seq::empty()
    } else {
        ended(lines.drop_last()) + lines.last() + "\n"@
    }
}

/// A configuration with the policy set.
pub open spec fn updated_config(old: Seq<char>, policy: SudoHistoryPolicy) -> Seq<char> {
    ended(updated_lines(line_seq(old), policy_text(policy)))
}

fn check_setting(line: &str) -> (r: bool)
    ensures
        r == sets_policy(line@),
{
    starts_with(trim_start(line, CharClass::Space).as_str(), "sudo_history") && contains(line, "=")
}

fn push_line(text: &mut String, line: &str)
    ensures
        final(text)@ == old(text)@ + line@ + "\n"@,
{
    text.append(line);
    text.append("\n");
}

/// A configuration with the policy set.
pub fn update_config(old: &str, policy: SudoHistoryPolicy) -> (r: String)
    ensures
        r@ == updated_config(old@, policy),
{
    let setting: &str = match policy {
        SudoHistoryPolicy::RootAndUser => "sudo_history = \"root_and_user\"",
        SudoHistoryPolicy::RootOnly => "sudo_history = \"root_only\"",
    };
    let all: Vec<String> = lines(old);
    let ghost l = line_seq(old@);
    let mut out: String = String::new();
    let mut written: bool = false;
    let mut i: usize = 0;
    let ghost mut kept: Seq<Seq<char>> = Seq::empty();
    while i < all.len()
        invariant
            i <= all.len(),
            l == views(all@),
            (kept, written) == updated_part(l, i as int, setting@),
            out@ == ended(kept),
        decreases all.len() - i,
    {
        assert(l[i as int] == all@[i as int]@);
        let line: &str = all[i].as_str();
        if check_setting(line) {
            if !written {
                push_line(&mut out, setting);
                proof {
                    assert(kept.push(setting@).drop_last() =~= kept);
                    kept = kept.push(setting@);
                }
                written = true;
            }
        } else {
            push_line(&mut out, line);
            proof {
                assert(kept.push(line@).drop_last() =~= kept);
                kept = kept.push(line@);
            }
        }
        i += 1;
    }
    assert(l.len() == all@.len());
    if !written {
        push_line(&mut out, setting);
        assert(kept.push(setting@).drop_last() =~= kept);
    }
    out
}

/// What is written of a configuration: whether the old one is kept, and whether the new one is
/// written.
pub fn config_writes(old: &str, new: &str) -> (r: (bool, bool))
    ensures
        r.1 == (old@ != new@),
        r.0 == (old@ != new@ && old@.len() > 0),
{
    let changed: bool = !same(old, new);
    (changed && chars_of(old).len() > 0, changed)
}

proof fn lemma_single(h: Seq<char>, c: char, i: int)
    ensures
        occurs_at(h, seq![c], i) <==> 0 <= i < h.len() && h[i] == c,
{
    if 0 <= i < h.len() {
        assert(h.subrange(i, i + 1) =~= seq![h[i]]);
        assert(seq![c][0] == c);
        assert(seq![h[i]][0] == h[i]);
    }
}

spec fn is_one_line(s: Seq<char>) -> bool {
    forall|i: int| 0 <= i < s.len() ==> #[trigger] s[i] != '\n'
}

proof fn lemma_lines_are_lines(s: Seq<char>, start: int, k: int)
    requires
        0 <= start,
        0 <= k < lines_from(s, start).len(),
    ensures
        is_one_line(lines_from(s, start)[k]),
    decreases s.len() - start,
{
    lemma_first_occurrence(s, seq!['\n'], start);
    match first_occurrence(s, seq!['\n'], start) {
        Some(i) => {
            lemma_single(s, '\n', i);
            let line = s.subrange(start, i);
            assert(is_one_line(line)) by {
                assert forall|j: int| 0 <= j < line.len() implies #[trigger] line[j] != '\n' by {
                    lemma_single(s, '\n', start + j);
                }
            }
            if k > 0 {
                lemma_lines_are_lines(s, i + 1, k - 1);
                assert(lines_from(s, start)[k] == lines_from(s, i + 1)[k - 1]);
            } else {
                assert(lines_from(s, start)[0] == without_return(line));
            }
        },
        None => {
            let line = s.subrange(start, s.len() as int);
            assert forall|j: int| 0 <= j < line.len() implies #[trigger] line[j] != '\n' by {
                lemma_single(s, '\n', start + j);
            }
        },
    }
}

proof fn lemma_lines_split(a: Seq<char>, x: Seq<char>, start: int)
    requires
        0 <= start <= a.len(),
        a.len() == 0 || a.last() == '\n',
    ensures
        lines_from(a + x, start) == lines_from(a, start) + lines_from(a + x, a.len() as int),
    decreases a.len() - start,
{
    let t = a + x;
    if start < a.len() {
        let last = a.len() - 1;
        lemma_first_occurrence(a, seq!['\n'], start);
        lemma_single(a, '\n', last);
        let i = first_occurrence(a, seq!['\n'], start)->0;
        assert(first_occurrence(a, seq!['\n'], start) is Some);
        lemma_single(a, '\n', i);
        lemma_single(t, '\n', i);
        assert forall|j: int| start <= j < i implies !occurs_at(t, seq!['\n'], j) by {
            lemma_single(a, '\n', j);
            lemma_single(t, '\n', j);
        }
        lemma_first_occurrence_is(t, seq!['\n'], start, i);
        assert(t.subrange(start, i) =~= a.subrange(start, i));
        lemma_lines_split(a, x, i + 1);
        assert(lines_from(t, start) =~= lines_from(a, start) + lines_from(t, a.len() as int));
    } else {
        assert(lines_from(a, start) =~= Seq::empty());
        assert(lines_from(t, start) =~= Seq::<Seq<char>>::empty() + lines_from(t, start));
    }
}

spec fn returns_dropped(lines: Seq<Seq<char>>) -> Seq<Seq<char>> {
    lines.map(|i: int, line: Seq<char>| without_return(line))
}

proof fn lemma_ended_reads_back(lines: Seq<Seq<char>>)
    requires
        forall|i: int| 0 <= i < lines.len() ==> is_one_line(#[trigger] lines[i]),
    ensures
        line_seq(ended(lines)) == returns_dropped(lines),
        ended(lines).len() == 0 || ended(lines).last() == '\n',
    decreases lines.len(),
{
    reveal_strlit("\n");
    if lines.len() == 0 {
        assert(line_seq(ended(lines)) =~= returns_dropped(lines));
    } else {
        let front = lines.drop_last();
        let a = ended(front);
        let line = lines.last();
        lemma_ended_reads_back(front);
        let x = line + "\n"@;
        let t = a + x;
        assert(ended(lines) =~= t);
        lemma_lines_split(a, x, 0);
        let at = a.len() + line.len();
        assert(t[at as int] == '\n');
        lemma_single(t, '\n', at as int);
        assert forall|j: int| a.len() <= j < at implies !occurs_at(t, seq!['\n'], j) by {
            lemma_single(t, '\n', j);
            assert(t[j] == line[j - a.len()]);
        }
        lemma_first_occurrence_is(t, seq!['\n'], a.len() as int, at as int);
        assert(t.subrange(a.len() as int, at as int) =~= line);
        assert(lines_from(t, at as int + 1) =~= Seq::empty());
        assert(lines_from(t, a.len() as int) =~= seq![without_return(line)]);
        assert(returns_dropped(lines) =~= returns_dropped(front) + seq![without_return(line)]);
    }
}

proof fn lemma_trim_drops_space(s: Seq<char>, c: char)
    requires
        is_space(c),
    ensures
        trimmed(s.push(c)) == trimmed(s),
    decreases s.len(),
{
    let t = s.push(c);
    if s.len() == 0 {
        assert(t.subrange(1, 1) =~= Seq::empty());
        assert(t[0] == c);
        assert(trimmed_start(t, CharClass::Space) == trimmed_start(
            t.subrange(1, t.len() as int),
            CharClass::Space,
        ));
        assert(s =~= Seq::empty());
    } else if is_space(s[0]) {
        let rest = s.subrange(1, s.len() as int);
        assert(t.subrange(1, t.len() as int) =~= rest.push(c));
        assert(t[0] == s[0]);
        lemma_trim_drops_space(rest, c);
    } else {
        assert(t[0] == s[0]);
        assert(t.drop_last() =~= s);
    }
}

proof fn lemma_return_says_nothing(line: Seq<char>)
    ensures
        policy_line(without_return(line)) == policy_line(line),
{
    if line.len() > 0 && line.last() == '\r' {
        let s = line.drop_last();
        assert(line =~= s.push('\r'));
        reveal_strlit("#");
        assert("#"@ =~= seq!['#']);
        lemma_first_occurrence(s, "#"@, 0);
        lemma_first_occurrence(line, "#"@, 0);
        match first_occurrence(s, "#"@, 0) {
            Some(i) => {
                lemma_single(s, '#', i);
                lemma_single(line, '#', i);
                assert forall|j: int| 0 <= j < i implies !occurs_at(line, "#"@, j) by {
                    lemma_single(s, '#', j);
                    lemma_single(line, '#', j);
                }
                lemma_first_occurrence_is(line, "#"@, 0, i);
                assert(line.subrange(0, i) =~= s.subrange(0, i));
            },
            None => {
                assert forall|j: int| 0 <= j implies !occurs_at(line, "#"@, j) by {
                    lemma_single(s, '#', j);
                    lemma_single(line, '#', j);
                }
                assert(first_occurrence(line, "#"@, 0) is None);
                lemma_trim_drops_space(s, '\r');
            },
        }
    }
}

proof fn lemma_trim_is_inside(s: Seq<char>) -> (at: int)
    ensures
        0 <= at,
        at + trimmed(s).len() <= s.len(),
        trimmed(s) == s.subrange(at, at + trimmed(s).len()),
        trimmed_start(s, CharClass::Space) == s.subrange(at, s.len() as int),
        trimmed(s).len() > 0 ==> !is_space(trimmed(s)[0]),
    decreases s.len(),
{
    if s.len() > 0 && is_space(s[0]) {
        let rest = s.subrange(1, s.len() as int);
        let at = lemma_trim_is_inside(rest);
        assert(rest.subrange(at, at + trimmed(rest).len()) =~= s.subrange(
            at + 1,
            at + 1 + trimmed(s).len(),
        ));
        assert(rest.subrange(at, rest.len() as int) =~= s.subrange(at + 1, s.len() as int));
        at + 1
    } else {
        lemma_trim_end_is_front(s);
        assert(s.subrange(0, s.len() as int) =~= s);
        0
    }
}

proof fn lemma_trim_end_is_front(s: Seq<char>)
    ensures
        trimmed_end(s, CharClass::Space).len() <= s.len(),
        trimmed_end(s, CharClass::Space) == s.subrange(
            0,
            trimmed_end(s, CharClass::Space).len() as int,
        ),
    decreases s.len(),
{
    if s.len() > 0 && is_space(s.last()) {
        lemma_trim_end_is_front(s.drop_last());
        let n = trimmed_end(s, CharClass::Space).len() as int;
        assert(s.drop_last().subrange(0, n) =~= s.subrange(0, n));
    } else {
        assert(s.subrange(0, s.len() as int) =~= s);
    }
}

proof fn lemma_trim_start_of_front(s: Seq<char>, n: int)
    requires
        0 <= n <= s.len(),
        trimmed_start(s.subrange(0, n), CharClass::Space).len() > 0,
    ensures
        ({
            let front = trimmed_start(s.subrange(0, n), CharClass::Space);
            let whole = trimmed_start(s, CharClass::Space);
            front.len() <= whole.len() && front == whole.subrange(0, front.len() as int)
        }),
    decreases n,
{
    let f = s.subrange(0, n);
    if n > 0 {
        assert(f[0] == s[0]);
        if is_space(s[0]) {
            let rest = s.subrange(1, s.len() as int);
            assert(f.subrange(1, n) =~= rest.subrange(0, n - 1));
            lemma_trim_start_of_front(rest, n - 1);
        }
    }
}

proof fn lemma_setting_is_seen(line: Seq<char>)
    requires
        policy_line(line) is Setting,
    ensures
        sets_policy(line),
{
    reveal_strlit("#");
    reveal_strlit("=");
    reveal_strlit("sudo_history");
    assert("="@ =~= seq!['=']);
    lemma_first_occurrence(line, "#"@, 0);
    let n = match first_occurrence(line, "#"@, 0) {
        Some(i) => i,
        None => line.len() as int,
    };
    let front = line.subrange(0, n);
    assert(line.subrange(0, line.len() as int) =~= line);
    let content = line_content(line);
    assert(content == trimmed(front));
    let at = lemma_trim_is_inside(front);
    lemma_first_occurrence(content, "="@, 0);
    let e = first_occurrence(content, "="@, 0)->0;
    lemma_single(content, '=', e);
    assert(line[at + e] == '=');
    lemma_single(line, '=', at + e);
    assert(occurs(line, "="@));
    let key = content.subrange(0, e);
    assert(trimmed(key) == "sudo_history"@);
    let inner = lemma_trim_is_inside(key);
    assert(key.len() > 0);
    assert(key[0] == content[0]);
    assert(trimmed_start(key, CharClass::Space) == key);
    lemma_trim_end_is_front(key);
    let name = "sudo_history"@;
    let k = name.len() as int;
    assert(name == key.subrange(0, k));
    assert(content.subrange(0, k) =~= name);
    lemma_trim_start_of_front(line, n);
    let start = trimmed_start(front, CharClass::Space);
    let whole = trimmed_start(line, CharClass::Space);
    assert(start == front.subrange(at, front.len() as int));
    assert(start.subrange(0, k) =~= content.subrange(0, k));
    assert(whole.subrange(0, k) =~= start.subrange(0, k));
    assert(begins_with(whole, name));
}

proof fn lemma_policy_is_read(policy: SudoHistoryPolicy)
    ensures
        is_one_line(policy_text(policy)),
        ({
            &&& policy_line(policy_text(policy)) matches PolicyLine::Setting(v)
            &&& policy_value(v) == Some(policy)
        }),
{
    reveal_strlit("#");
    reveal_strlit("=");
    reveal_strlit("sudo_history");
    reveal_strlit("sudo_history = \"root_and_user\"");
    reveal_strlit("sudo_history = \"root_only\"");
    reveal_strlit("\"root_and_user\"");
    reveal_strlit("\"user\"");
    reveal_strlit("\"root_only\"");
    reveal_strlit("\"root\"");
    let line = policy_text(policy);
    assert("#"@ =~= seq!['#']);
    assert("="@ =~= seq!['=']);
    lemma_first_occurrence(line, "#"@, 0);
    assert forall|j: int| 0 <= j implies !occurs_at(line, "#"@, j) by {
        lemma_single(line, '#', j);
    }
    assert(first_occurrence(line, "#"@, 0) is None);
    assert(line[0] == 's');
    assert(line.last() == '"');
    assert(trimmed(line) == line);
    lemma_single(line, '=', 13);
    assert forall|j: int| 0 <= j < 13 implies !occurs_at(line, "="@, j) by {
        lemma_single(line, '=', j);
    }
    lemma_first_occurrence_is(line, "="@, 0, 13);
    let key = line.subrange(0, 13);
    assert(key[0] == 's');
    assert(key.last() == ' ');
    assert(key.drop_last() =~= "sudo_history"@);
    assert("sudo_history"@.last() == 'y');
    reveal_with_fuel(trimmed_end, 2);
    assert(trimmed(key) == "sudo_history"@);
    let value = line.subrange(14, line.len() as int);
    assert(value[0] == ' ');
    let inner = value.subrange(1, value.len() as int);
    assert(inner[0] == '"');
    reveal_with_fuel(trimmed_start, 2);
    assert(trimmed_start(value, CharClass::Space) == inner);
    assert(inner.last() == '"');
    assert(trimmed(value) == inner);
    match policy {
        SudoHistoryPolicy::RootAndUser => {
            assert(inner =~= "\"root_and_user\""@);
        },
        SudoHistoryPolicy::RootOnly => {
            assert(inner =~= "\"root_only\""@);
            assert(inner.len() == 11 && "\"root_and_user\""@.len() == 15 && "\"user\""@.len() == 6);
        },
    }
}

spec fn all_other(lines: Seq<Seq<char>>, from: int) -> bool {
    forall|i: int| from <= i < lines.len() ==> policy_line(#[trigger] lines[i]) is Other
}

proof fn lemma_others_say_nothing(
    lines: Seq<Seq<char>>,
    from: int,
    found: Option<SudoHistoryPolicy>,
)
    requires
        0 <= from <= lines.len(),
        all_other(lines, from),
    ensures
        policy_from(lines, from, found) == Ok::<SudoHistoryPolicy, FailureView>(
            match found {
                Some(p) => p,
                None => SudoHistoryPolicy::RootAndUser,
            },
        ),
    decreases lines.len() - from,
{
    if from < lines.len() {
        assert(policy_line(lines[from]) is Other);
        lemma_others_say_nothing(lines, from + 1, found);
    }
}

spec fn only_setting(lines: Seq<Seq<char>>, at: int, policy: SudoHistoryPolicy) -> bool {
    &&& 0 <= at < lines.len()
    &&& policy_line(lines[at]) matches PolicyLine::Setting(v)
    &&& policy_value(v) == Some(policy)
    &&& forall|i: int|
        0 <= i < lines.len() && i != at ==> policy_line(#[trigger] lines[i]) is Other
}

proof fn lemma_only_setting_counts(
    lines: Seq<Seq<char>>,
    from: int,
    at: int,
    policy: SudoHistoryPolicy,
)
    requires
        only_setting(lines, at, policy),
        0 <= from <= at,
    ensures
        policy_from(lines, from, None) == Ok::<SudoHistoryPolicy, FailureView>(policy),
    decreases at - from,
{
    if from < at {
        assert(policy_line(lines[from]) is Other);
        lemma_only_setting_counts(lines, from + 1, at, policy);
    } else {
        lemma_others_say_nothing(lines, from + 1, Some(policy));
    }
}

proof fn lemma_updated_part(lines: Seq<Seq<char>>, n: int, policy: SudoHistoryPolicy)
    requires
        0 <= n <= lines.len(),
        forall|i: int| 0 <= i < lines.len() ==> !(policy_line(#[trigger] lines[i]) is Malformed),
        forall|i: int| 0 <= i < lines.len() ==> is_one_line(#[trigger] lines[i]),
    ensures
        ({
            let (all, written) = updated_part(lines, n, policy_text(policy));
            &&& forall|i: int| 0 <= i < all.len() ==> is_one_line(#[trigger] all[i])
            &&& written ==> exists|at: int| only_setting(all, at, policy)
            &&& !written ==> all_other(all, 0)
        }),
    decreases n,
{
    if n > 0 {
        lemma_updated_part(lines, n - 1, policy);
        lemma_policy_is_read(policy);
        let setting = policy_text(policy);
        let (before, was) = updated_part(lines, n - 1, setting);
        let (all, written) = updated_part(lines, n, setting);
        let line = lines[n - 1];
        if !sets_policy(line) {
            if policy_line(line) is Setting {
                lemma_setting_is_seen(line);
            }
            assert(policy_line(line) is Other);
            if was {
                let at = choose|at: int| only_setting(before, at, policy);
                assert(only_setting(all, at, policy));
            }
        } else if !was {
            assert(only_setting(all, before.len() as int, policy));
        }
    }
}

/// The policy that is written into a configuration is the one that is read from it, unless the
/// configuration names the policy on a line without a value.
pub proof fn law_written_policy_is_read_back(old: Seq<char>, policy: SudoHistoryPolicy)
    requires
        forall|i: int|
            0 <= i < line_seq(old).len() ==> !(policy_line(#[trigger] line_seq(old)[i])
                is Malformed),
    ensures
        policy_from(line_seq(updated_config(old, policy)), 0, None) == Ok::<
            SudoHistoryPolicy,
            FailureView,
        >(policy),
{
    let lines = line_seq(old);
    let setting = policy_text(policy);
    assert forall|i: int| 0 <= i < lines.len() implies is_one_line(#[trigger] lines[i]) by {
        lemma_lines_are_lines(old, 0, i);
    }
    lemma_updated_part(lines, lines.len() as int, policy);
    lemma_policy_is_read(policy);
    let (part, written) = updated_part(lines, lines.len() as int, setting);
    let all = updated_lines(lines, setting);
    let at = if written {
        choose|at: int| only_setting(part, at, policy)
    } else {
        part.len() as int
    };
    assert(only_setting(all, at, policy));
    assert forall|i: int| 0 <= i < all.len() implies is_one_line(#[trigger] all[i]) by {
    }
    lemma_ended_reads_back(all);
    let read = returns_dropped(all);
    assert forall|i: int| 0 <= i < read.len() implies policy_line(#[trigger] read[i])
        == policy_line(all[i]) by {
        lemma_return_says_nothing(all[i]);
    }
    assert(only_setting(read, at, policy));
    lemma_only_setting_counts(read, 0, at, policy);
}

proof fn lemma_colon_cut(a: Seq<char>, b: Seq<char>)
    requires
        forall|i: int| 0 <= i < a.len() ==> #[trigger] a[i] != ':',
    ensures
        cut_at(a + seq![':'] + b, ":"@) == Some((a, b)),
        cut_at(a, ":"@) is None,
{
    reveal_strlit(":");
    assert(":"@ =~= seq![':']);
    lemma_ends_cleanly(a, ":"@);
    lemma_pieces_step(a, ":"@, b);
    assert(!occurs(a, ":"@)) by {
        if occurs(a, ":"@) {
            let i = choose|i: int| occurs_at(a, ":"@, i);
            assert(a.subrange(i, i + 1)[0] == ':');
        }
    }
    lemma_pieces_last(a, ":"@);
}

/// A row of the registry is an editor and its wrapper with a colon between them. Both are letters,
/// digits and hyphens, and neither is empty; everything else is refused.
pub proof fn law_row_is_an_editor_and_its_wrapper(editor: Seq<char>, wrapper: Seq<char>)
    requires
        forall|i: int| 0 <= i < editor.len() ==> #[trigger] editor[i] != ':',
    ensures
        ({
            let safe = |s: Seq<char>|
                s.len() > 0 && forall|i: int|
                    0 <= i < s.len() ==> 'a' <= #[trigger] s[i] <= 'z' || 'A' <= s[i] <= 'Z' || '0'
                        <= s[i] <= '9' || s[i] == '-';
            match row_of(editor + seq![':'] + wrapper) {
                Ok(row) => safe(editor) && safe(wrapper) && row.editor == editor && row.wrapper
                    == wrapper,
                Err(f) => !(safe(editor) && safe(wrapper)) && f.kind == FailureKind::InvalidInput,
            }
        }),
        row_of(editor) is Err,
{
    lemma_colon_cut(editor, wrapper);
    assert(is_safe_name(editor) <==> editor.len() > 0 && forall|i: int|
        0 <= i < editor.len() ==> 'a' <= #[trigger] editor[i] <= 'z' || 'A' <= editor[i] <= 'Z' || '0'
            <= editor[i] <= '9' || editor[i] == '-') by {
        assert forall|i: int| 0 <= i < editor.len() implies is_safe_char(#[trigger] editor[i]) == (
        'a' <= editor[i] <= 'z' || 'A' <= editor[i] <= 'Z' || '0' <= editor[i] <= '9' || editor[i]
            == '-') by {}
    }
    assert(is_safe_name(wrapper) <==> wrapper.len() > 0 && forall|i: int|
        0 <= i < wrapper.len() ==> 'a' <= #[trigger] wrapper[i] <= 'z' || 'A' <= wrapper[i] <= 'Z'
            || '0' <= wrapper[i] <= '9' || wrapper[i] == '-') by {
        assert forall|i: int| 0 <= i < wrapper.len() implies is_safe_char(#[trigger] wrapper[i]) == (
        'a' <= wrapper[i] <= 'z' || 'A' <= wrapper[i] <= 'Z' || '0' <= wrapper[i] <= '9'
            || wrapper[i] == '-') by {}
    }
}

/// The registry has an editor for each of its rows that is not empty, in their order; one bad row
/// refuses the whole, with what is wrong with the first such.
pub proof fn law_every_row_gives_its_editor(rows: Seq<Seq<char>>, n: int)
    requires
        0 <= n <= rows.len(),
    ensures
        match rows_part(rows, n) {
            Ok(all) => {
                &&& forall|i: int|
                    0 <= i < n && (#[trigger] rows[i]).len() > 0 ==> row_of(rows[i]) is Ok
                &&& all == rows.take(n).filter(|r: Seq<char>| r.len() > 0).map(
                    |i: int, r: Seq<char>| row_of(r)->Ok_0,
                )
            },
            Err(f) => exists|i: int|
                0 <= i < n && (#[trigger] rows[i]).len() > 0 && row_of(rows[i]) == Err::<
                    EditorRowView,
                    FailureView,
                >(f) && forall|j: int|
                    0 <= j < i && (#[trigger] rows[j]).len() > 0 ==> row_of(rows[j]) is Ok,
        },
    decreases n,
{
    reveal(Seq::filter);
    let filled = |r: Seq<char>| r.len() > 0;
    let row = |i: int, r: Seq<char>| row_of(r)->Ok_0;
    let kept = rows.take(n).filter(filled);
    if n > 0 {
        law_every_row_gives_its_editor(rows, n - 1);
        assert(rows.take(n).drop_last() =~= rows.take(n - 1));
        assert(rows.take(n).last() == rows[n - 1]);
        let before = rows.take(n - 1).filter(filled);
        if filled(rows[n - 1]) {
            assert(kept == before.push(rows[n - 1]));
            assert(kept.map(row) =~= before.map(row).push(row_of(rows[n - 1])->Ok_0));
        }
    } else {
        assert(kept.len() == 0);
        assert(kept.map(row) =~= Seq::<EditorRowView>::empty());
    }
}

/// What the helper is asked is what stands in its ten arguments: the action, the prefix, the
/// configuration or a hyphen, the mode, the policy, the source, the directory of the manual, the
/// editors, and whether to copy and to purge. Paths are absolute.
pub proof fn law_request_is_what_the_arguments_say(
    args: Seq<Seq<char>>,
    own: Option<(bool, Option<Seq<char>>)>,
)
    ensures
        request_read(args, own) matches Ok(r) ==> {
            &&& args.len() == 10
            &&& r.install <==> args[0] == "install"@
            &&& !r.install <==> args[0] == "uninstall"@
            &&& r.prefix == args[1] && args[1].len() > 0 && args[1][0] == '/'
            &&& r.config is None <==> args[2] == "-"@
            &&& r.config matches Some(c) ==> c == args[2] && c.len() > 0 && c[0] == '/'
            &&& r.mode == InstallMode::Named <==> args[3] == "named"@
            &&& r.mode == InstallMode::Transparent <==> args[3] == "transparent"@
            &&& r.policy == SudoHistoryPolicy::RootAndUser <==> args[4] == "root_and_user"@
            &&& r.policy == SudoHistoryPolicy::RootOnly <==> args[4] == "root_only"@
            &&& r.source == args[5] && args[5].len() > 0 && args[5][0] == '/'
            &&& r.man_root == args[6] && args[6].len() > 0 && args[6][0] == '/'
            &&& editors_of(args[7]) == Ok::<Seq<EditorRowView>, FailureView>(r.editors)
            &&& r.copy <==> args[8] == "1"@
            &&& !r.copy <==> args[8] == "0"@
            &&& r.purge <==> args[9] == "1"@
            &&& !r.purge <==> args[9] == "0"@
            &&& own matches Some((root, home)) ==> !root && args[2] == "-"@ && (
            home matches Some(h) && is_within(args[1], h) && components(args[1]) != components(h))
        },
        request_read(args, own) is Err ==> {
            ||| args.len() != 10
            ||| !(args[1].len() > 0 && args[1][0] == '/')
            ||| args[2] != "-"@ && !(args[2].len() > 0 && args[2][0] == '/')
            ||| own is Some && own_fault(own, args[1], args[2] != "-"@) is Some
            ||| args[3] != "named"@ && args[3] != "transparent"@
            ||| args[4] != "root_and_user"@ && args[4] != "root_only"@
            ||| !(args[5].len() > 0 && args[5][0] == '/')
            ||| !(args[6].len() > 0 && args[6][0] == '/')
            ||| editors_of(args[7]) is Err
            ||| args[8] != "0"@ && args[8] != "1"@
            ||| args[9] != "0"@ && args[9] != "1"@
            ||| args[0] != "install"@ && args[0] != "uninstall"@
        },
{
    reveal_strlit("install");
    reveal_strlit("uninstall");
    reveal_strlit("named");
    reveal_strlit("transparent");
    reveal_strlit("root_and_user");
    reveal_strlit("root_only");
    reveal_strlit("0");
    reveal_strlit("1");
    assert("install"@.len() != "uninstall"@.len());
    assert("named"@.len() != "transparent"@.len());
    assert("root_and_user"@.len() != "root_only"@.len());
    assert("0"@[0] != "1"@[0]);
}

/// A user installs below the own home directory: not for everyone, not with a configuration of the
/// system, and not into the home directory itself.
pub proof fn law_own_install_stays_at_home(
    root: bool,
    home: Option<Seq<char>>,
    prefix: Seq<char>,
    with_config: bool,
)
    ensures
        own_install_fault(root, home, prefix, with_config) is None <==> !root && !with_config && (
        home matches Some(h) && is_within(prefix, h) && components(prefix) != components(h)),
        own_install_fault(root, home, prefix, with_config) matches Some(f) ==> {
            &&& root || with_config <==> f.kind == FailureKind::Unsupported
            &&& !root && !with_config && home is None ==> f.kind == FailureKind::InvalidInput
            &&& !root && !with_config && home is Some ==> f.kind == FailureKind::PermissionDenied
        },
{
}

/// What is taken out before a file or a link takes its place: what is missing is left alone, what
/// cannot be looked at is refused, and what is not as it should be is refused.
pub proof fn law_only_the_expected_is_taken(stat: EntryStat, message: Seq<char>)
    ensures
        plain_only(stat, message) is Leave <==> stat is Missing,
        link_only(stat, message) is Leave <==> stat is Missing,
        plain_only(stat, message) is Take <==> (stat matches EntryStat::Found { mode, links } && mode
            & 0o170000 == 0o100000 && links == 1),
        link_only(stat, message) is Take <==> (stat matches EntryStat::Found { mode, links } && mode
            & 0o170000 == 0o120000),
        stat matches EntryStat::Failed(f) ==> plain_only(stat, message) == EntryView::Refuse(f@)
            && link_only(stat, message) == EntryView::Refuse(f@),
{
}

/// What is looked at before a name is taken or given back: a link is followed, a plain file is read,
/// and what is neither is refused; a plain file with another name is not overwritten.
pub proof fn law_what_is_read_before_a_name_is_taken(stat: EntryStat)
    ensures
        stat is Missing ==> reads_before_install(stat) == Ok::<ToRead, FailureView>(ToRead::Nothing)
            && reads_before_uninstall(stat) == Ok::<ToRead, FailureView>(ToRead::Nothing),
        stat matches EntryStat::Failed(f) ==> reads_before_install(stat) == Err::<
            ToRead,
            FailureView,
        >(f@) && reads_before_uninstall(stat) == Err::<ToRead, FailureView>(f@),
        stat matches EntryStat::Found { mode, links } ==> {
            let kind = mode & 0o170000;
            &&& kind == 0o120000 <==> reads_before_install(stat) == Ok::<ToRead, FailureView>(
                ToRead::Link,
            )
            &&& kind == 0o120000 <==> reads_before_uninstall(stat) == Ok::<ToRead, FailureView>(
                ToRead::Link,
            )
            &&& kind == 0o100000 && links == 1 <==> reads_before_install(stat) == Ok::<
                ToRead,
                FailureView,
            >(ToRead::File)
            &&& kind == 0o100000 <==> reads_before_uninstall(stat) == Ok::<ToRead, FailureView>(
                ToRead::File,
            )
            &&& kind != 0o120000 && kind != 0o100000 ==> reads_before_install(stat) is Err
                && reads_before_uninstall(stat) is Err
        },
{
}

/// A name is ours where a link of ours or a shim stands at it. Installing takes what is ours away,
/// sets aside a file that is not, and refuses a link that is not.
pub proof fn law_only_what_is_ours_is_removed(o: OccupantView, a: Seq<char>, b: Seq<char>)
    ensures
        fate_before_install(o) == Ok::<Fate, FailureView>(Fate::Remove) <==> is_ours(o),
        fate_before_install(o) == Ok::<Fate, FailureView>(Fate::Keep) <==> o is Nothing,
        fate_before_install(o) == Ok::<Fate, FailureView>(Fate::SetAside) <==> o is File && !is_ours(
            o,
        ),
        fate_before_install(o) is Err <==> o is Link && !is_ours(o),
        is_ours(OccupantView::Link(a + "libexec/bedit/current/"@ + b)),
        !is_ours(OccupantView::Nothing),
{
    lemma_occurs_between(a, "libexec/bedit/current/"@, b);
}

/// The link to the version in use leads into the versions and not out of them.
pub proof fn law_current_version_is_a_version(target: Seq<char>, name: Seq<char>)
    ensures
        is_managed_current(target) ==> exists|rest: Seq<char>|
            target == #[trigger] ("versions/"@ + rest),
        is_managed_current(target) ==> forall|a: Seq<char>, b: Seq<char>|
            target != #[trigger] (a + ".."@ + b),
        !occurs("versions/"@ + name, ".."@) ==> is_managed_current("versions/"@ + name),
{
    law_occurrence_splits_a_text(target, "versions/"@);
    law_occurrence_splits_a_text(target, ".."@);
    let whole = "versions/"@ + name;
    assert(whole.subrange(0, "versions/"@.len() as int) =~= "versions/"@);
}

/// Every editor that is supported has its wrapper among the commands that are installed.
pub proof fn law_every_supported_editor_has_its_command(i: int)
    requires
        0 <= i < registry().len(),
        registry()[i].supported,
    ensures
        command_names().contains(registry()[i].named_wrapper),
        command_names().contains("bedit"@),
{
    let c = command_names();
    assert(c[0] == "bedit"@ && c[1] == "bed"@ && c[2] == "bvi"@ && c[3] == "bnvim"@ && c[4]
        == "bnano"@ && c[5] == "bpico"@ && c[6] == "bemacs"@);
}

proof fn lemma_in_the_sum<T>(a: Seq<T>, b: Seq<T>, x: T)
    ensures
        a.contains(x) || b.contains(x) ==> (a + b).contains(x),
{
    if a.contains(x) {
        let i = choose|i: int| 0 <= i < a.len() && a[i] == x;
        assert((a + b)[i] == x);
    } else if b.contains(x) {
        let i = choose|i: int| 0 <= i < b.len() && b[i] == x;
        assert((a + b)[a.len() + i] == x);
    }
}

/// An installation does what was asked for: every command is linked and has its manual page and,
/// where payloads are copied, its payload; the record of the installation is written; each editor
/// gets its shim, or its own program back; and the configuration is written where one is named.
pub proof fn law_installation_does_all_that_is_asked(
    r: RequestView,
    version: Seq<char>,
    instance: Seq<char>,
    name: Seq<char>,
    k: int,
)
    requires
        command_names().contains(name),
    ensures
        ({
            let steps = install_steps(r, version, instance);
            &&& steps.contains(
                (InstallStepView::LinkCommand {
                    name,
                    target: "../libexec/bedit/current/"@ + name + "-rust"@,
                }),
            )
            &&& steps.contains(InstallStepView::InstallManual(name + ".1"@))
            &&& r.copy ==> steps.contains(
                (InstallStepView::CopyPayload { instance, file: name + "-rust"@ }),
            ) && steps.contains(InstallStepView::CheckPayload(name + "-rust"@)) && steps.contains(
                InstallStepView::LinkCurrent("versions/"@ + instance),
            )
            &&& !r.copy ==> steps.contains(InstallStepView::RequireCurrent)
            &&& steps.contains(
                InstallStepView::WriteManifest(manifest_text(r.mode, version, r.editors)),
            )
            &&& 0 <= k < r.editors.len() ==> steps.contains(
                match r.mode {
                    InstallMode::Transparent => InstallStepView::WriteShim {
                        editor: r.editors[k].editor,
                        text: shim_text(r.editors[k], r.prefix),
                    },
                    InstallMode::Named => InstallStepView::RestoreEditor(r.editors[k].editor),
                },
            )
            &&& r.config matches Some(path) ==> steps.contains(
                (InstallStepView::WriteConfig { path, policy: r.policy }),
            )
        }),
{
    let at = choose|at: int| 0 <= at < command_names().len() && command_names()[at] == name;
    let none = Seq::<char>::empty();
    let links = command_steps(CommandStep::LinkCommand, command_names(), none);
    let pages = command_steps(CommandStep::InstallManual, command_names(), none);
    let copies = command_steps(CommandStep::CopyPayload, command_names(), instance);
    let checks = command_steps(CommandStep::CheckPayload, command_names(), none);
    let shims = editor_steps(r.editors, r.mode, r.prefix);
    let configs = config_steps(r.config, r.policy);
    let payloads = payload_steps(r.copy, instance);
    let record = InstallStepView::WriteManifest(manifest_text(r.mode, version, r.editors));
    let a = seq![InstallStepView::OpenPlaces] + command_steps(
        CommandStep::SetAsideLegacy,
        command_names(),
        none,
    ) + command_steps(CommandStep::DropStale, stale_names(), none) + seq![
        InstallStepView::OpenManual,
    ];
    let b = a + payloads;
    let c = b + seq![record];
    let d = c + links;
    let e = d + pages;
    let f = e + shims;
    let g = f + configs;
    let first = checking_steps(r.copy);
    let steps = install_steps(r, version, instance);
    assert(steps == first + g);
    assert forall|x: InstallStepView|
        (first.contains(x) || payloads.contains(x) || seq![record].contains(x) || links.contains(x)
            || pages.contains(x) || shims.contains(x) || configs.contains(x)) implies
        #[trigger] steps.contains(x) by {
        lemma_in_the_sum(a, payloads, x);
        lemma_in_the_sum(b, seq![record], x);
        lemma_in_the_sum(c, links, x);
        lemma_in_the_sum(d, pages, x);
        lemma_in_the_sum(e, shims, x);
        lemma_in_the_sum(f, configs, x);
        lemma_in_the_sum(first, g, x);
    }
    assert(links[at] == InstallStepView::LinkCommand {
        name,
        target: "../libexec/bedit/current/"@ + name + "-rust"@,
    });
    assert(links.contains(links[at]));
    assert(pages[at] == InstallStepView::InstallManual(name + ".1"@));
    assert(pages.contains(pages[at]));
    assert(seq![record][0] == record);
    assert(seq![record].contains(record));
    if r.copy {
        assert(copies[at] == InstallStepView::CopyPayload { instance, file: name + "-rust"@ });
        assert(payloads[at] == copies[at]);
        assert(payloads.contains(payloads[at]));
        assert(payloads.last() == InstallStepView::LinkCurrent("versions/"@ + instance));
        assert(payloads.contains(payloads.last()));
        assert(first[at + 1] == checks[at]);
        assert(first.contains(first[at + 1]));
    } else {
        assert(payloads[0] == InstallStepView::RequireCurrent);
        assert(payloads.contains(payloads[0]));
    }
    if 0 <= k < r.editors.len() {
        assert(shims[k] == editor_step(r.editors[k], r.mode, r.prefix));
        assert(shims.contains(shims[k]));
    }
    if r.config is Some {
        assert(configs.contains(configs[0]));
    }
}

/// Removing an installation gives back every name that it took and takes nothing else out: the
/// commands, the editors that were named, and those of earlier versions; the payloads go with their
/// record, and the configuration goes only where that is asked for.
pub proof fn law_removal_does_all_that_is_asked(
    r: RequestView,
    found: Installed,
    name: Seq<char>,
    path: Seq<char>,
)
    ensures
        ({
            let steps = uninstall_steps(r, found);
            &&& steps.contains(UninstallStepView::RestoreName(name)) <==> found.commands && (
            command_names().contains(name) || editor_names(r.editors).contains(name)
                || legacy_editors().contains(name))
            &&& steps.contains(UninstallStepView::RemovePayloads) <==> found.manifest
            &&& steps.contains(UninstallStepView::RemoveConfig(path)) <==> r.purge && r.config
                == Some(path)
        }),
{
    let steps = uninstall_steps(r, found);
    let a = name_steps(command_names());
    let b = name_steps(editor_names(r.editors));
    let c = name_steps(legacy_editors());
    let names = name_part(r, found);
    let payloads = payload_part(found);
    let configs = config_part(r);
    let step = UninstallStepView::RestoreName(name);
    lemma_named_steps(command_names(), name);
    lemma_named_steps(editor_names(r.editors), name);
    lemma_named_steps(legacy_editors(), name);
    assert forall|x: UninstallStepView| #[trigger] steps.contains(x) == (names.contains(x)
        || payloads.contains(x) || configs.contains(x)) by {
        lemma_sum_contains(names, payloads, x);
        lemma_sum_contains(names + payloads, configs, x);
    }
    if found.commands {
        lemma_sum_contains(a, b, step);
        lemma_sum_contains(a + b, c, step);
    }
    if found.manifest {
        assert(payloads.last() == UninstallStepView::RemovePayloads);
        assert(payloads.contains(payloads.last()));
    }
    if r.purge && r.config is Some {
        assert(configs[0] == UninstallStepView::RemoveConfig(r.config->0));
        assert(configs.contains(configs[0]));
    }
}

proof fn lemma_sum_contains<T>(a: Seq<T>, b: Seq<T>, x: T)
    ensures
        (a + b).contains(x) <==> a.contains(x) || b.contains(x),
{
    lemma_in_the_sum(a, b, x);
    if (a + b).contains(x) {
        let i = choose|i: int| 0 <= i < (a + b).len() && (a + b)[i] == x;
        if i < a.len() {
            assert(a[i] == x);
        } else {
            assert(b[i - a.len()] == x);
        }
    }
}

proof fn lemma_named_steps(names: Seq<Seq<char>>, name: Seq<char>)
    ensures
        name_steps(names).contains(UninstallStepView::RestoreName(name)) <==> names.contains(name),
{
    let steps = name_steps(names);
    if names.contains(name) {
        let i = choose|i: int| 0 <= i < names.len() && names[i] == name;
        assert(steps[i] == UninstallStepView::RestoreName(name));
    }
    if steps.contains(UninstallStepView::RestoreName(name)) {
        let i = choose|i: int|
            0 <= i < steps.len() && steps[i] == UninstallStepView::RestoreName(name);
        assert(names[i] == name);
    }
}

/// A shim names its editor and starts the wrapper below the prefix.
pub proof fn law_shim_starts_the_wrapper(row: EditorRowView, prefix: Seq<char>)
    ensures
        occurs(shim_text(row, prefix), "\nBEDIT_EDITOR_ALIAS='"@ + row.editor + "'\n"@),
        finishes_with(
            shim_text(row, prefix),
            "\nexec '"@ + prefix + "/libexec/bedit/current/"@ + row.wrapper + "-rust' \"$@\"\n"@,
        ),
        begins_with(shim_text(row, prefix), "#!/bin/sh\n"@),
{
    reveal_strlit("\nBEDIT_EDITOR_ALIAS='");
    reveal_strlit("'\n");
    reveal_strlit("\nexec '");
    reveal_strlit("#!/bin/sh\n");
    reveal_strlit("#!/bin/sh\n# Bedit transparent editor shim\nset -eu\nBEDIT_EDITOR_ALIAS='");
    reveal_strlit("'\nBEDIT_SHIM_DIR='");
    reveal_strlit("'\nexport BEDIT_EDITOR_ALIAS BEDIT_SHIM_DIR\nexec '");
    let head = "#!/bin/sh\n# Bedit transparent editor shim\nset -eu\nBEDIT_EDITOR_ALIAS='"@;
    let second = "'\nBEDIT_SHIM_DIR='"@;
    let third = "'\nexport BEDIT_EDITOR_ALIAS BEDIT_SHIM_DIR\nexec '"@;
    let text = shim_text(row, prefix);
    let end = prefix + "/libexec/bedit/current/"@ + row.wrapper + "-rust' \"$@\"\n"@;
    let bin = joined_path(prefix, "bin"@);
    let alias = "\nBEDIT_EDITOR_ALIAS='"@ + row.editor + "'\n"@;
    let start = "\nexec '"@ + prefix + "/libexec/bedit/current/"@ + row.wrapper
        + "-rust' \"$@\"\n"@;
    let h = head.len() - "\nBEDIT_EDITOR_ALIAS='"@.len();
    assert(head.skip(h) =~= "\nBEDIT_EDITOR_ALIAS='"@);
    let t = third.len() - "\nexec '"@.len();
    assert(third.skip(t) =~= "\nexec '"@);
    let rest = second.skip(2) + bin + third + end;
    assert(text =~= head.take(h) + alias + rest);
    lemma_occurs_between(head.take(h), alias, rest);
    let front = head + row.editor + second + bin + third.take(t);
    assert(start =~= "\nexec '"@ + end);
    assert(text =~= front + start);
    assert(text.subrange(front.len() as int, text.len() as int) =~= start);
    assert(text.subrange(0, 10) =~= "#!/bin/sh\n"@);
}

proof fn lemma_other_lines_stay(lines: Seq<Seq<char>>, n: int, setting: Seq<char>)
    requires
        0 <= n <= lines.len(),
        sets_policy(setting),
    ensures
        ({
            let (all, written) = updated_part(lines, n, setting);
            let others = |line: Seq<char>| !sets_policy(line);
            let own = |line: Seq<char>| sets_policy(line);
            &&& all.filter(others) == lines.take(n).filter(others)
            &&& all.filter(own) == if written {
                seq![setting]
            } else {
                Seq::<Seq<char>>::empty()
            }
            &&& written <==> exists|i: int| 0 <= i < n && sets_policy(#[trigger] lines[i])
        }),
    decreases n,
{
    reveal(Seq::filter);
    let others = |line: Seq<char>| !sets_policy(line);
    let own = |line: Seq<char>| sets_policy(line);
    let (all, written) = updated_part(lines, n, setting);
    if n > 0 {
        lemma_other_lines_stay(lines, n - 1, setting);
        let (before, early) = updated_part(lines, n - 1, setting);
        assert(lines.take(n).drop_last() =~= lines.take(n - 1));
        assert(lines.take(n).last() == lines[n - 1]);
        if all != before {
            assert(all.drop_last() =~= before);
        }
        if !sets_policy(lines[n - 1]) {
            assert(all == before.push(lines[n - 1]));
            assert(all.drop_last() =~= before);
        } else if !early {
            assert(all == before.push(setting));
            assert(all.drop_last() =~= before);
            assert(Seq::<Seq<char>>::empty().push(setting) =~= seq![setting]);
            assert(sets_policy(lines[n - 1]));
        }
    } else {
        assert(all.filter(others) =~= lines.take(n).filter(others));
        assert(all.filter(own) =~= Seq::<Seq<char>>::empty());
    }
}

/// Writing a policy keeps every other line of the configuration, in its place among them, and leaves
/// one line that sets the policy: the one that is written.
pub proof fn law_writing_a_policy_keeps_the_other_lines(
    lines: Seq<Seq<char>>,
    policy: SudoHistoryPolicy,
)
    ensures
        ({
            let after = updated_lines(lines, policy_text(policy));
            let others = |line: Seq<char>| !sets_policy(line);
            &&& after.filter(others) == lines.filter(others)
            &&& after.filter(|line: Seq<char>| sets_policy(line)) == seq![policy_text(policy)]
        }),
{
    let setting = policy_text(policy);
    lemma_policy_text_sets(policy);
    let n = lines.len() as int;
    lemma_other_lines_stay(lines, n, setting);
    assert(lines.take(n) =~= lines);
    let (all, written) = updated_part(lines, n, setting);
    reveal(Seq::filter);
    if !written {
        let after = updated_lines(lines, setting);
        assert(after == all.push(setting));
        assert(after.drop_last() =~= all);
        assert(after.last() == setting);
        assert(Seq::<Seq<char>>::empty().push(setting) =~= seq![setting]);
    }
}

proof fn lemma_policy_text_sets(policy: SudoHistoryPolicy)
    ensures
        sets_policy(policy_text(policy)),
{
    reveal_strlit("sudo_history");
    reveal_strlit("=");
    reveal_strlit("sudo_history = \"root_and_user\"");
    reveal_strlit("sudo_history = \"root_only\"");
    let text = policy_text(policy);
    assert(text[0] == 's');
    assert(!in_class(text[0], CharClass::Space));
    assert(trimmed_start(text, CharClass::Space) == text);
    assert(text.subrange(0, 12) =~= "sudo_history"@);
    assert(begins_with(text, "sudo_history"@));
    assert(text.subrange(13, 14) =~= "="@);
    assert(occurs_at(text, "="@, 13));
}

/// The place of a configuration: its directory and its name, which joined are its path again; a path
/// without either is refused.
pub proof fn law_place_of_a_configuration(path: Seq<char>)
    ensures
        place_of_config(path) matches Ok((directory, name)) ==> components(path).last() == name
            && components(directory) == components(path).drop_last(),
        place_of_config(path) is Ok <==> parent_of(path) is Some && file_name_of(path) is Some,
{
    law_parent_leaves_the_last_component_out(path);
}

/// The record of an installation has three lines: the mode, the version, and the editors with spaces
/// between them.
pub proof fn law_record_of_an_installation(
    mode: InstallMode,
    version: Seq<char>,
    rows: Seq<EditorRowView>,
)
    requires
        one_line(version),
        one_line(joined(editor_names(rows), " "@)),
    ensures
        pieces(manifest_text(mode, version, rows), "\n"@) == seq![
            if mode == InstallMode::Named {
                "mode=named"@
            } else {
                "mode=transparent"@
            },
            "version="@ + version,
            "editors="@ + joined(editor_names(rows), " "@),
            Seq::<char>::empty(),
        ],
        forall|i: int|
            0 <= i < rows.len() ==> #[trigger] editor_names(rows)[i] == rows[i].editor,
        editor_names(rows).len() == rows.len(),
{
    broadcast use lemma_one_line;

    reveal_strlit("\n");
    reveal_strlit("mode=");
    reveal_strlit("named");
    reveal_strlit("transparent");
    reveal_strlit("mode=named");
    reveal_strlit("mode=transparent");
    reveal_strlit("version=");
    reveal_strlit("editors=");
    reveal_strlit("\nversion=");
    reveal_strlit("\neditors=");
    let names = joined(editor_names(rows), " "@);
    let first = if mode == InstallMode::Named {
        "mode=named"@
    } else {
        "mode=transparent"@
    };
    assert("mode="@ + mode_text(mode) =~= first);
    let second = "version="@ + version;
    let third = "editors="@ + names;
    let none = Seq::<char>::empty();
    let all = seq![first, second, third, none];
    assert("\nversion="@ =~= "\n"@ + "version="@);
    assert("\neditors="@ =~= "\n"@ + "editors="@);
    assert(one_line("version="@) && one_line("editors="@) && one_line(first) && one_line(none));
    assert forall|i: int| 0 <= i < all.len() implies one_line(#[trigger] all[i]) by {
        assert(all[i] == first || all[i] == second || all[i] == third || all[i] == none);
    }
    law_splitting_undoes_joining(all);
    let a3 = all.drop_last();
    let a2 = a3.drop_last();
    let a1 = a2.drop_last();
    assert(a1 =~= seq![first]);
    assert(joined(a1, "\n"@) == first);
    assert(joined(a2, "\n"@) == first + "\n"@ + second);
    assert(joined(a3, "\n"@) == first + "\n"@ + second + "\n"@ + third);
    assert(joined(all, "\n"@) == first + "\n"@ + second + "\n"@ + third + "\n"@ + none);
    assert(manifest_text(mode, version, rows) =~= first + "\n"@ + second + "\n"@ + third + "\n"@
        + none);
}

/// What is decided about an entry is what comes of looking at it: to take it, to leave it, or to refuse
/// with the failure.
pub proof fn law_decisions_are_what_was_seen(
    f: Failure,
    g: FailureView,
    x: ToRead,
    y: ToRead,
)
    ensures
        decided(Ok(true)) is Take,
        decided(Ok(false)) is Leave,
        decided(Err(f)) == EntryView::Refuse(f@),
        reads(Ok(x), Ok(y)) <==> x == y,
        reads(Err(f), Err(g)) <==> f@ == g,
        !reads(Ok(x), Err(g)),
        !reads(Err(f), Ok(y)),
        own_view(None) is None,
{
}

/// A manual page is ours where our name stands in it, and a program is ours where the mark stands
/// in it.
pub proof fn law_own_pages_are_known(a: Seq<u8>, b: Seq<u8>)
    ensures
        is_own_page(a + encode_utf8("Bedit"@) + b),
        bytes_within(a + shim_mark() + b, shim_mark()),
        a.len() < encode_utf8("Bedit"@).len() ==> !is_own_page(a),
{
    let n = encode_utf8("Bedit"@);
    let whole = a + n + b;
    assert(whole.subrange(a.len() as int, a.len() as int + n.len()) =~= n);
    assert(bytes_at(whole, n, a.len() as int));
    let m = shim_mark();
    let other = a + m + b;
    assert(other.subrange(a.len() as int, a.len() as int + m.len()) =~= m);
    assert(bytes_at(other, m, a.len() as int));
}

/// What is set aside keeps its name, with an ending of its own; what earlier versions installed is
/// set aside or removed for every command.
pub proof fn law_earlier_installations_are_cleared(
    r: RequestView,
    version: Seq<char>,
    instance: Seq<char>,
    name: Seq<char>,
)
    ensures
        aside(name) == name + ".bedit-backup"@,
        command_names().contains(name) ==> install_steps(r, version, instance).contains(
            InstallStepView::SetAsideLegacy(name + "-rust"@),
        ),
        stale_names().contains(name) ==> install_steps(r, version, instance).contains(
            InstallStepView::DropStale(name + "-perl"@),
        ) && command_names().contains(name),
{
    let none = Seq::<char>::empty();
    let open_places = seq![InstallStepView::OpenPlaces];
    let legacy = command_steps(CommandStep::SetAsideLegacy, command_names(), none);
    let stale = command_steps(CommandStep::DropStale, stale_names(), none);
    let a = open_places + legacy;
    let b = a + stale;
    let payloads = payload_steps(r.copy, instance);
    let record = seq![
        InstallStepView::WriteManifest(manifest_text(r.mode, version, r.editors)),
    ];
    let links = command_steps(CommandStep::LinkCommand, command_names(), none);
    let pages = command_steps(CommandStep::InstallManual, command_names(), none);
    let c = b + seq![InstallStepView::OpenManual];
    let d = c + payloads;
    let e = d + record;
    let f = e + links;
    let g = f + pages;
    let h = g + editor_steps(r.editors, r.mode, r.prefix);
    let i = h + config_steps(r.config, r.policy);
    let steps = install_steps(r, version, instance);
    assert(steps == checking_steps(r.copy) + i);
    assert forall|x: InstallStepView| legacy.contains(x) || stale.contains(x) implies
        #[trigger] steps.contains(x) by {
        lemma_in_the_sum(open_places, legacy, x);
        lemma_in_the_sum(a, stale, x);
        lemma_in_the_sum(b, seq![InstallStepView::OpenManual], x);
        lemma_in_the_sum(c, payloads, x);
        lemma_in_the_sum(d, record, x);
        lemma_in_the_sum(e, links, x);
        lemma_in_the_sum(f, pages, x);
        lemma_in_the_sum(g, editor_steps(r.editors, r.mode, r.prefix), x);
        lemma_in_the_sum(h, config_steps(r.config, r.policy), x);
        lemma_in_the_sum(checking_steps(r.copy), i, x);
    }
    if command_names().contains(name) {
        let k = choose|k: int| 0 <= k < command_names().len() && command_names()[k] == name;
        assert(legacy[k] == InstallStepView::SetAsideLegacy(name + "-rust"@));
        assert(legacy.contains(legacy[k]));
    }
    if stale_names().contains(name) {
        let k = choose|k: int| 0 <= k < stale_names().len() && stale_names()[k] == name;
        assert(stale[k] == InstallStepView::DropStale(name + "-perl"@));
        assert(stale.contains(stale[k]));
        let c = command_names();
        assert(c[0] == "bedit"@ && c[1] == "bed"@ && c[2] == "bvi"@ && c[4] == "bnano"@ && c[5]
            == "bpico"@ && c[6] == "bemacs"@);
    }
}

/// The model of a request has all that is known of it.
pub proof fn law_model_of_a_request(x: InstallRequest)
    ensures
        x@.install == x.install,
        x@.prefix == x.prefix@,
        x@.config == opt_view(x.config),
        x@.mode == x.mode,
        x@.policy == x.policy,
        x@.source == x.source@,
        x@.man_root == x.man_root@,
        x@.editors == all_views(x.editors@),
        x@.copy == x.copy,
        x@.purge == x.purge,
{
}

/// The model of a row of the registry has all that is known of it.
pub proof fn law_model_of_a_row_of_the_registry(x: EditorRow)
    ensures
        x@.editor == x.editor@,
        x@.wrapper == x.wrapper@,
{
}

} // verus!
