//! The commands: what they ask for, what they refuse and what they print.

use crate::browse::{find_number, list_files};
use crate::encoding::same_bytes;
use crate::failure::Failure;
use crate::mutation::CreatedRevision;
use crate::path::{file_name, is_absolute, join as join_path, parent, same_path};
use crate::store::Revision;
use crate::text::{
    chars_of, contains, ends_with, join, parse_bounded, replace, same, split, starts_with,
    to_ascii_lowercase, to_decimal, trim,
};
#[allow(unused_imports)]
use crate::{
    browse::{
        files_of, history_part, law_each_file_is_listed_once, lemma_place_of_number, names_path,
        place_of_number, revision_paths,
    },
    failure::FailureView,
    mutation::CreatedView,
    path::{components, file_name_of, is_rooted, joined_path, parent_of, same_path_text},
    store::RevisionView,
    text::{
        all_views, begins_with, decimal, finishes_with, is_space, joined,
        law_every_occurrence_is_replaced, law_joining_undoes_splitting,
        law_lowering_changes_great_letters, law_occurrence_splits_a_text,
        law_splitting_undoes_joining, law_trimmed_text_is_the_middle, law_trimming_takes_the_ends,
        lemma_joined_occurs, lemma_occurs_between, lemma_occurs_in_a_part, lowered, occurs,
        occurs_at, one_line, opt_str, opt_view, parsed, pieces, replaced, trimmed, trimmed_start,
        views, CharClass,
    },
};
use vstd::prelude::*;

verus! {

/// How the command is used.
pub const USAGE: &'static str = "GET:\n  bedit -g FILE [REV]\n  bedit -g[b|d] FILE [REV]\n\nRESTORE:\n  bedit -r FILE [REV]\n  bedit -r[b|d] FILE [REV]\n\nOTHER:\n  bedit -s TERM\n  bedit -s FILE TERM\n  bedit -w FILE\n  bedit -ls [.|DIR|FILE|*]\n  bedit -ls[f|u|g] [.|DIR|FILE|*]\n  bedit -d FILE REV\n  bedit -d FILE REV\n  bedit -d FILE REV1 REV2\n  bedit -h [FILE]\n";

/// How text is printed: in colours or plain.
#[derive(Clone, Copy, Debug, PartialEq, Eq, Structural)]
pub struct Output {
    pub color: bool,
}

/// Whether a setting asks for colours.
pub open spec fn forces_color(setting: Option<Seq<char>>) -> bool {
    setting matches Some(s) && (lowered(s) == "1"@ || lowered(s) == "yes"@ || lowered(s)
        == "true"@)
}

/// A text in a colour.
pub open spec fn painted(color: bool, code: Seq<char>, text: Seq<char>) -> Seq<char> {
    if color {
        "\x1b["@ + code + "m"@ + text + "\x1b[0m"@
    } else {
        text
    }
}

/// The colour of a line of a diff, if it has one.
pub open spec fn diff_line_code(line: Seq<char>) -> Option<Seq<char>> {
    if begins_with(line, "+"@) && !begins_with(line, "+++"@) {
        Some("32"@)
    } else if begins_with(line, "-"@) && !begins_with(line, "---"@) {
        Some("31"@)
    } else if begins_with(line, "@@"@) || begins_with(line, "---"@) || begins_with(line, "+++"@) {
        Some("36"@)
    } else {
        None
    }
}

/// A line of a diff in its colour.
pub open spec fn painted_line(line: Seq<char>) -> Seq<char> {
    match diff_line_code(line) {
        Some(code) => painted(true, code, line),
        None => line,
    }
}

/// A diff in colours, its line ends left as they are.
pub open spec fn painted_diff(color: bool, text: Seq<char>) -> Seq<char> {
    if color {
        joined(pieces(text, "\n"@).map(|i: int, line: Seq<char>| painted_line(line)), "\n"@)
    } else {
        text
    }
}

fn paint_line(line: &str) -> (r: String)
    ensures
        r@ == painted_line(line@),
{
    let out: Output = Output { color: true };
    if starts_with(line, "+") && !starts_with(line, "+++") {
        out.paint("32", line)
    } else if starts_with(line, "-") && !starts_with(line, "---") {
        out.paint("31", line)
    } else if starts_with(line, "@@") || starts_with(line, "---") || starts_with(line, "+++") {
        out.paint("36", line)
    } else {
        line.to_owned()
    }
}

impl Output {
    /// Colours where a setting asks for them, or where a terminal shows them.
    pub fn new(setting: Option<&str>, terminal: bool) -> (r: Self)
        ensures
            r.color == (forces_color(opt_str(setting)) || terminal),
    {
        let forced: bool = match setting {
            Some(s) => {
                let lower: String = to_ascii_lowercase(s);
                same(lower.as_str(), "1") || same(lower.as_str(), "yes") || same(
                    lower.as_str(),
                    "true",
                )
            },
            None => false,
        };
        Output { color: forced || terminal }
    }

    /// A text in a colour.
    pub fn paint(&self, code: &str, text: &str) -> (r: String)
        ensures
            r@ == painted(self.color, code@, text@),
    {
        if self.color {
            let mut out: String = "\x1b[".to_owned();
            out.append(code);
            out.append("m");
            out.append(text);
            out.append("\x1b[0m");
            out
        } else {
            text.to_owned()
        }
    }

    /// A label.
    pub fn label(&self, text: &str) -> (r: String)
        ensures
            r@ == labelled(self.color, text@),
    {
        self.paint("38;5;33", text)
    }

    /// A path.
    pub fn path(&self, text: &str) -> (r: String)
        ensures
            r@ == path_shown(self.color, text@),
    {
        self.paint("36", text)
    }

    /// A number.
    pub fn rev(&self, text: &str) -> (r: String)
        ensures
            r@ == number_shown(self.color, text@),
    {
        self.paint("35", text)
    }

    /// A warning.
    pub fn warn(&self, text: &str) -> (r: String)
        ensures
            r@ == warned(self.color, text@),
    {
        self.paint("33", text)
    }

    /// A diff.
    pub fn diff(&self, text: &str) -> (r: String)
        ensures
            r@ == painted_diff(self.color, text@),
    {
        if !self.color {
            return text.to_owned();
        }
        proof {
            reveal_strlit("\n");
        }
        let all: Vec<String> = split(text, "\n");
        let ghost a = pieces(text@, "\n"@);
        let mut out: Vec<String> = Vec::new();
        let mut i: usize = 0;
        while i < all.len()
            invariant
                i <= all.len(),
                a == views(all@),
                out@.len() == i,
                forall|j: int| 0 <= j < i ==> (#[trigger] out@[j])@ == painted_line(a[j]),
            decreases all.len() - i,
        {
            assert(a[i as int] == all@[i as int]@);
            out.push(paint_line(all[i].as_str()));
            i += 1;
        }
        assert(a.len() == all@.len());
        assert(views(out@) =~= a.map(|i: int, line: Seq<char>| painted_line(line)));
        join(&out, "\n")
    }
}

/// A label.
pub open spec fn labelled(color: bool, text: Seq<char>) -> Seq<char> {
    painted(color, "38;5;33"@, text)
}

/// A path.
pub open spec fn path_shown(color: bool, text: Seq<char>) -> Seq<char> {
    painted(color, "36"@, text)
}

/// A number.
pub open spec fn number_shown(color: bool, text: Seq<char>) -> Seq<char> {
    painted(color, "35"@, text)
}

/// A warning.
pub open spec fn warned(color: bool, text: Seq<char>) -> Seq<char> {
    painted(color, "33"@, text)
}

/// Why a command stopped: what it prints, where, and the exit code.
#[derive(Debug, PartialEq, Eq)]
pub struct CliError {
    pub message: String,
    pub code: i32,
    pub stdout: bool,
    pub color_warn: bool,
}

/// The model of why a command stopped.
pub struct CliErrorView {
    pub message: Seq<char>,
    pub code: i32,
    pub stdout: bool,
    pub color_warn: bool,
}

impl View for CliError {
    type V = CliErrorView;

    open spec fn view(&self) -> CliErrorView {
        CliErrorView {
            message: self.message@,
            code: self.code,
            stdout: self.stdout,
            color_warn: self.color_warn,
        }
    }
}

/// An error that is printed as it stands.
pub open spec fn raw(message: Seq<char>, code: i32) -> CliErrorView {
    CliErrorView { message, code, stdout: false, color_warn: false }
}

/// An error about a file that is not where it was looked for.
pub open spec fn local(message: Seq<char>) -> CliErrorView {
    CliErrorView { message, code: 1, stdout: true, color_warn: true }
}

/// What an error prints: a line, with one line end at its end on standard output, and with one
/// where it has none on standard error.
pub open spec fn printed(e: CliErrorView, color: bool) -> Seq<char> {
    let text = if e.color_warn {
        warned(color, e.message)
    } else {
        e.message
    };
    if e.stdout || !finishes_with(text, "\n"@) {
        text + "\n"@
    } else {
        text
    }
}

impl CliError {
    /// An error that is printed as it stands.
    pub fn raw(message: &str, code: i32) -> (r: Self)
        ensures
            r@ == raw(message@, code),
    {
        CliError { message: message.to_owned(), code, stdout: false, color_warn: false }
    }

    /// An error about a file that is not where it was looked for.
    pub fn local(message: &str) -> (r: Self)
        ensures
            r@ == local(message@),
    {
        CliError { message: message.to_owned(), code: 1, stdout: true, color_warn: true }
    }

    /// What is printed, on standard output if `stdout` is set.
    pub fn emit(&self, out: &Output) -> (r: String)
        ensures
            r@ == printed(self@, out.color),
    {
        let mut text: String = if self.color_warn {
            out.warn(self.message.as_str())
        } else {
            self.message.clone()
        };
        if self.stdout || !ends_with(text.as_str(), "\n") {
            text.append("\n");
        }
        text
    }
}

/// What the arguments ask for.
#[derive(Clone, Copy, Debug, PartialEq, Eq, Structural)]
pub enum Request {
    /// Nothing at all.
    Nothing,
    Help,
    History,
    Where,
    Search,
    Diff,
    Tag,
    Goto,
    List,
    Restore,
    Get,
    Unknown,
}

/// Whether a flag is a letter with any number of `b` and `d` behind it.
pub open spec fn flag_with_parts(flag: Seq<char>, head: Seq<char>) -> bool {
    begins_with(flag, head) && forall|i: int|
        head.len() <= i < flag.len() ==> (#[trigger] flag[i] == 'b' || flag[i] == 'd')
}

/// What a flag asks for.
pub open spec fn request_of(flag: Seq<char>) -> Request {
    if flag == "--help"@ || flag == "-?"@ {
        Request::Help
    } else if flag == "-h"@ || flag == "-history"@ {
        Request::History
    } else if flag == "-w"@ || flag == "-where"@ {
        Request::Where
    } else if flag == "-s"@ || flag == "-search"@ {
        Request::Search
    } else if flag == "-d"@ || flag == "-diff"@ || flag == "-dif"@ {
        Request::Diff
    } else if flag == "-tag"@ {
        Request::Tag
    } else if flag == "-goto"@ {
        Request::Goto
    } else if begins_with(flag, "-ls"@) {
        Request::List
    } else if flag_with_parts(flag, "-r"@) {
        Request::Restore
    } else if flag_with_parts(flag, "-g"@) {
        Request::Get
    } else {
        Request::Unknown
    }
}

fn has_parts(flag: &str, head: &str) -> (r: bool)
    ensures
        r == flag_with_parts(flag@, head@),
{
    if !starts_with(flag, head) {
        return false;
    }
    let x: Vec<char> = chars_of(flag);
    let mut i: usize = chars_of(head).len();
    while i < x.len()
        invariant
            x@ == flag@,
            head@.len() <= i <= x@.len(),
            forall|j: int|
                head@.len() <= j < i ==> (#[trigger] flag@[j] == 'b' || flag@[j] == 'd'),
        decreases x.len() - i,
    {
        if x[i] != 'b' && x[i] != 'd' {
            assert(!(flag@[i as int] == 'b' || flag@[i as int] == 'd'));
            return false;
        }
        i += 1;
    }
    true
}

/// Whether a flag asks for a revision.
pub fn valid_get_flag(flag: &str) -> (r: bool)
    ensures
        r == flag_with_parts(flag@, "-g"@),
{
    has_parts(flag, "-g")
}

/// Whether a flag asks to restore a revision.
pub fn valid_restore_flag(flag: &str) -> (r: bool)
    ensures
        r == flag_with_parts(flag@, "-r"@),
{
    has_parts(flag, "-r")
}

/// Arguments without the separators among them.
pub open spec fn without_separators(args: Seq<Seq<char>>, n: int) -> Seq<Seq<char>>
    decreases n,
{
    if n <= 0 {
        Seq::empty()
    } else if args[n - 1] == "--"@ {
        without_separators(args, n - 1)
    } else {
        without_separators(args, n - 1).push(args[n - 1])
    }
}

/// Arguments without the separators among them.
pub fn drop_separators(args: &Vec<String>) -> (r: Vec<String>)
    ensures
        views(r@) == without_separators(views(args@), args@.len() as int),
{
    let ghost a = views(args@);
    let mut out: Vec<String> = Vec::new();
    let mut i: usize = 0;
    assert(views(out@) =~= Seq::empty());
    while i < args.len()
        invariant
            i <= args.len(),
            a == views(args@),
            views(out@) == without_separators(a, i as int),
        decreases args.len() - i,
    {
        assert(a[i as int] == args@[i as int]@);
        if !same(args[i].as_str(), "--") {
            let ghost before = views(out@);
            let item: String = args[i].clone();
            out.push(item);
            assert(views(out@) =~= before.push(item@));
        }
        i += 1;
    }
    out
}

/// What the arguments ask for.
pub fn request(args: &Vec<String>) -> (r: Request)
    ensures
        r == if args@.len() == 0 {
            Request::Nothing
        } else {
            request_of(args@[0]@)
        },
{
    if args.len() == 0 {
        return Request::Nothing;
    }
    let flag: &str = args[0].as_str();
    if same(flag, "--help") || same(flag, "-?") {
        Request::Help
    } else if same(flag, "-h") || same(flag, "-history") {
        Request::History
    } else if same(flag, "-w") || same(flag, "-where") {
        Request::Where
    } else if same(flag, "-s") || same(flag, "-search") {
        Request::Search
    } else if same(flag, "-d") || same(flag, "-diff") || same(flag, "-dif") {
        Request::Diff
    } else if same(flag, "-tag") {
        Request::Tag
    } else if same(flag, "-goto") {
        Request::Goto
    } else if starts_with(flag, "-ls") {
        Request::List
    } else if valid_restore_flag(flag) {
        Request::Restore
    } else if valid_get_flag(flag) {
        Request::Get
    } else {
        Request::Unknown
    }
}

/// What the whole program is asked for.
#[derive(Clone, Copy, Debug, PartialEq, Eq, Structural)]
pub enum Startup {
    /// To install or uninstall, with the arguments behind the first.
    Install,
    Version,
    /// The editors that can be wrapped.
    Editors,
    Browser,
    Command,
}

/// What the whole program is asked for.
pub open spec fn startup_of(args: Seq<Seq<char>>, interactive: bool) -> Startup {
    if args.len() > 0 && args[0] == "--trusted-install-helper"@ {
        Startup::Install
    } else if args.len() == 1 && (args[0] == "--version"@ || args[0] == "-V"@) {
        Startup::Version
    } else if args.len() == 1 && args[0] == "--editor-registry"@ {
        Startup::Editors
    } else if args.len() == 0 && interactive {
        Startup::Browser
    } else {
        Startup::Command
    }
}

/// What the whole program is asked for.
pub fn startup(args: &Vec<String>, interactive: bool) -> (r: Startup)
    ensures
        r == startup_of(views(args@), interactive),
{
    let ghost a = views(args@);
    if args.len() == 0 {
        return if interactive {
            Startup::Browser
        } else {
            Startup::Command
        };
    }
    assert(a[0] == args@[0]@);
    let first: &str = args[0].as_str();
    if same(first, "--trusted-install-helper") {
        Startup::Install
    } else if args.len() == 1 && (same(first, "--version") || same(first, "-V")) {
        Startup::Version
    } else if args.len() == 1 && same(first, "--editor-registry") {
        Startup::Editors
    } else {
        Startup::Command
    }
}

/// The full path of what was asked for.
pub fn full_query(query: &str, cwd: &str) -> (r: String)
    ensures
        r@ == if is_rooted(query@) {
            query@
        } else {
            joined_path(cwd@, query@)
        },
{
    if is_absolute(query) {
        query.to_owned()
    } else {
        join_path(cwd, query)
    }
}

/// The directory of what was asked for.
pub fn query_parent(full: &str) -> (r: String)
    ensures
        r@ == match parent_of(full@) {
            Some(p) => p,
            None => "."@,
        },
{
    match parent(full) {
        Some(p) => p,
        None => ".".to_owned(),
    }
}

/// What was asked for, in its real directory.
pub fn candidate(full: &str, directory: &str) -> (r: String)
    ensures
        r@ == joined_path(
            directory@,
            match file_name_of(full@) {
                Some(name) => name,
                None => Seq::empty(),
            },
        ),
{
    match file_name(full) {
        Some(name) => join_path(directory, name.as_str()),
        None => join_path(directory, String::new().as_str()),
    }
}

/// The revisions of a file, in the order in which they came.
pub open spec fn of_file(rs: Seq<RevisionView>, path: Seq<char>) -> Seq<RevisionView> {
    history_part(rs, rs.len() as int, path)
}

fn select_file(rows: &Vec<Revision>, path: &str) -> (r: Vec<Revision>)
    ensures
        all_views(r@) == of_file(all_views(rows@), path@),
{
    let ghost rs = all_views(rows@);
    let mut out: Vec<Revision> = Vec::new();
    let mut i: usize = 0;
    assert(all_views(out@) =~= Seq::empty());
    while i < rows.len()
        invariant
            i <= rows.len(),
            rs == all_views(rows@),
            all_views(out@) == history_part(rs, i as int, path@),
        decreases rows.len() - i,
    {
        assert(rs[i as int] == rows@[i as int]@);
        if same_path(rows[i].access.path.as_str(), path) {
            let ghost before = all_views(out@);
            let item: Revision = rows[i].clone();
            out.push(item);
            assert(all_views(out@) =~= before.push(item@));
        }
        i += 1;
    }
    assert(rs.len() == rows@.len());
    out
}

/// The last name of what was asked for.
pub open spec fn query_leaf(query: Seq<char>) -> Seq<char> {
    match file_name_of(query) {
        Some(name) => name,
        None => query,
    }
}

/// The revisions whose files have a name like another.
pub open spec fn similar(rs: Seq<RevisionView>, n: int, leaf: Seq<char>) -> Seq<RevisionView>
    decreases n,
{
    if n <= 0 {
        Seq::empty()
    } else if occurs(rs[n - 1].leaf, leaf) || occurs(leaf, rs[n - 1].leaf) {
        similar(rs, n - 1, leaf).push(rs[n - 1])
    } else {
        similar(rs, n - 1, leaf)
    }
}

/// Texts, each behind two blanks.
pub open spec fn indented(list: Seq<Seq<char>>) -> Seq<Seq<char>> {
    list.map(|i: int, s: Seq<char>| "  "@ + s)
}

/// What is said of a file that is not there.
pub open spec fn missing_message(rs: Seq<RevisionView>, query: Seq<char>) -> Seq<char> {
    let files = files_of(similar(rs, rs.len() as int, query_leaf(query)));
    "bedit: There is no "@ + query
        + " in this directory. Either use fully qualified file names or goto the dir and try again."@
        + (if files.len() > 0 {
        "\n\nSimilar files in repo:\n"@ + joined(indented(files), "\n"@)
    } else {
        Seq::empty()
    })
}

/// What is said of a file without revisions.
pub open spec fn unknown_message(query: Seq<char>) -> Seq<char> {
    "bedit: File "@ + query
        + " does not exist in the bedit repo. To add it to the repo, open it in an editor."@
}

fn select_similar(rows: &Vec<Revision>, leaf: &str) -> (r: Vec<Revision>)
    ensures
        all_views(r@) == similar(all_views(rows@), rows@.len() as int, leaf@),
{
    let ghost rs = all_views(rows@);
    let mut out: Vec<Revision> = Vec::new();
    let mut i: usize = 0;
    assert(all_views(out@) =~= Seq::empty());
    while i < rows.len()
        invariant
            i <= rows.len(),
            rs == all_views(rows@),
            all_views(out@) == similar(rs, i as int, leaf@),
        decreases rows.len() - i,
    {
        assert(rs[i as int] == rows@[i as int]@);
        if contains(rows[i].leaf.as_str(), leaf) || contains(leaf, rows[i].leaf.as_str()) {
            let ghost before = all_views(out@);
            let item: Revision = rows[i].clone();
            out.push(item);
            assert(all_views(out@) =~= before.push(item@));
        }
        i += 1;
    }
    out
}

fn describe_missing(rows: &Vec<Revision>, query: &str) -> (r: String)
    ensures
        r@ == missing_message(all_views(rows@), query@),
{
    let leaf: String = match file_name(query) {
        Some(name) => name,
        None => query.to_owned(),
    };
    let files: Vec<String> = list_files(&select_similar(rows, leaf.as_str()));
    let ghost f = views(files@);
    let mut message: String = "bedit: There is no ".to_owned();
    message.append(query);
    message.append(
        " in this directory. Either use fully qualified file names or goto the dir and try again.",
    );
    let mut rest: String = String::new();
    if files.len() > 0 {
        let mut out: Vec<String> = Vec::new();
        let mut i: usize = 0;
        while i < files.len()
            invariant
                i <= files.len(),
                f == views(files@),
                out@.len() == i,
                forall|j: int| 0 <= j < i ==> (#[trigger] out@[j])@ == "  "@ + f[j],
            decreases files.len() - i,
        {
            assert(f[i as int] == files@[i as int]@);
            let mut line: String = "  ".to_owned();
            line.append(files[i].as_str());
            out.push(line);
            i += 1;
        }
        assert(views(out@) =~= indented(f));
        rest = "\n\nSimilar files in repo:\n".to_owned();
        rest.append(join(&out, "\n").as_str());
    }
    assert(f.len() == files@.len());
    message.append(rest.as_str());
    message
}

/// The revisions of a file, if it has some and, unless that may be missing, a live file. `full` is
/// the path of what was asked for, and `live` says whether something is there.
pub fn resolve(
    rows: &Vec<Revision>,
    query: &str,
    full: &str,
    live: bool,
    allow_missing_live: bool,
) -> (r: Result<Vec<Revision>, CliError>)
    ensures
        match r {
            Ok(selected) => all_views(selected@) == of_file(all_views(rows@), full@)
                && selected@.len() > 0 && (live || allow_missing_live),
            Err(e) => if !live {
                !(allow_missing_live && of_file(all_views(rows@), full@).len() > 0) && e@ == local(
                    missing_message(all_views(rows@), query@),
                )
            } else {
                of_file(all_views(rows@), full@).len() == 0 && e@ == local(unknown_message(query@))
            },
        },
{
    let selected: Vec<Revision> = select_file(rows, full);
    assert(all_views(selected@).len() == selected@.len());
    if selected.len() > 0 && (allow_missing_live || live) {
        return Ok(selected);
    }
    if !live {
        return Err(CliError::local(describe_missing(rows, query).as_str()));
    }
    let mut message: String = "bedit: File ".to_owned();
    message.append(query);
    message.append(
        " does not exist in the bedit repo. To add it to the repo, open it in an editor.",
    );
    Err(CliError::local(message.as_str()))
}

/// The greatest number of the first `n` revisions.
pub open spec fn greatest(rs: Seq<RevisionView>, n: int) -> u64
    decreases n,
{
    if n <= 0 {
        0
    } else if rs[n - 1].number > greatest(rs, n - 1) {
        rs[n - 1].number
    } else {
        greatest(rs, n - 1)
    }
}

fn greatest_number(rows: &Vec<Revision>) -> (r: u64)
    ensures
        r == greatest(all_views(rows@), rows@.len() as int),
{
    let ghost rs = all_views(rows@);
    let mut most: u64 = 0;
    let mut i: usize = 0;
    while i < rows.len()
        invariant
            i <= rows.len(),
            rs == all_views(rows@),
            most == greatest(rs, i as int),
        decreases rows.len() - i,
    {
        assert(rs[i as int] == rows@[i as int]@);
        if rows[i].number > most {
            most = rows[i].number;
        }
        i += 1;
    }
    most
}

/// The revision that arguments choose: by its number, or else the latest.
pub open spec fn chosen(args: Seq<Seq<char>>, rs: Seq<RevisionView>) -> Result<int, CliErrorView> {
    let number = if args.len() > 1 {
        parsed(args[1], u64::MAX as nat)
    } else {
        Some(greatest(rs, rs.len() as int) as nat)
    };
    match number {
        None => Err(raw("Revision not found\n"@, 255)),
        Some(n) => match place_of_number(rs, n as u64, 0) {
            Some(i) => Ok(i),
            None => Err(raw("Revision not found\n"@, 2)),
        },
    }
}

/// Whether a choice came out as it should.
pub open spec fn chooses(r: Result<usize, CliError>, wanted: Result<int, CliErrorView>) -> bool {
    match (r, wanted) {
        (Ok(i), Ok(j)) => i == j,
        (Err(e), Err(f)) => e@ == f,
        _ => false,
    }
}

/// The revision that arguments choose, the name of the file among them.
pub fn choose_revision(args: &Vec<String>, selected: &Vec<Revision>) -> (r: Result<usize, CliError>)
    ensures
        chooses(r, chosen(views(args@), all_views(selected@))),
{
    let ghost a = views(args@);
    assert(a.len() == args@.len());
    assert(all_views(selected@).len() == selected@.len());
    let number: u64 = if args.len() > 1 {
        assert(a[1] == args@[1]@);
        match parse_bounded(args[1].as_str(), u64::MAX) {
            Some(n) => n,
            None => {
                return Err(CliError::raw("Revision not found\n", 255));
            },
        }
    } else {
        greatest_number(selected)
    };
    match find_number(selected, number) {
        Some(i) => Ok(i),
        None => Err(CliError::raw("Revision not found\n", 2)),
    }
}

/// How a tag is written.
pub const TAG_USAGE: &'static str = "usage: bedit -tag FILE TAG\n       bedit -tag FILE REV TAG\n";

/// Whether there are arguments enough to write a tag.
pub fn check_tag(args: &Vec<String>) -> (r: Result<(), CliError>)
    ensures
        match r {
            Ok(_) => args@.len() >= 2,
            Err(e) => args@.len() < 2 && e@ == raw(TAG_USAGE@, 255),
        },
{
    if args.len() < 2 {
        Err(CliError::raw(TAG_USAGE, 255))
    } else {
        Ok(())
    }
}

/// Whether a text has no characters but digits.
pub open spec fn only_digits(s: Seq<char>) -> bool {
    forall|i: int| 0 <= i < s.len() ==> '0' <= #[trigger] s[i] <= '9'
}

/// Whether arguments name the revision that a tag is for.
pub open spec fn names_number(args: Seq<Seq<char>>) -> bool {
    args.len() >= 3 && only_digits(args[1])
}

/// The number of the revision that a tag is for.
pub open spec fn tagged_number(args: Seq<Seq<char>>, rs: Seq<RevisionView>) -> u64 {
    if names_number(args) {
        match parsed(args[1], u64::MAX as nat) {
            Some(n) => n as u64,
            None => 0,
        }
    } else {
        greatest(rs, rs.len() as int)
    }
}

/// The text of the tag.
pub open spec fn tagged_text(args: Seq<Seq<char>>) -> Seq<char> {
    let from = if names_number(args) {
        2int
    } else {
        1int
    };
    trimmed(replaced(joined(args.subrange(from, args.len() as int), " "@), "\r"@, ""@))
}

/// The revision and the text of a tag.
pub open spec fn tag_chosen(args: Seq<Seq<char>>, rs: Seq<RevisionView>) -> Result<
    int,
    CliErrorView,
> {
    if tagged_text(args).len() == 0 {
        Err(raw(TAG_USAGE@, 25))
    } else {
        match place_of_number(rs, tagged_number(args, rs), 0) {
            Some(i) => Ok(i),
            None => Err(raw("Revision not found\n"@, 2)),
        }
    }
}

fn has_only_digits(s: &str) -> (r: bool)
    ensures
        r == only_digits(s@),
{
    let x: Vec<char> = chars_of(s);
    let mut i: usize = 0;
    while i < x.len()
        invariant
            x@ == s@,
            i <= x.len(),
            forall|j: int| 0 <= j < i ==> '0' <= #[trigger] s@[j] <= '9',
        decreases x.len() - i,
    {
        if !('0' <= x[i] && x[i] <= '9') {
            assert(!('0' <= s@[i as int] <= '9'));
            return false;
        }
        i += 1;
    }
    true
}

fn join_from(args: &Vec<String>, from: usize) -> (r: String)
    requires
        from <= args@.len(),
    ensures
        r@ == joined(views(args@).subrange(from as int, args@.len() as int), " "@),
{
    let ghost a = views(args@);
    let mut words: Vec<String> = Vec::new();
    let mut i: usize = from;
    assert(views(words@) =~= a.subrange(from as int, from as int));
    while i < args.len()
        invariant
            from <= i <= args.len(),
            a == views(args@),
            views(words@) == a.subrange(from as int, i as int),
        decreases args.len() - i,
    {
        assert(a[i as int] == args@[i as int]@);
        let ghost before = views(words@);
        let word: String = args[i].clone();
        words.push(word);
        assert(views(words@) =~= before.push(word@));
        assert(a.subrange(from as int, i + 1) =~= a.subrange(from as int, i as int).push(
            a[i as int],
        ));
        i += 1;
    }
    join(&words, " ")
}

/// The revision that a tag is for, and its text.
pub fn choose_tag(args: &Vec<String>, selected: &Vec<Revision>) -> (r: Result<
    (usize, String),
    CliError,
>)
    requires
        args@.len() >= 2,
    ensures
        match (r, tag_chosen(views(args@), all_views(selected@))) {
            (Ok((i, text)), Ok(j)) => i == j && text@ == tagged_text(views(args@)),
            (Err(e), Err(f)) => e@ == f,
            _ => false,
        },
{
    let ghost a = views(args@);
    assert(a.len() == args@.len());
    assert(all_views(selected@).len() == selected@.len());
    assert(a[1] == args@[1]@);
    let named: bool = args.len() >= 3 && has_only_digits(args[1].as_str());
    let number: u64 = if named {
        match parse_bounded(args[1].as_str(), u64::MAX) {
            Some(n) => n,
            None => 0,
        }
    } else {
        greatest_number(selected)
    };
    let words: String = join_from(
        args,
        if named {
            2
        } else {
            1
        },
    );
    proof {
        reveal_strlit("\r");
    }
    let text: String = trim(replace(words.as_str(), "\r", "").as_str());
    if chars_of(text.as_str()).len() == 0 {
        return Err(CliError::raw(TAG_USAGE, 25));
    }
    match find_number(selected, number) {
        Some(i) => Ok((i, text)),
        None => Err(CliError::raw("Revision not found\n", 2)),
    }
}

/// What is said of a tag that was written.
pub fn tag_message(path: &str, number: u64, text: &str) -> (r: String)
    ensures
        r@ == "bedit: tagged "@ + path@ + " rev "@ + decimal(number as nat) + ": "@ + text@ + "\n"@,
{
    let mut out: String = "bedit: tagged ".to_owned();
    out.append(path);
    out.append(" rev ");
    out.append(to_decimal(number).as_str());
    out.append(": ");
    out.append(text);
    out.append("\n");
    out
}

/// Whether there are arguments to restore a revision.
pub fn check_restore(args: &Vec<String>) -> (r: Result<(), CliError>)
    ensures
        match r {
            Ok(_) => 1 <= args@.len() <= 2,
            Err(e) => !(1 <= args@.len() <= 2) && e@ == raw(USAGE@, 255),
        },
{
    if args.len() == 0 || args.len() > 2 {
        Err(CliError::raw(USAGE, 255))
    } else {
        Ok(())
    }
}

/// What of a revision is meant.
#[derive(Clone, Copy, Debug, PartialEq, Eq, Structural)]
pub enum Part {
    Backup,
    Diff,
    /// The backup with the diff applied.
    Rendered,
}

/// What of a revision a flag means.
pub open spec fn part_of(flag: Seq<char>) -> Part {
    let backup = flag.len() == 2 || exists|i: int| 2 <= i < flag.len() && #[trigger] flag[i] == 'b';
    let diff = exists|i: int| 2 <= i < flag.len() && #[trigger] flag[i] == 'd';
    if backup && diff {
        Part::Rendered
    } else if diff {
        Part::Diff
    } else {
        Part::Backup
    }
}

/// What of a revision a flag means.
pub fn flag_part(flag: &str) -> (r: Part)
    requires
        flag_with_parts(flag@, "-g"@) || flag_with_parts(flag@, "-r"@),
    ensures
        r == part_of(flag@),
{
    proof {
        reveal_strlit("-g");
        reveal_strlit("-r");
    }
    let x: Vec<char> = chars_of(flag);
    let mut backup: bool = x.len() == 2;
    let mut diff: bool = false;
    let mut i: usize = 2;
    while i < x.len()
        invariant
            x@ == flag@,
            2 <= i <= x@.len(),
            backup == (flag@.len() == 2 || exists|j: int| 2 <= j < i && #[trigger] flag@[j] == 'b'),
            diff == (exists|j: int| 2 <= j < i && #[trigger] flag@[j] == 'd'),
        decreases x.len() - i,
    {
        if x[i] == 'b' {
            assert(flag@[i as int] == 'b');
            backup = true;
        }
        if x[i] == 'd' {
            assert(flag@[i as int] == 'd');
            diff = true;
        }
        i += 1;
    }
    if backup && diff {
        Part::Rendered
    } else if diff {
        Part::Diff
    } else {
        Part::Backup
    }
}

/// The editor that a restored revision is recorded under.
pub open spec fn restore_editor(part: Part) -> Seq<char> {
    match part {
        Part::Backup => "restore-backup"@,
        Part::Rendered => "restore-rendered"@,
        Part::Diff => "restore-diff"@,
    }
}

/// The editor that a restored revision is recorded under.
pub fn editor_of_restore(part: Part) -> (r: &'static str)
    ensures
        r@ == restore_editor(part),
{
    match part {
        Part::Backup => "restore-backup",
        Part::Rendered => "restore-rendered",
        Part::Diff => "restore-diff",
    }
}

/// What is said of a revision that was restored.
pub fn restore_message(path: &str, number: u64, made: u64) -> (r: String)
    ensures
        r@ == "restored "@ + path@ + " from rev "@ + decimal(number as nat) + " as new rev "@
            + decimal(made as nat) + "\n"@,
{
    let mut out: String = "restored ".to_owned();
    out.append(path);
    out.append(" from rev ");
    out.append(to_decimal(number).as_str());
    out.append(" as new rev ");
    out.append(to_decimal(made).as_str());
    out.append("\n");
    out
}

/// Whether there are arguments enough to go to a tag.
pub fn check_goto(args: &Vec<String>) -> (r: Result<(), CliError>)
    ensures
        match r {
            Ok(_) => args@.len() >= 2,
            Err(e) => args@.len() < 2 && e@ == raw("usage: bedit -goto FILE TAG\n"@, 255),
        },
{
    if args.len() < 2 {
        Err(CliError::raw("usage: bedit -goto FILE TAG\n", 255))
    } else {
        Ok(())
    }
}

/// The first revision with a tag.
pub open spec fn place_of_tag(rs: Seq<RevisionView>, tag: Seq<char>, from: int) -> Option<int>
    decreases rs.len() - from,
{
    if from < 0 || from >= rs.len() {
        None
    } else if rs[from].tag == Some(tag) {
        Some(from)
    } else {
        place_of_tag(rs, tag, from + 1)
    }
}

/// The tag that arguments name.
pub open spec fn wanted_tag(args: Seq<Seq<char>>) -> Seq<char> {
    joined(args.subrange(1, args.len() as int), " "@)
}

/// The revision with the tag that arguments name, and the tag.
pub fn choose_goto(args: &Vec<String>, selected: &Vec<Revision>) -> (r: Result<
    (usize, String),
    CliError,
>)
    requires
        args@.len() >= 2,
    ensures
        match (r, place_of_tag(all_views(selected@), wanted_tag(views(args@)), 0)) {
            (Ok((i, tag)), Some(j)) => i == j && tag@ == wanted_tag(views(args@)),
            (Err(e), None) => e@ == raw("Tag not found\n"@, 255),
            _ => false,
        },
        match r {
            Ok((i, tag)) => i < selected@.len() && opt_view(selected@[i as int].tag) == Some(tag@)
                && forall|j: int| 0 <= j < i ==> opt_view((#[trigger] selected@[j]).tag) != Some(tag@),
            Err(_) => forall|j: int|
                0 <= j < selected@.len() ==> opt_view((#[trigger] selected@[j]).tag) != Some(
                    wanted_tag(views(args@)),
                ),
        },
{
    let ghost rs = all_views(selected@);
    assert(views(args@).len() == args@.len());
    let tag: String = join_from(args, 1);
    assert forall|j: int| 0 <= j < selected@.len() implies rs[j].tag == opt_view(
        (#[trigger] selected@[j]).tag,
    ) by {}
    let mut i: usize = 0;
    while i < selected.len()
        invariant
            i <= selected.len(),
            rs == all_views(selected@),
            tag@ == wanted_tag(views(args@)),
            place_of_tag(rs, tag@, 0) == place_of_tag(rs, tag@, i as int),
            forall|j: int| 0 <= j < i ==> opt_view((#[trigger] selected@[j]).tag) != Some(tag@),
        decreases selected.len() - i,
    {
        assert(rs[i as int] == selected@[i as int]@);
        let found: bool = match &selected[i].tag {
            Some(t) => same(t.as_str(), tag.as_str()),
            None => false,
        };
        if found {
            return Ok((i, tag));
        }
        i += 1;
    }
    Err(CliError::raw("Tag not found\n", 255))
}

/// What is said of a tag that was gone to.
pub fn goto_message(path: &str, tag: &str, number: u64, made: u64) -> (r: String)
    ensures
        r@ == "bedit: restored "@ + path@ + " from tag '"@ + tag@ + "' (rev "@ + decimal(
            number as nat,
        ) + ") as new rev "@ + decimal(made as nat) + "\n"@,
{
    let mut out: String = "bedit: restored ".to_owned();
    out.append(path);
    out.append(" from tag '");
    out.append(tag);
    out.append("' (rev ");
    out.append(to_decimal(number).as_str());
    out.append(") as new rev ");
    out.append(to_decimal(made).as_str());
    out.append("\n");
    out
}

/// What is said beside a revision that was made.
pub open spec fn creation_warning(path: Seq<char>, made: CreatedView) -> Seq<char> {
    (if made.backup_only_fallback {
        "bedit: warning: diff generation failed; preserved "@ + path + " as backup-only revision "@
            + decimal(made.number as nat) + "\n"@
    } else {
        Seq::empty()
    }) + (match made.mirror_warning {
        Some(w) => "bedit: warning: "@ + path + ": "@ + w + "\n"@,
        None => Seq::empty(),
    })
}

/// What is said beside a revision that was made.
pub fn warn_created(path: &str, made: &CreatedRevision) -> (r: String)
    ensures
        r@ == creation_warning(path@, made@),
{
    let mut out: String = String::new();
    if made.backup_only_fallback {
        out = "bedit: warning: diff generation failed; preserved ".to_owned();
        out.append(path);
        out.append(" as backup-only revision ");
        out.append(to_decimal(made.number).as_str());
        out.append("\n");
    }
    let mut rest: String = String::new();
    match &made.mirror_warning {
        Some(w) => {
            rest = "bedit: warning: ".to_owned();
            rest.append(path);
            rest.append(": ");
            rest.append(w.as_str());
            rest.append("\n");
        },
        None => {},
    }
    out.append(rest.as_str());
    out
}

/// What comes next when the diff of a revision is applied to the live file.
pub enum DiffStep {
    /// A question is to be asked.
    Ask(String),
    /// The diff is to be applied to the live content.
    Apply,
    /// The latest revision is to be rendered.
    RenderLatest(usize),
    /// The live content is to be recorded under `sync`.
    RecordLive,
    /// The live file is to be replaced.
    Replace,
    /// The new content is to be recorded under `restore-diff`.
    Record,
    /// The live file is to be put back, because of this.
    PutBack(Failure),
    /// It failed.
    Failed(CliError),
    /// The revision with this number was made.
    Done(u64),
}

/// The model of what comes next.
pub enum DiffStepView {
    Ask(Seq<char>),
    Apply,
    RenderLatest(usize),
    RecordLive,
    Replace,
    Record,
    PutBack(FailureView),
    Failed(CliErrorView),
    Done(u64),
}

impl View for DiffStep {
    type V = DiffStepView;

    open spec fn view(&self) -> DiffStepView {
        match self {
            DiffStep::Ask(s) => DiffStepView::Ask(s@),
            DiffStep::Apply => DiffStepView::Apply,
            DiffStep::RenderLatest(i) => DiffStepView::RenderLatest(*i),
            DiffStep::RecordLive => DiffStepView::RecordLive,
            DiffStep::Replace => DiffStepView::Replace,
            DiffStep::Record => DiffStepView::Record,
            DiffStep::PutBack(f) => DiffStepView::PutBack(f@),
            DiffStep::Failed(e) => DiffStepView::Failed(e@),
            DiffStep::Done(n) => DiffStepView::Done(*n),
        }
    }
}

/// What came of a step.
pub enum DiffEvent {
    /// An answer.
    Answer(String),
    /// Whether the diff was applied.
    Applied(bool),
    /// What the latest revision holds, if it could be rendered.
    Rendered(Option<Vec<u8>>),
    /// What recording came to.
    Recorded(Result<u64, Failure>),
    /// What replacing the live file came to.
    Replaced(Result<(), Failure>),
}

/// Whether an event can come of a step.
pub open spec fn comes_of(step: DiffStepView, event: DiffEvent) -> bool {
    match (step, event) {
        (DiffStepView::Ask(_), DiffEvent::Answer(_)) => true,
        (DiffStepView::Apply, DiffEvent::Applied(_)) => true,
        (DiffStepView::RenderLatest(_), DiffEvent::Rendered(_)) => true,
        (DiffStepView::RecordLive, DiffEvent::Recorded(_)) => true,
        (DiffStepView::Replace, DiffEvent::Replaced(_)) => true,
        (DiffStepView::Record, DiffEvent::Recorded(_)) => true,
        (DiffStepView::PutBack(_), DiffEvent::Replaced(_)) => true,
        _ => false,
    }
}

/// Whether an answer says yes.
pub open spec fn says_yes(answer: Seq<char>) -> bool {
    lowered(trimmed(answer)) == "y"@ || lowered(trimmed(answer)) == "yes"@
}

/// The place of the greatest number among the first `n` revisions, the last of them.
pub open spec fn place_of_greatest(rs: Seq<RevisionView>, n: int) -> Option<int>
    decreases n,
{
    if n <= 0 {
        None
    } else {
        match place_of_greatest(rs, n - 1) {
            Some(i) if rs[n - 1].number < rs[i].number => Some(i),
            _ => Some(n - 1),
        }
    }
}

/// How the application of a diff begins. `backup` is the backup of the revision, if it can be
/// read.
pub open spec fn diff_restore_begun(
    r: RevisionView,
    backup: Option<Seq<u8>>,
    live: Seq<u8>,
) -> DiffStepView {
    if r.diff is None {
        DiffStepView::Failed(raw("Diff not found\n"@, 2))
    } else {
        match backup {
            None => DiffStepView::Failed(raw("Revision not found\n"@, 2)),
            Some(b) => if b != live {
                DiffStepView::Ask(
                    "WARNING: current file differs from revision "@ + decimal(r.number as nat)
                        + " backup. Apply diff anyway? [y/N] "@,
                )
            } else {
                DiffStepView::Apply
            },
        }
    }
}

/// What is said when the new content could not be recorded.
pub open spec fn unrecorded_message(why: FailureView, put_back: Result<(), Failure>) -> Seq<char> {
    match put_back {
        Ok(_) => "cannot preserve restored state: "@ + why.message + "; restored prior live file\n"@,
        Err(f) => "cannot preserve restored state: "@ + why.message
            + "; cannot restore prior live file: "@ + f@.message + "\n"@,
    }
}

/// What comes after a step of a restore over a live content.
pub open spec fn diff_restore_next(
    step: DiffStepView,
    event: DiffEvent,
    selected: Seq<RevisionView>,
    live: Seq<u8>,
) -> DiffStepView {
    match (step, event) {
        (DiffStepView::Ask(_), DiffEvent::Answer(s)) => if says_yes(s@) {
            DiffStepView::Apply
        } else {
            DiffStepView::Failed(raw("Aborted\n"@, 255))
        },
        (DiffStepView::Apply, DiffEvent::Applied(done)) => if done {
            match place_of_greatest(selected, selected.len() as int) {
                Some(i) => DiffStepView::RenderLatest(i as usize),
                None => DiffStepView::Failed(raw("Revision not found\n"@, 2)),
            }
        } else {
            DiffStepView::Failed(raw("cannot apply diff\n"@, 255))
        },
        (DiffStepView::RenderLatest(_), DiffEvent::Rendered(r)) => match r {
            Some(held) => if held@ == live {
                DiffStepView::Replace
            } else {
                DiffStepView::RecordLive
            },
            None => DiffStepView::Failed(raw("cannot render latest revision\n"@, 255)),
        },
        (DiffStepView::RecordLive, DiffEvent::Recorded(r)) => match r {
            Ok(_) => DiffStepView::Replace,
            Err(f) => DiffStepView::Failed(
                raw("cannot preserve live file: "@ + f@.message + "\n"@, 255),
            ),
        },
        (DiffStepView::Replace, DiffEvent::Replaced(r)) => match r {
            Ok(_) => DiffStepView::Record,
            Err(_) => DiffStepView::Failed(raw("restore failed\n"@, 255)),
        },
        (DiffStepView::Record, DiffEvent::Recorded(r)) => match r {
            Ok(n) => DiffStepView::Done(n),
            Err(f) => DiffStepView::PutBack(f@),
        },
        (DiffStepView::PutBack(f), DiffEvent::Replaced(r)) => DiffStepView::Failed(
            raw(unrecorded_message(f, r), 255),
        ),
        _ => step,
    }
}

/// The live file is replaced only when its content is a revision: the latest one, or one that was
/// recorded just before.
pub proof fn law_applied_diff_preserves_live(
    step: DiffStepView,
    event: DiffEvent,
    selected: Seq<RevisionView>,
    live: Seq<u8>,
)
    requires
        comes_of(step, event),
        diff_restore_next(step, event, selected, live) is Replace,
    ensures
        (step is RenderLatest && (event matches DiffEvent::Rendered(Some(held)) && held@ == live))
            || (step is RecordLive && event matches DiffEvent::Recorded(Ok(_))),
{
}

/// A new content that cannot be recorded is taken back, and the command fails.
pub proof fn law_unrecorded_diff_is_taken_back(
    f: Failure,
    put_back: Result<(), Failure>,
    selected: Seq<RevisionView>,
    live: Seq<u8>,
)
    ensures
        diff_restore_next(DiffStepView::Record, DiffEvent::Recorded(Err(f)), selected, live)
            == DiffStepView::PutBack(f@),
        diff_restore_next(
            DiffStepView::PutBack(f@),
            DiffEvent::Replaced(put_back),
            selected,
            live,
        ) is Failed,
{
}

/// Begins to apply the diff of a revision to the live file.
pub fn begin_diff_restore(revision: &Revision, backup: Option<&Vec<u8>>, live: &Vec<u8>) -> (r:
    DiffStep)
    ensures
        r@ == diff_restore_begun(
            revision@,
            match backup {
                Some(b) => Some(b@),
                None => None,
            },
            live@,
        ),
{
    if revision.diff.is_none() {
        return DiffStep::Failed(CliError::raw("Diff not found\n", 2));
    }
    match backup {
        None => DiffStep::Failed(CliError::raw("Revision not found\n", 2)),
        Some(b) => if same_bytes(b, live) {
            DiffStep::Apply
        } else {
            let mut question: String = "WARNING: current file differs from revision ".to_owned();
            question.append(to_decimal(revision.number).as_str());
            question.append(" backup. Apply diff anyway? [y/N] ");
            DiffStep::Ask(question)
        },
    }
}

fn find_greatest(rows: &Vec<Revision>) -> (r: Option<usize>)
    ensures
        match r {
            Some(i) => i < rows@.len() && place_of_greatest(
                all_views(rows@),
                rows@.len() as int,
            ) == Some(i as int),
            None => place_of_greatest(all_views(rows@), rows@.len() as int) is None,
        },
{
    let ghost rs = all_views(rows@);
    let mut found: Option<usize> = None;
    let mut n: usize = 0;
    while n < rows.len()
        invariant
            n <= rows.len(),
            rs == all_views(rows@),
            match found {
                Some(i) => i < n && place_of_greatest(rs, n as int) == Some(i as int),
                None => place_of_greatest(rs, n as int) is None,
            },
        decreases rows.len() - n,
    {
        assert(rs[n as int] == rows@[n as int]@);
        let stays: bool = match found {
            Some(i) => {
                assert(rs[i as int] == rows@[i as int]@);
                rows[n].number < rows[i].number
            },
            None => false,
        };
        if !stays {
            found = Some(n);
        }
        n += 1;
    }
    found
}

fn accepts(answer: &str) -> (r: bool)
    ensures
        r == says_yes(answer@),
{
    let lower: String = to_ascii_lowercase(trim(answer).as_str());
    same(lower.as_str(), "y") || same(lower.as_str(), "yes")
}

fn describe_unrecorded(why: &Failure, put_back: &Result<(), Failure>) -> (r: String)
    ensures
        r@ == unrecorded_message(why@, *put_back),
{
    let mut out: String = "cannot preserve restored state: ".to_owned();
    out.append(why.message.as_str());
    match put_back {
        Ok(_) => {
            out.append("; restored prior live file\n");
        },
        Err(f) => {
            out.append("; cannot restore prior live file: ");
            out.append(f.message.as_str());
            out.append("\n");
        },
    }
    out
}

/// Takes in what came of a step of a restore over a live content.
pub fn continue_diff_restore(
    step: DiffStep,
    event: DiffEvent,
    selected: &Vec<Revision>,
    live: &Vec<u8>,
) -> (r: DiffStep)
    requires
        comes_of(step@, event),
    ensures
        r@ == diff_restore_next(step@, event, all_views(selected@), live@),
{
    assert(all_views(selected@).len() == selected@.len());
    match (step, event) {
        (DiffStep::Ask(_), DiffEvent::Answer(s)) => if accepts(s.as_str()) {
            DiffStep::Apply
        } else {
            DiffStep::Failed(CliError::raw("Aborted\n", 255))
        },
        (DiffStep::Apply, DiffEvent::Applied(done)) => if done {
            match find_greatest(selected) {
                Some(i) => DiffStep::RenderLatest(i),
                None => DiffStep::Failed(CliError::raw("Revision not found\n", 2)),
            }
        } else {
            DiffStep::Failed(CliError::raw("cannot apply diff\n", 255))
        },
        (DiffStep::RenderLatest(_), DiffEvent::Rendered(r)) => match r {
            Some(held) => if same_bytes(&held, live) {
                DiffStep::Replace
            } else {
                DiffStep::RecordLive
            },
            None => DiffStep::Failed(CliError::raw("cannot render latest revision\n", 255)),
        },
        (DiffStep::RecordLive, DiffEvent::Recorded(r)) => match r {
            Ok(_) => DiffStep::Replace,
            Err(f) => {
                let mut message: String = "cannot preserve live file: ".to_owned();
                message.append(f.message.as_str());
                message.append("\n");
                DiffStep::Failed(CliError::raw(message.as_str(), 255))
            },
        },
        (DiffStep::Replace, DiffEvent::Replaced(r)) => match r {
            Ok(_) => DiffStep::Record,
            Err(_) => DiffStep::Failed(CliError::raw("restore failed\n", 255)),
        },
        (DiffStep::Record, DiffEvent::Recorded(r)) => match r {
            Ok(n) => DiffStep::Done(n),
            Err(f) => DiffStep::PutBack(f),
        },
        (DiffStep::PutBack(f), DiffEvent::Replaced(r)) => DiffStep::Failed(
            CliError::raw(describe_unrecorded(&f, &r).as_str(), 255),
        ),
        (step, _) => step,
    }
}

/// The name of a part of a revision.
pub open spec fn part_name(part: Part) -> Seq<char> {
    match part {
        Part::Backup => "backup"@,
        Part::Diff => "diff"@,
        Part::Rendered => "rendered"@,
    }
}

fn name_part(part: Part) -> (r: &'static str)
    ensures
        r@ == part_name(part),
{
    match part {
        Part::Backup => "backup",
        Part::Diff => "diff",
        Part::Rendered => "rendered",
    }
}

/// What is printed of a revision.
pub open spec fn revision_report(
    color: bool,
    path: Seq<char>,
    number: u64,
    latest: bool,
    part: Part,
    text: Seq<char>,
) -> Seq<char> {
    labelled(color, "FILE:"@) + " "@ + path_shown(color, path) + "\n"@ + labelled(color, "REV:"@)
        + " "@ + number_shown(color, decimal(number as nat)) + (if latest {
        " "@ + warned(color, "(latest)"@)
    } else {
        Seq::empty()
    }) + "\n"@ + labelled(color, "TYPE:"@) + " "@ + part_name(part) + "\n\n"@ + (if part
        == Part::Diff {
        painted_diff(color, text)
    } else {
        text
    })
}

/// What is printed of a revision. It is the latest if no number was asked for.
pub fn get_report(
    out: &Output,
    path: &str,
    number: u64,
    latest: bool,
    part: Part,
    text: &str,
) -> (r: String)
    ensures
        r@ == revision_report(out.color, path@, number, latest, part, text@),
{
    let mut s: String = out.label("FILE:");
    s.append(" ");
    s.append(out.path(path).as_str());
    s.append("\n");
    s.append(out.label("REV:").as_str());
    s.append(" ");
    s.append(out.rev(to_decimal(number).as_str()).as_str());
    let mut mark: String = String::new();
    if latest {
        mark = " ".to_owned();
        mark.append(out.warn("(latest)").as_str());
    }
    s.append(mark.as_str());
    s.append("\n");
    s.append(out.label("TYPE:").as_str());
    s.append(" ");
    s.append(name_part(part));
    s.append("\n\n");
    if part == Part::Diff {
        s.append(out.diff(text).as_str());
    } else {
        s.append(text);
    }
    s
}

/// Whether there is a file to ask for.
pub fn check_get(args: &Vec<String>) -> (r: Result<(), CliError>)
    ensures
        match r {
            Ok(_) => args@.len() > 0,
            Err(e) => args@.len() == 0 && e@ == raw(USAGE@, 255),
        },
{
    if args.len() == 0 {
        Err(CliError::raw(USAGE, 255))
    } else {
        Ok(())
    }
}

/// Where a part of a revision is read from. `Ok(None)`: it is rendered.
pub fn part_place(revision: &Revision, part: Part) -> (r: Result<Option<String>, CliError>)
    ensures
        match (part, r) {
            (Part::Backup, Ok(Some(s))) => s@ == revision@.backup,
            (Part::Rendered, Ok(None)) => true,
            (Part::Diff, Ok(Some(s))) => revision@.diff == Some(s@),
            (Part::Diff, Err(e)) => revision@.diff is None && e@ == raw("Diff not found\n"@, 2),
            _ => false,
        },
{
    match part {
        Part::Backup => Ok(Some(revision.backup.clone())),
        Part::Rendered => Ok(None),
        Part::Diff => match &revision.diff {
            Some(d) => Ok(Some(d.clone())),
            None => Err(CliError::raw("Diff not found\n", 2)),
        },
    }
}

/// The exit code when a part of a revision cannot be read.
pub fn unreadable_code(part: Part) -> (r: i32)
    ensures
        r == if part == Part::Diff {
            2i32
        } else {
            255i32
        },
{
    match part {
        Part::Diff => 2,
        _ => 255,
    }
}

/// Whether a revision is meant by a query: its path if that is absolute, its last name if not.
/// `full` is the path of the query in its real directory.
pub open spec fn meant(r: RevisionView, query: Seq<char>, full: Seq<char>) -> bool {
    if is_rooted(query) {
        same_path_text(r.access.path, full)
    } else {
        r.leaf == query
    }
}

/// The revisions among the first `n` that a query means.
pub open spec fn meant_part(
    rs: Seq<RevisionView>,
    n: int,
    query: Seq<char>,
    full: Seq<char>,
) -> Seq<RevisionView>
    decreases n,
{
    if n <= 0 {
        Seq::empty()
    } else if meant(rs[n - 1], query, full) {
        meant_part(rs, n - 1, query, full).push(rs[n - 1])
    } else {
        meant_part(rs, n - 1, query, full)
    }
}

/// The revisions that a query means, in the order in which they came.
pub open spec fn meant_by(rs: Seq<RevisionView>, query: Seq<char>, full: Seq<char>) -> Seq<
    RevisionView,
> {
    meant_part(rs, rs.len() as int, query, full)
}

/// The revisions that a query means.
pub fn select_meant(rows: &Vec<Revision>, query: &str, full: &str) -> (r: Vec<Revision>)
    ensures
        all_views(r@) == meant_by(all_views(rows@), query@, full@),
{
    let ghost rs = all_views(rows@);
    let rooted: bool = is_absolute(query);
    let mut out: Vec<Revision> = Vec::new();
    let mut i: usize = 0;
    assert(all_views(out@) =~= Seq::empty());
    while i < rows.len()
        invariant
            i <= rows.len(),
            rooted == is_rooted(query@),
            rs == all_views(rows@),
            all_views(out@) == meant_part(rs, i as int, query@, full@),
        decreases rows.len() - i,
    {
        assert(rs[i as int] == rows@[i as int]@);
        let wanted: bool = if rooted {
            same_path(rows[i].access.path.as_str(), full)
        } else {
            same(rows[i].leaf.as_str(), query)
        };
        if wanted {
            let ghost before = all_views(out@);
            let item: Revision = rows[i].clone();
            out.push(item);
            assert(all_views(out@) =~= before.push(item@));
        }
        i += 1;
    }
    assert(rs.len() == rows@.len());
    out
}

/// Whether there is a file to look for.
pub fn check_where(args: &Vec<String>) -> (r: Result<(), CliError>)
    ensures
        match r {
            Ok(_) => args@.len() > 0,
            Err(e) => args@.len() == 0 && e@ == raw("usage: bedit -w FILE\n"@, 2),
        },
{
    if args.len() == 0 {
        Err(CliError::raw("usage: bedit -w FILE\n", 2))
    } else {
        Ok(())
    }
}

/// Paths, each on a line.
pub open spec fn path_lines(color: bool, paths: Seq<Seq<char>>, n: int) -> Seq<char>
    decreases n,
{
    if n <= 0 {
        Seq::empty()
    } else {
        path_lines(color, paths, n - 1) + path_shown(color, paths[n - 1]) + "\n"@
    }
}

/// The files that a query means, each on a line.
pub open spec fn files_meant(
    color: bool,
    rs: Seq<RevisionView>,
    query: Seq<char>,
    full: Seq<char>,
) -> Seq<char> {
    let files = files_of(meant_by(rs, query, full));
    path_lines(color, files, files.len() as int)
}

/// The files that a query means, each on a line.
pub fn where_report(out: &Output, rows: &Vec<Revision>, query: &str, full: &str) -> (r: String)
    ensures
        r@ == files_meant(out.color, all_views(rows@), query@, full@),
{
    let files: Vec<String> = list_files(&select_meant(rows, query, full));
    let ghost f = views(files@);
    let mut text: String = String::new();
    let mut i: usize = 0;
    while i < files.len()
        invariant
            i <= files.len(),
            f == views(files@),
            text@ == path_lines(out.color, f, i as int),
        decreases files.len() - i,
    {
        assert(f[i as int] == files@[i as int]@);
        text.append(out.path(files[i].as_str()).as_str());
        text.append("\n");
        i += 1;
    }
    assert(f.len() == files@.len());
    text
}

/// What of a revision a flag means is told by the letters behind its first two characters, whatever
/// their order and however often they stand there: both letters mean the rendered content, a `d`
/// alone the diff, and anything else the backup.
pub proof fn law_part_is_told_by_the_letters(flag: Seq<char>, other: Seq<char>)
    requires
        flag.len() >= 2,
        other.len() >= 2,
    ensures
        ({
            let (x, y) = (flag.skip(2), other.skip(2));
            &&& x.contains('b') && x.contains('d') ==> part_of(flag) == Part::Rendered
            &&& !x.contains('b') && x.contains('d') ==> part_of(flag) == Part::Diff
            &&& !x.contains('d') ==> part_of(flag) == Part::Backup
            &&& (x.contains('b') <==> y.contains('b')) && (x.contains('d') <==> y.contains('d'))
                ==> part_of(flag) == part_of(other)
        }),
{
    lemma_letters_behind(flag, 'b');
    lemma_letters_behind(flag, 'd');
    lemma_letters_behind(other, 'b');
    lemma_letters_behind(other, 'd');
}

proof fn lemma_letters_behind(flag: Seq<char>, c: char)
    requires
        flag.len() >= 2,
    ensures
        flag.skip(2).contains(c) <==> exists|i: int|
            2 <= i < flag.len() && #[trigger] flag[i] == c,
{
    let x = flag.skip(2);
    if x.contains(c) {
        let i = choose|i: int| 0 <= i < x.len() && x[i] == c;
        assert(flag[i + 2] == c);
    }
    if exists|i: int| 2 <= i < flag.len() && #[trigger] flag[i] == c {
        let i = choose|i: int| 2 <= i < flag.len() && #[trigger] flag[i] == c;
        assert(x[i - 2] == c);
    }
}

/// A part of a revision is restored under a name that no other part is restored under.
pub proof fn law_restored_parts_are_told_apart(a: Part, b: Part)
    ensures
        restore_editor(a) == restore_editor(b) ==> a == b,
        part_name(a) == part_name(b) ==> a == b,
        restore_editor(a) == "restore-"@ + part_name(a),
{
    reveal_strlit("restore-");
    reveal_strlit("restore-backup");
    reveal_strlit("restore-rendered");
    reveal_strlit("restore-diff");
    reveal_strlit("backup");
    reveal_strlit("rendered");
    reveal_strlit("diff");
    assert(restore_editor(a) =~= "restore-"@ + part_name(a));
    assert(restore_editor(b) =~= "restore-"@ + part_name(b));
    assert("restore-backup"@.len() == 14 && "restore-rendered"@.len() == 16
        && "restore-diff"@.len() == 12);
    assert("backup"@.len() == 6 && "rendered"@.len() == 8 && "diff"@.len() == 4);
}

/// The revision that a tag leads to has exactly this tag, and none before it has; no revision is
/// found exactly where none has it.
pub proof fn law_tag_leads_to_its_revision(rs: Seq<RevisionView>, tag: Seq<char>, from: int)
    requires
        0 <= from,
    ensures
        match place_of_tag(rs, tag, from) {
            Some(i) => from <= i < rs.len() && rs[i].tag == Some(tag) && forall|j: int|
                from <= j < i ==> (#[trigger] rs[j]).tag != Some(tag),
            None => forall|j: int| from <= j < rs.len() ==> (#[trigger] rs[j]).tag != Some(tag),
        },
    decreases rs.len() - from,
{
    if from < rs.len() && rs[from].tag != Some(tag) {
        law_tag_leads_to_its_revision(rs, tag, from + 1);
    }
}

/// The tag that is gone to is what stands behind the file, with a blank between the words.
pub proof fn law_wanted_tag_is_the_words(file: Seq<char>, words: Seq<Seq<char>>, more: Seq<char>)
    ensures
        wanted_tag(seq![file, more]) == more,
        words.len() > 0 ==> wanted_tag((seq![file] + words).push(more)) == wanted_tag(
            seq![file] + words,
        ) + " "@ + more,
{
    let one = seq![file, more];
    assert(one.subrange(1, 2) =~= seq![more]);
    if words.len() > 0 {
        let args = seq![file] + words;
        let all = args.push(more);
        assert(args.subrange(1, args.len() as int) =~= words);
        assert(all.subrange(1, all.len() as int) =~= words.push(more));
        assert(words.push(more).drop_last() =~= words);
    }
}

/// The greatest number is one that a revision has, and none has a greater one.
pub proof fn law_greatest_is_a_number(rs: Seq<RevisionView>, n: int)
    requires
        0 <= n <= rs.len(),
    ensures
        forall|i: int| 0 <= i < n ==> (#[trigger] rs[i]).number <= greatest(rs, n),
        greatest(rs, n) == 0 || exists|i: int|
            0 <= i < n && (#[trigger] rs[i]).number == greatest(rs, n),
    decreases n,
{
    if n > 0 {
        law_greatest_is_a_number(rs, n - 1);
        if rs[n - 1].number > greatest(rs, n - 1) {
            assert(rs[n - 1].number == greatest(rs, n));
        }
    }
}

/// The place of the greatest number is one where no greater one stands anywhere, and the last of
/// those that share it.
pub proof fn law_place_of_greatest_is_the_last(rs: Seq<RevisionView>, n: int)
    requires
        0 <= n <= rs.len(),
    ensures
        match place_of_greatest(rs, n) {
            Some(i) => 0 <= i < n && (forall|j: int|
                0 <= j < n ==> (#[trigger] rs[j]).number <= rs[i].number) && (forall|j: int|
                i < j < n ==> (#[trigger] rs[j]).number < rs[i].number),
            None => n == 0,
        },
    decreases n,
{
    if n > 0 {
        law_place_of_greatest_is_the_last(rs, n - 1);
    }
}

/// The revision that arguments choose has the number that they name, or the greatest where they
/// name none; a number that no revision has, and what is no number, are refused.
pub proof fn law_chosen_revision_has_the_number(args: Seq<Seq<char>>, rs: Seq<RevisionView>)
    ensures
        match chosen(args, rs) {
            Ok(i) => 0 <= i < rs.len() && if args.len() > 1 {
                parsed(args[1], u64::MAX as nat) == Some(rs[i].number as nat)
            } else {
                forall|j: int| 0 <= j < rs.len() ==> (#[trigger] rs[j]).number <= rs[i].number
            },
            Err(e) => e.message == "Revision not found\n"@ && if args.len() > 1 {
                match parsed(args[1], u64::MAX as nat) {
                    None => e.code == 255,
                    Some(n) => e.code == 2 && forall|j: int|
                        0 <= j < rs.len() ==> (#[trigger] rs[j]).number != n,
                }
            } else {
                e.code == 2 && (rs.len() == 0 || forall|j: int|
                    0 <= j < rs.len() ==> (#[trigger] rs[j]).number != greatest(
                        rs,
                        rs.len() as int,
                    ))
            },
        },
        args.len() <= 1 && rs.len() > 0 ==> chosen(args, rs) is Ok,
{
    law_greatest_is_a_number(rs, rs.len() as int);
    let g = greatest(rs, rs.len() as int);
    lemma_place_of_number(rs, g, 0);
    if args.len() > 1 {
        match parsed(args[1], u64::MAX as nat) {
            Some(n) => {
                lemma_place_of_number(rs, n as u64, 0);
            },
            None => {},
        }
    } else if rs.len() > 0 {
        if g == 0 {
            assert(rs[0].number == 0);
        }
    }
}

/// The text of a tag is the words behind the file, or behind the file and a number, without returns
/// and without white space at its ends; the number is the one that is named, else the greatest.
pub proof fn law_tag_takes_the_words(args: Seq<Seq<char>>, rs: Seq<RevisionView>)
    ensures
        ({
            let numbered = args.len() >= 3 && forall|i: int|
                0 <= i < args[1].len() ==> '0' <= #[trigger] args[1][i] <= '9';
            let words = joined(
                args.subrange(
                    if numbered {
                        2int
                    } else {
                        1int
                    },
                    args.len() as int,
                ),
                " "@,
            );
            let text = tagged_text(args);
            &&& !occurs(words, "\r"@) ==> text == trimmed(words)
            &&& text.len() > 0 ==> !is_space(text[0]) && !is_space(text.last())
            &&& numbered ==> (parsed(args[1], u64::MAX as nat) matches Some(n) ==> tagged_number(
                args,
                rs,
            ) == n)
            &&& !numbered ==> tagged_number(args, rs) == greatest(rs, rs.len() as int)
            &&& match tag_chosen(args, rs) {
                Ok(i) => text.len() > 0 && 0 <= i < rs.len() && rs[i].number == tagged_number(
                    args,
                    rs,
                ),
                Err(e) => text.len() == 0 || (e.code == 2 && forall|j: int|
                    0 <= j < rs.len() ==> (#[trigger] rs[j]).number != tagged_number(args, rs)),
            }
        }),
{
    reveal_strlit("\r");
    let from = if names_number(args) {
        2int
    } else {
        1int
    };
    let words = joined(args.subrange(from, args.len() as int), " "@);
    if !occurs(words, "\r"@) {
        law_every_occurrence_is_replaced(words, "\r"@, words, ""@);
    }
    let all = replaced(words, "\r"@, ""@);
    law_trimming_takes_the_ends(all, CharClass::Space);
    let t = trimmed_start(all, CharClass::Space);
    law_trimming_takes_the_ends(t, CharClass::Space);
    let text = tagged_text(args);
    if text.len() > 0 {
        assert(text[0] == t[0]);
    }
    lemma_place_of_number(rs, tagged_number(args, rs), 0);
}

/// An answer means yes exactly where it is a `y` or a `yes`, in small or great letters, whatever
/// white space stands around it.
pub proof fn law_yes_is_said_in_these_ways(before: Seq<char>, word: Seq<char>, behind: Seq<char>)
    requires
        forall|i: int| 0 <= i < before.len() ==> is_space(#[trigger] before[i]),
        forall|i: int| 0 <= i < behind.len() ==> is_space(#[trigger] behind[i]),
        word.len() > 0 ==> !is_space(word[0]) && !is_space(word.last()),
    ensures
        says_yes(before + word + behind) <==> {
            ||| word.len() == 1 && (word[0] == 'y' || word[0] == 'Y')
            ||| word.len() == 3 && (word[0] == 'y' || word[0] == 'Y') && (word[1] == 'e' || word[1]
                == 'E') && (word[2] == 's' || word[2] == 'S')
        },
{
    reveal_strlit("y");
    reveal_strlit("yes");
    law_trimmed_text_is_the_middle(before, word, behind);
    let low = lowered(word);
    assert(low.len() == word.len());
    if word.len() == 1 || word.len() == 3 {
        law_lowering_changes_great_letters(word, 0);
    }
    if word.len() == 3 {
        law_lowering_changes_great_letters(word, 1);
        law_lowering_changes_great_letters(word, 2);
    }
    if low == "y"@ {
        assert(low.len() == "y"@.len());
        assert(low[0] == 'y');
        assert(low[0] as int == 121);
        assert(word[0] == 'y' || word[0] as int == 89);
    }
    if low == "yes"@ {
        assert(low.len() == "yes"@.len());
        assert(low[0] == 'y' && low[1] == 'e' && low[2] == 's');
        assert(low[0] as int == 121 && low[1] as int == 101 && low[2] as int == 115);
        assert(word[0] == 'y' || word[0] as int == 89);
        assert(word[1] == 'e' || word[1] as int == 69);
        assert(word[2] == 's' || word[2] as int == 83);
    }
    assert('Y' as int == 89 && 'E' as int == 69 && 'S' as int == 83);
    if word.len() == 1 && (word[0] == 'y' || word[0] == 'Y') {
        assert(low =~= "y"@);
    }
    if word.len() == 3 && (word[0] == 'y' || word[0] == 'Y') && (word[1] == 'e' || word[1] == 'E')
        && (word[2] == 's' || word[2] == 'S') {
        assert(low =~= "yes"@);
    }
}

proof fn lemma_separators_filtered(args: Seq<Seq<char>>, n: int)
    requires
        0 <= n <= args.len(),
    ensures
        without_separators(args, n) == args.take(n).filter(|arg: Seq<char>| arg != "--"@),
    decreases n,
{
    let keeps = |arg: Seq<char>| arg != "--"@;
    if n > 0 {
        lemma_separators_filtered(args, n - 1);
        assert(args.take(n).drop_last() =~= args.take(n - 1));
        assert(args.take(n).last() == args[n - 1]);
    }
    reveal(Seq::filter);
}

/// Of the arguments exactly the separators are left out, and the others stay in order.
pub proof fn law_only_separators_are_dropped(args: Seq<Seq<char>>)
    ensures
        without_separators(args, args.len() as int) == args.filter(|arg: Seq<char>| arg != "--"@),
{
    lemma_separators_filtered(args, args.len() as int);
    assert(args.take(args.len() as int) =~= args);
}

proof fn lemma_similar_filtered(rs: Seq<RevisionView>, n: int, leaf: Seq<char>)
    requires
        0 <= n <= rs.len(),
    ensures
        similar(rs, n, leaf) == rs.take(n).filter(
            |r: RevisionView| occurs(r.leaf, leaf) || occurs(leaf, r.leaf),
        ),
    decreases n,
{
    if n > 0 {
        lemma_similar_filtered(rs, n - 1, leaf);
        assert(rs.take(n).drop_last() =~= rs.take(n - 1));
        assert(rs.take(n).last() == rs[n - 1]);
    }
    reveal(Seq::filter);
}

proof fn lemma_meant_filtered(rs: Seq<RevisionView>, n: int, query: Seq<char>, full: Seq<char>)
    requires
        0 <= n <= rs.len(),
    ensures
        meant_part(rs, n, query, full) == rs.take(n).filter(
            |r: RevisionView|
                if query.len() > 0 && query[0] == '/' {
                    components(r.access.path) == components(full)
                } else {
                    r.leaf == query
                },
        ),
    decreases n,
{
    if n > 0 {
        lemma_meant_filtered(rs, n - 1, query, full);
        assert(rs.take(n).drop_last() =~= rs.take(n - 1));
        assert(rs.take(n).last() == rs[n - 1]);
    }
    reveal(Seq::filter);
}

/// The revisions that a query means are, in their order, all those of the file that it names from
/// the root on, and else all those of files with its name.
pub proof fn law_query_means_all_its_revisions(
    rs: Seq<RevisionView>,
    query: Seq<char>,
    full: Seq<char>,
)
    ensures
        meant_by(rs, query, full) == rs.filter(
            |r: RevisionView|
                if query.len() > 0 && query[0] == '/' {
                    components(r.access.path) == components(full)
                } else {
                    r.leaf == query
                },
        ),
        similar(rs, rs.len() as int, query) == rs.filter(
            |r: RevisionView| occurs(r.leaf, query) || occurs(query, r.leaf),
        ),
{
    lemma_meant_filtered(rs, rs.len() as int, query, full);
    lemma_similar_filtered(rs, rs.len() as int, query);
    assert(rs.take(rs.len() as int) =~= rs);
}

/// What a flag asks for: a restore where it is `-r`, and a part of a revision where it is `-g`, with
/// nothing but the letters `b` and `d` behind it; a list where it begins with `-ls`.
pub proof fn law_flags_ask_for_one_thing(flag: Seq<char>)
    ensures
        request_of(flag) == Request::Restore <==> flag.len() >= 2 && flag[0] == '-' && flag[1] == 'r'
            && forall|i: int| 2 <= i < flag.len() ==> #[trigger] flag[i] == 'b' || flag[i] == 'd',
        request_of(flag) == Request::Get <==> flag.len() >= 2 && flag[0] == '-' && flag[1] == 'g'
            && forall|i: int| 2 <= i < flag.len() ==> #[trigger] flag[i] == 'b' || flag[i] == 'd',
        request_of(flag) == Request::List <==> flag.len() >= 3 && flag[0] == '-' && flag[1] == 'l'
            && flag[2] == 's',
        request_of(flag) == Request::Help <==> flag == "--help"@ || flag == "-?"@,
        request_of(flag) == Request::History <==> flag == "-h"@ || flag == "-history"@,
        request_of(flag) == Request::Where <==> flag == "-w"@ || flag == "-where"@,
        request_of(flag) == Request::Search <==> flag == "-s"@ || flag == "-search"@,
        request_of(flag) == Request::Diff <==> flag == "-d"@ || flag == "-diff"@ || flag == "-dif"@,
        request_of(flag) == Request::Tag <==> flag == "-tag"@,
        request_of(flag) == Request::Goto <==> flag == "-goto"@,
        request_of(flag) != Request::Nothing,
{
    reveal_strlit("--help");
    reveal_strlit("-?");
    reveal_strlit("-h");
    reveal_strlit("-history");
    reveal_strlit("-w");
    reveal_strlit("-where");
    reveal_strlit("-s");
    reveal_strlit("-search");
    reveal_strlit("-d");
    reveal_strlit("-diff");
    reveal_strlit("-dif");
    reveal_strlit("-tag");
    reveal_strlit("-goto");
    reveal_strlit("-ls");
    reveal_strlit("-r");
    reveal_strlit("-g");
    if flag.len() >= 2 {
        assert(flag.subrange(0, 2) =~= seq![flag[0], flag[1]]);
        assert("-r"@ =~= seq!['-', 'r'] && "-g"@ =~= seq!['-', 'g']);
        assert(seq![flag[0], flag[1]][0] == flag[0] && seq![flag[0], flag[1]][1] == flag[1]);
        assert(seq!['-', 'r'][0] == '-' && seq!['-', 'r'][1] == 'r' && seq!['-', 'g'][1] == 'g');
    }
    if flag.len() >= 3 {
        assert(flag.subrange(0, 3) =~= seq![flag[0], flag[1], flag[2]]);
        assert("-ls"@ =~= seq!['-', 'l', 's']);
        assert(seq![flag[0], flag[1], flag[2]][1] == flag[1] && seq![flag[0], flag[1], flag[2]][2]
            == flag[2] && seq![flag[0], flag[1], flag[2]][0] == flag[0]);
        assert(seq!['-', 'l', 's'][0] == '-' && seq!['-', 'l', 's'][1] == 'l' && seq![
            '-',
            'l',
            's',
        ][2] == 's');
    }
    assert("--help"@[1] == '-' && "-?"@[1] == '?' && "-h"@[1] == 'h' && "-history"@[1] == 'h'
        && "-w"@[1] == 'w' && "-where"@[1] == 'w' && "-s"@[1] == 's' && "-search"@[1] == 's'
        && "-d"@[1] == 'd' && "-diff"@[1] == 'd' && "-dif"@[1] == 'd' && "-tag"@[1] == 't'
        && "-goto"@[1] == 'g' && "-goto"@[2] == 'o');
    assert("-h"@.len() == 2 && "-history"@.len() == 8 && "-w"@.len() == 2 && "-where"@.len() == 6
        && "-s"@.len() == 2 && "-search"@.len() == 7 && "-d"@.len() == 2 && "-diff"@.len() == 5
        && "-dif"@.len() == 4 && "--help"@.len() == 6 && "-?"@.len() == 2);
}

/// Painting puts a text between two marks where there are colours, and else leaves it.
pub proof fn law_paint_keeps_the_text(color: bool, code: Seq<char>, text: Seq<char>)
    ensures
        painted(false, code, text) == text,
        occurs(painted(color, code, text), text),
        color ==> painted(color, code, text).len() == text.len() + code.len() + 7,
        labelled(false, text) == text && path_shown(false, text) == text && number_shown(false, text)
            == text && warned(false, text) == text,
{
    reveal_strlit("\x1b[");
    reveal_strlit("m");
    reveal_strlit("\x1b[0m");
    let p = painted(color, code, text);
    if color {
        let front = "\x1b["@ + code + "m"@;
        assert(p =~= front + text + "\x1b[0m"@);
        law_occurrence_splits_a_text(p, text);
    } else {
        assert(p =~= Seq::<char>::empty() + text + Seq::<char>::empty());
        law_occurrence_splits_a_text(p, text);
    }
}

/// A diff keeps its lines when it is painted: there are as many, in their order, each with its text
/// in it. Lines that were added and lines that were taken out get colours of their own, and the
/// headings another.
pub proof fn law_painted_diff_keeps_its_lines(text: Seq<char>, line: Seq<char>)
    ensures
        painted_diff(false, text) == text,
        ({
            let shown = pieces(painted_diff(true, text), "\n"@);
            let lines = pieces(text, "\n"@);
            &&& shown.len() == lines.len()
            &&& forall|i: int|
                0 <= i < lines.len() ==> #[trigger] shown[i] == painted_line(lines[i]) && occurs(
                    shown[i],
                    lines[i],
                )
        }),
        line.len() > 0 && line[0] == '+' && !(line.len() >= 3 && line[1] == '+' && line[2] == '+')
            ==> painted_line(line) == "\x1b[32m"@ + line + "\x1b[0m"@,
        line.len() > 0 && line[0] == '-' && !(line.len() >= 3 && line[1] == '-' && line[2] == '-')
            ==> painted_line(line) == "\x1b[31m"@ + line + "\x1b[0m"@,
        line.len() >= 3 && (line[0] == '-' || line[0] == '+') && line[1] == line[0] && line[2]
            == line[0] ==> painted_line(line) == "\x1b[36m"@ + line + "\x1b[0m"@,
        line.len() >= 2 && line[0] == '@' && line[1] == '@' ==> painted_line(line) == "\x1b[36m"@
            + line + "\x1b[0m"@,
        line.len() == 0 || (line[0] != '+' && line[0] != '-' && line[0] != '@') ==> painted_line(
            line,
        ) == line,
{
    reveal_strlit("\n");
    reveal_strlit("+");
    reveal_strlit("+++");
    reveal_strlit("-");
    reveal_strlit("---");
    reveal_strlit("@@");
    reveal_strlit("32");
    reveal_strlit("31");
    reveal_strlit("36");
    reveal_strlit("\x1b[");
    reveal_strlit("m");
    reveal_strlit("\x1b[0m");
    reveal_strlit("\x1b[32m");
    reveal_strlit("\x1b[31m");
    reveal_strlit("\x1b[36m");
    let lines = pieces(text, "\n"@);
    law_joining_undoes_splitting(text, "\n"@);
    let painted_lines = lines.map(|i: int, l: Seq<char>| painted_line(l));
    assert forall|i: int| 0 <= i < painted_lines.len() implies one_line(
        #[trigger] painted_lines[i],
    ) && occurs(painted_lines[i], lines[i]) by {
        let l = lines[i];
        assert(!occurs(l, "\n"@));
        assert(one_line(l)) by {
            assert forall|k: int| 0 <= k < l.len() implies #[trigger] l[k] != '\n' by {
                if l[k] == '\n' {
                    assert(l.subrange(k, k + 1) =~= "\n"@);
                    assert(occurs_at(l, "\n"@, k));
                }
            }
        }
        match diff_line_code(l) {
            Some(code) => {
                law_paint_keeps_the_text(true, code, l);
                let p = painted(true, code, l);
                assert forall|k: int| 0 <= k < p.len() implies #[trigger] p[k] != '\n' by {
                    assert(code.len() == 2);
                    if 5 <= k < 5 + l.len() {
                        assert(p[k] == l[k - 5]);
                    }
                }
            },
            None => {
                assert(l =~= Seq::<char>::empty() + l + Seq::<char>::empty());
                law_occurrence_splits_a_text(l, l);
            },
        }
    }
    law_splitting_undoes_joining(painted_lines);
    assert("\x1b["@ + "32"@ + "m"@ =~= "\x1b[32m"@);
    assert("\x1b["@ + "31"@ + "m"@ =~= "\x1b[31m"@);
    assert("\x1b["@ + "36"@ + "m"@ =~= "\x1b[36m"@);
    if line.len() >= 1 {
        assert(line.subrange(0, 1) =~= seq![line[0]]);
        assert("+"@ =~= seq!['+'] && "-"@ =~= seq!['-']);
        assert(seq![line[0]][0] == line[0] && seq!['+'][0] == '+' && seq!['-'][0] == '-');
    }
    if line.len() >= 2 {
        assert(line.subrange(0, 2) =~= seq![line[0], line[1]]);
        assert("@@"@ =~= seq!['@', '@']);
        assert(seq![line[0], line[1]][0] == line[0] && seq!['@', '@'][0] == '@');
    }
    if line.len() >= 3 {
        let t = seq![line[0], line[1], line[2]];
        assert(line.subrange(0, 3) =~= t);
        assert("+++"@ =~= seq!['+', '+', '+'] && "---"@ =~= seq!['-', '-', '-']);
        assert(t[0] == line[0] && t[1] == line[1] && t[2] == line[2]);
        assert(seq!['+', '+', '+'][0] == '+' && seq!['+', '+', '+'][1] == '+' && seq!['+', '+', '+'][2]
            == '+');
        assert(seq!['-', '-', '-'][0] == '-' && seq!['-', '-', '-'][1] == '-' && seq!['-', '-', '-'][2]
            == '-');
    }
}

proof fn lemma_path_lines(paths: Seq<Seq<char>>, n: int)
    requires
        0 <= n <= paths.len(),
    ensures
        path_lines(false, paths, n) == joined(paths.take(n).push(Seq::empty()), "\n"@),
    decreases n,
{
    reveal_strlit("\n");
    let all = paths.take(n).push(Seq::empty());
    assert(all.drop_last() =~= paths.take(n));
    if n > 0 {
        lemma_path_lines(paths, n - 1);
        let before = paths.take(n - 1).push(Seq::empty());
        assert(before.drop_last() =~= paths.take(n - 1));
        assert(paths.take(n).drop_last() =~= paths.take(n - 1));
        assert(paths.take(n).last() == paths[n - 1]);
        assert(all.len() > 1);
        if n == 1 {
            assert(joined(paths.take(1), "\n"@) == paths[0]);
            assert(path_lines(false, paths, 0) =~= Seq::<char>::empty());
        } else {
            assert(joined(before, "\n"@) =~= joined(paths.take(n - 1), "\n"@) + "\n"@);
        }
        assert(path_lines(false, paths, n) =~= joined(paths.take(n), "\n"@) + "\n"@
            + Seq::<char>::empty());
    } else {
        assert(all.len() == 1);
    }
}

/// The report on where a file is has a line for each of the files that are meant, in order, each
/// once, and no other line.
pub proof fn law_every_meant_file_has_its_line(
    rs: Seq<RevisionView>,
    query: Seq<char>,
    full: Seq<char>,
)
    requires
        forall|i: int| 0 <= i < rs.len() ==> one_line((#[trigger] rs[i]).access.path),
    ensures
        pieces(files_meant(false, rs, query, full), "\n"@) == files_of(meant_by(rs, query, full)).push(
            Seq::empty(),
        ),
{
    let meant_rows = meant_by(rs, query, full);
    let files = files_of(meant_rows);
    lemma_path_lines(files, files.len() as int);
    assert(files.take(files.len() as int) =~= files);
    law_each_file_is_listed_once(meant_rows);
    lemma_meant_among(rs, rs.len() as int, query, full);
    let all = files.push(Seq::empty());
    assert forall|i: int| 0 <= i < all.len() implies one_line(#[trigger] all[i]) by {
        if i < files.len() {
            assert(revision_paths(meant_rows).contains(files[i]));
            let k = choose|k: int|
                0 <= k < meant_rows.len() && revision_paths(meant_rows)[k] == files[i];
            assert(rs.contains(meant_rows[k]));
            let j = choose|j: int| 0 <= j < rs.len() && rs[j] == meant_rows[k];
            assert(one_line(rs[j].access.path));
        }
    }
    law_splitting_undoes_joining(all);
}

proof fn lemma_meant_among(rs: Seq<RevisionView>, n: int, query: Seq<char>, full: Seq<char>)
    requires
        0 <= n <= rs.len(),
    ensures
        forall|k: int|
            0 <= k < meant_part(rs, n, query, full).len() ==> rs.contains(
                #[trigger] meant_part(rs, n, query, full)[k],
            ),
    decreases n,
{
    if n > 0 {
        lemma_meant_among(rs, n - 1, query, full);
        let before = meant_part(rs, n - 1, query, full);
        let now = meant_part(rs, n, query, full);
        let last = n - 1;
        assert(rs.contains(rs[last]));
        assert forall|k: int| 0 <= k < now.len() implies rs.contains(#[trigger] now[k]) by {
            if k < before.len() {
                assert(now[k] == before[k]);
            } else {
                assert(now[k] == rs[last]);
            }
        }
    }
}

/// The report on a revision ends in its content and begins with its file and its number.
pub proof fn law_report_holds_the_content(
    path: Seq<char>,
    number: u64,
    latest: bool,
    part: Part,
    text: Seq<char>,
)
    ensures
        finishes_with(revision_report(false, path, number, latest, part, text), text),
        begins_with(
            revision_report(false, path, number, latest, part, text),
            "FILE: "@ + path + "\nREV: "@ + decimal(number as nat),
        ),
        revision_report(false, path, number, true, part, text).len() == revision_report(
            false,
            path,
            number,
            false,
            part,
            text,
        ).len() + 9,
{
    reveal_strlit("FILE:");
    reveal_strlit("REV:");
    reveal_strlit("TYPE:");
    reveal_strlit("FILE: ");
    reveal_strlit("\nREV: ");
    reveal_strlit(" ");
    reveal_strlit("\n");
    reveal_strlit("(latest)");
    let r = revision_report(false, path, number, latest, part, text);
    let head = "FILE: "@ + path + "\nREV: "@ + decimal(number as nat);
    let shown = r.subrange(0, head.len() as int);
    assert(r.subrange(r.len() - text.len(), r.len() as int) =~= text);
    assert(shown =~= head);
}

/// An error is printed with a line feed at its end, and never with two where it has its own; one
/// that goes with the output always gets one.
pub proof fn law_errors_end_with_a_line_feed(message: Seq<char>, code: i32, color: bool)
    ensures
        printed(raw(message + seq!['\n'], code), color) == message + seq!['\n'],
        message.len() == 0 || message.last() != '\n' ==> printed(raw(message, code), color) == message
            + seq!['\n'],
        printed(local(message), false) == message + seq!['\n'],
        local(message).code == 1 && raw(message, code).code == code,
        local(message).stdout && !raw(message, code).stdout,
{
    reveal_strlit("\n");
    assert("\n"@ =~= seq!['\n']);
    let ended = message + seq!['\n'];
    assert(ended.subrange(ended.len() - 1, ended.len() as int) =~= "\n"@);
    if finishes_with(message, "\n"@) {
        assert(message.subrange(message.len() - 1, message.len() as int)[0] == '\n');
    }
}

/// Colour is forced by a one, a yes or a true, in great or small letters, and by nothing else.
pub proof fn law_colour_is_forced_in_these_ways(word: Seq<char>)
    ensures
        forces_color(Some(word)) <==> lowered(word) == "1"@ || lowered(word) == "yes"@ || lowered(
            word,
        ) == "true"@,
        !forces_color(None),
        forces_color(Some(lowered(word))) == forces_color(Some(word)),
{
    if word.len() > 0 {
        law_lowering_changes_great_letters(word, 0);
    } else {
        assert(lowered(lowered(word)) =~= lowered(word));
    }
}

/// What the program is started for: to install where the first argument says so, to tell its version
/// or its editors where that is the only argument, to browse where there is none and someone is
/// there, and else for a command.
pub proof fn law_program_is_started_for_one_thing(args: Seq<Seq<char>>, interactive: bool)
    ensures
        startup_of(args, interactive) is Install <==> args.len() > 0 && args[0]
            == "--trusted-install-helper"@,
        startup_of(args, interactive) is Version <==> args.len() == 1 && (args[0] == "--version"@
            || args[0] == "-V"@),
        startup_of(args, interactive) is Editors <==> args.len() == 1 && args[0]
            == "--editor-registry"@,
        startup_of(args, interactive) is Browser <==> args.len() == 0 && interactive,
{
    reveal_strlit("--trusted-install-helper");
    reveal_strlit("--version");
    reveal_strlit("-V");
    reveal_strlit("--editor-registry");
    assert("--trusted-install-helper"@.len() == 24);
    assert("--version"@.len() == 9 && "-V"@.len() == 2 && "--editor-registry"@.len() == 17);
}

/// Where a file is not found, those with a similar name are named: each file of which the name holds
/// what is looked for, or is held by it.
pub proof fn law_similar_files_are_named(rs: Seq<RevisionView>, query: Seq<char>, k: int)
    requires
        0 <= k < rs.len(),
        occurs(rs[k].leaf, query_leaf(query)) || occurs(query_leaf(query), rs[k].leaf),
    ensures
        exists|f: Seq<char>|
            same_path_text(f, rs[k].access.path) && #[trigger] occurs(
                missing_message(rs, query),
                "  "@ + f,
            ),
        occurs(missing_message(rs, query), query),
{
    let n = rs.len() as int;
    let leaf = query_leaf(query);
    lemma_similar_filtered(rs, n, leaf);
    assert(rs.take(n) =~= rs);
    let near = |r: RevisionView| occurs(r.leaf, leaf) || occurs(leaf, r.leaf);
    let found = similar(rs, n, leaf);
    assert(near(rs[k]));
    rs.lemma_filter_contains(near, k);
    let at = choose|at: int| 0 <= at < found.len() && found[at] == rs[k];
    law_each_file_is_listed_once(found);
    let files = files_of(found);
    assert(names_path(files, found[at].access.path));
    let i = choose|i: int|
        0 <= i < files.len() && same_path_text(#[trigger] files[i], found[at].access.path);
    let lines = indented(files);
    assert(lines[i] == "  "@ + files[i]);
    lemma_joined_occurs(lines, "\n"@, i);
    let list = joined(lines, "\n"@);
    let head = "bedit: There is no "@;
    let middle =
        " in this directory. Either use fully qualified file names or goto the dir and try again."@;
    let between = "\n\nSimilar files in repo:\n"@;
    let none = Seq::<char>::empty();
    let text = missing_message(rs, query);
    assert(text =~= (head + query + middle + between) + list + none);
    lemma_occurs_between(head + query + middle + between, list, none);
    lemma_occurs_in_a_part(text, list, lines[i]);
    lemma_occurs_between(head, query, middle + (between + list));
    assert(text =~= head + query + (middle + (between + list)));
}

/// What went wrong beside a revision is said: that no difference could be made, with the file and
/// the number, and what the mirror said; where nothing went wrong nothing is said.
pub proof fn law_every_warning_is_said(path: Seq<char>, made: CreatedView)
    ensures
        !made.backup_only_fallback && made.mirror_warning is None ==> creation_warning(
            path,
            made,
        ).len() == 0,
        made.backup_only_fallback ==> begins_with(
            creation_warning(path, made),
            "bedit: warning: diff generation failed; preserved "@ + path
                + " as backup-only revision "@ + decimal(made.number as nat) + "\n"@,
        ),
        made.mirror_warning matches Some(w) ==> finishes_with(
            creation_warning(path, made),
            "bedit: warning: "@ + path + ": "@ + w + "\n"@,
        ),
{
    let text = creation_warning(path, made);
    let first = "bedit: warning: diff generation failed; preserved "@ + path
        + " as backup-only revision "@ + decimal(made.number as nat) + "\n"@;
    if made.backup_only_fallback {
        assert(text.subrange(0, first.len() as int) =~= first);
    }
    match made.mirror_warning {
        Some(w) => {
            let second = "bedit: warning: "@ + path + ": "@ + w + "\n"@;
            assert(text.subrange(text.len() - second.len(), text.len() as int) =~= second);
        },
        None => {},
    }
}

/// Applying a difference goes step by step: it asks where the file is not what the difference starts
/// from, applies it, records what the file holds where the newest revision does not hold it, puts the
/// result into the file and records it. Each step that fails ends it, and says why.
pub proof fn law_diff_is_applied_step_by_step(
    r: RevisionView,
    backup: Seq<u8>,
    live: Seq<u8>,
    selected: Seq<RevisionView>,
    held: Vec<u8>,
    number: u64,
    f: Failure,
)
    requires
        selected.len() > 0,
        selected.len() <= usize::MAX,
    ensures
        ({
            let next = |step: DiffStepView, event: DiffEvent|
                diff_restore_next(step, event, selected, live);
            let start = diff_restore_begun(r, Some(backup), live);
            let latest = place_of_greatest(selected, selected.len() as int)->0 as usize;
            &&& r.diff is None ==> start is Failed
            &&& diff_restore_begun(r, None, live) is Failed
            &&& r.diff is Some && backup == live ==> start == DiffStepView::Apply
            &&& r.diff is Some && backup != live ==> start is Ask
            &&& next(DiffStepView::Apply, DiffEvent::Applied(true)) == DiffStepView::RenderLatest(
                latest,
            )
            &&& next(DiffStepView::Apply, DiffEvent::Applied(false)) is Failed
            &&& held@ == live ==> next(
                DiffStepView::RenderLatest(latest),
                DiffEvent::Rendered(Some(held)),
            ) == DiffStepView::Replace
            &&& held@ != live ==> next(
                DiffStepView::RenderLatest(latest),
                DiffEvent::Rendered(Some(held)),
            ) == DiffStepView::RecordLive
            &&& next(DiffStepView::RenderLatest(latest), DiffEvent::Rendered(None)) is Failed
            &&& next(DiffStepView::RecordLive, DiffEvent::Recorded(Ok(number)))
                == DiffStepView::Replace
            &&& next(DiffStepView::RecordLive, DiffEvent::Recorded(Err(f))) is Failed
            &&& next(DiffStepView::Replace, DiffEvent::Replaced(Ok(()))) == DiffStepView::Record
            &&& next(DiffStepView::Replace, DiffEvent::Replaced(Err(f))) is Failed
            &&& next(DiffStepView::Record, DiffEvent::Recorded(Ok(number))) == DiffStepView::Done(
                number,
            )
            &&& next(DiffStepView::Record, DiffEvent::Recorded(Err(f))) == DiffStepView::PutBack(
                f@,
            )
            &&& next(DiffStepView::PutBack(f@), DiffEvent::Replaced(Ok(()))) is Failed
        }),
{
    law_place_of_greatest_is_the_last(selected, selected.len() as int);
}

/// The revisions of a file are exactly those with its path, in their order; a file that is not known
/// is named in what is said of it.
pub proof fn law_revisions_of_a_file(rs: Seq<RevisionView>, path: Seq<char>, n: int)
    requires
        0 <= n <= rs.len(),
    ensures
        history_part(rs, n, path) == rs.take(n).filter(
            |r: RevisionView| components(r.access.path) == components(path),
        ),
        of_file(rs, path) == history_part(rs, rs.len() as int, path),
        occurs(unknown_message(path), path),
    decreases n,
{
    reveal(Seq::filter);
    lemma_occurs_between(
        "bedit: File "@,
        path,
        " does not exist in the bedit repo. To add it to the repo, open it in an editor."@,
    );
    if n > 0 {
        law_revisions_of_a_file(rs, path, n - 1);
        assert(rs.take(n).drop_last() =~= rs.take(n - 1));
        assert(rs.take(n).last() == rs[n - 1]);
    }
}

/// What is said where a restored content could not be recorded: why, and whether the file could be
/// put back.
pub proof fn law_unrecorded_restore_says_why(why: FailureView, f: Failure)
    ensures
        occurs(unrecorded_message(why, Ok(())), why.message),
        finishes_with(unrecorded_message(why, Ok(())), "; restored prior live file\n"@),
        occurs(unrecorded_message(why, Err(f)), why.message),
        finishes_with(
            unrecorded_message(why, Err(f)),
            "; cannot restore prior live file: "@ + f.message@ + "\n"@,
        ),
{
    let head = "cannot preserve restored state: "@;
    let good = "; restored prior live file\n"@;
    let bad = "; cannot restore prior live file: "@ + f.message@ + "\n"@;
    let a = unrecorded_message(why, Ok(()));
    let b = unrecorded_message(why, Err(f));
    assert(a =~= head + why.message + good);
    assert(b =~= head + why.message + bad);
    lemma_occurs_between(head, why.message, good);
    lemma_occurs_between(head, why.message, bad);
    assert(a.subrange(a.len() - good.len(), a.len() as int) =~= good);
    assert(b.subrange(b.len() - bad.len(), b.len() as int) =~= bad);
}

/// A choice is what was wanted: the same place, or the same error.
pub proof fn law_choice_is_what_was_wanted(i: usize, j: int, e: CliError, f: CliErrorView)
    ensures
        chooses(Ok(i), Ok(j)) <==> i == j,
        chooses(Err(e), Err(f)) <==> e@ == f,
        !chooses(Ok(i), Err(f)),
        !chooses(Err(e), Ok(j)),
{
}

/// A flag with parts is its letter and then any of the two letters of the parts, in any order.
pub proof fn law_flags_with_parts(head: Seq<char>, letters: Seq<char>)
    ensures
        flag_with_parts(head + letters, head) <==> forall|i: int|
            0 <= i < letters.len() ==> #[trigger] letters[i] == 'b' || letters[i] == 'd',
        letters.len() < head.len() ==> !flag_with_parts(letters, head),
{
    let flag = head + letters;
    assert(flag.subrange(0, head.len() as int) =~= head);
    if flag_with_parts(flag, head) {
        assert forall|i: int| 0 <= i < letters.len() implies #[trigger] letters[i] == 'b'
            || letters[i] == 'd' by {
            assert(flag[head.len() + i] == letters[i]);
        }
    }
    if forall|i: int|
        0 <= i < letters.len() ==> #[trigger] letters[i] == 'b' || letters[i] == 'd' {
        assert forall|i: int| head.len() <= i < flag.len() implies #[trigger] flag[i] == 'b'
            || flag[i] == 'd' by {
            assert(flag[i] == letters[i - head.len()]);
        }
    }
}

/// A restore is recorded under a name that says what was restored.
pub proof fn law_restore_is_recorded_by_its_part(part: Part)
    ensures
        restore_editor(part) == "restore-"@ + part_name(part),
        part_name(part) == match part {
            Part::Backup => "backup"@,
            Part::Diff => "diff"@,
            Part::Rendered => "rendered"@,
        },
{
    reveal_strlit("restore-");
    reveal_strlit("backup");
    reveal_strlit("diff");
    reveal_strlit("rendered");
    reveal_strlit("restore-backup");
    reveal_strlit("restore-diff");
    reveal_strlit("restore-rendered");
    assert("restore-backup"@ =~= "restore-"@ + "backup"@);
    assert("restore-diff"@ =~= "restore-"@ + "diff"@);
    assert("restore-rendered"@ =~= "restore-"@ + "rendered"@);
}

/// Colours have their codes: for labels, paths, numbers and warnings.
pub proof fn law_colours_have_their_codes(text: Seq<char>)
    ensures
        labelled(true, text) == "\x1b[38;5;33m"@ + text + "\x1b[0m"@,
        path_shown(true, text) == "\x1b[36m"@ + text + "\x1b[0m"@,
        number_shown(true, text) == "\x1b[35m"@ + text + "\x1b[0m"@,
        warned(true, text) == "\x1b[33m"@ + text + "\x1b[0m"@,
{
    reveal_strlit("\x1b[");
    reveal_strlit("m");
    reveal_strlit("38;5;33");
    reveal_strlit("36");
    reveal_strlit("35");
    reveal_strlit("33");
    reveal_strlit("\x1b[38;5;33m");
    reveal_strlit("\x1b[36m");
    reveal_strlit("\x1b[35m");
    reveal_strlit("\x1b[33m");
    assert("\x1b["@ + "38;5;33"@ + "m"@ =~= "\x1b[38;5;33m"@);
    assert("\x1b["@ + "36"@ + "m"@ =~= "\x1b[36m"@);
    assert("\x1b["@ + "35"@ + "m"@ =~= "\x1b[35m"@);
    assert("\x1b["@ + "33"@ + "m"@ =~= "\x1b[33m"@);
}

/// The model of an error has all that is known of it.
pub proof fn law_model_of_an_error(x: CliError)
    ensures
        x@.message == x.message@,
        x@.code == x.code,
        x@.stdout == x.stdout,
        x@.color_warn == x.color_warn,
{
}

} // verus!
