//! Where a repository stands, who owns it, and how it is configured.

use crate::failure::{Failure, FailureKind};
use crate::identity::{RuntimeIdentity, SudoHistoryPolicy};
use crate::path::{components_of, join, same_path, starts_with_path};
use crate::text::{
    chars_of, lines, parse_bounded, same, split_once, starts_with, text_of, to_decimal, trim,
};
#[allow(unused_imports)]
use crate::{
    failure::{fails, FailureView},
    identity::IdentityView,
    path::{components, is_within, joined_path, same_path_text},
    text::{
        begins_with, cut_at, decimal, finishes_with, is_space, law_trimmed_text_is_the_middle,
        lemma_ends_cleanly, lemma_pieces_last, lemma_pieces_step, line_seq, occurs, occurs_at,
        opt_str, opt_view, parsed, trimmed, views,
    },
};
use vstd::prelude::*;

verus! {

/// A repository and its settings.
#[derive(Debug, PartialEq, Eq)]
pub struct Config {
    pub root: String,
    pub access: String,
    pub backups: String,
    pub edits: String,
    pub dirs: String,
    pub tags: String,
    pub actors: String,
    pub actor: String,
    pub history_owner: String,
    pub ownership: Option<(u32, u32)>,
    pub keep_backup_if_no_edit: bool,
    pub diff_tail_lines: usize,
    pub exclude: String,
}

/// The model of a configuration.
pub struct ConfigView {
    pub root: Seq<char>,
    pub access: Seq<char>,
    pub backups: Seq<char>,
    pub edits: Seq<char>,
    pub dirs: Seq<char>,
    pub tags: Seq<char>,
    pub actors: Seq<char>,
    pub actor: Seq<char>,
    pub history_owner: Seq<char>,
    pub ownership: Option<(u32, u32)>,
    pub keep_backup_if_no_edit: bool,
    pub diff_tail_lines: usize,
    pub exclude: Seq<char>,
}

impl View for Config {
    type V = ConfigView;

    open spec fn view(&self) -> ConfigView {
        ConfigView {
            root: self.root@,
            access: self.access@,
            backups: self.backups@,
            edits: self.edits@,
            dirs: self.dirs@,
            tags: self.tags@,
            actors: self.actors@,
            actor: self.actor@,
            history_owner: self.history_owner@,
            ownership: self.ownership,
            keep_backup_if_no_edit: self.keep_backup_if_no_edit,
            diff_tail_lines: self.diff_tail_lines,
            exclude: self.exclude@,
        }
    }
}

impl Clone for Config {
    fn clone(&self) -> (r: Self)
        ensures
            r@ == self@,
    {
        Config {
            root: self.root.clone(),
            access: self.access.clone(),
            backups: self.backups.clone(),
            edits: self.edits.clone(),
            dirs: self.dirs.clone(),
            tags: self.tags.clone(),
            actors: self.actors.clone(),
            actor: self.actor.clone(),
            history_owner: self.history_owner.clone(),
            ownership: self.ownership,
            keep_backup_if_no_edit: self.keep_backup_if_no_edit,
            diff_tail_lines: self.diff_tail_lines,
            exclude: self.exclude.clone(),
        }
    }
}

/// The model of an optional configuration.
pub open spec fn opt_config(c: Option<Config>) -> Option<ConfigView> {
    match c {
        Some(x) => Some(x@),
        None => None,
    }
}

/// A value with a leading `~` replaced by the home directory.
pub open spec fn home_expanded(value: Seq<char>, home: Seq<char>) -> Seq<char> {
    if value == "~"@ {
        home
    } else if begins_with(value, "~/"@) {
        joined_path(home, value.subrange(2, value.len() as int))
    } else {
        value
    }
}

/// Whether a text is an ASCII letter, then ASCII letters, digits and underscores.
pub open spec fn is_setting_name(key: Seq<char>) -> bool {
    &&& key.len() > 0
    &&& is_letter(key[0])
    &&& forall|i: int| 0 <= i < key.len() ==> is_letter(#[trigger] key[i]) || '0' <= key[i] <= '9' || key[i] == '_'
}

/// Whether a character is an ASCII letter.
pub open spec fn is_letter(c: char) -> bool {
    ('a' <= c <= 'z') || ('A' <= c <= 'Z')
}

/// What a line of a configuration file sets.
pub open spec fn line_setting(line: Seq<char>, home: Seq<char>) -> Option<(Seq<char>, Seq<char>)> {
    let text = trimmed(line);
    if begins_with(text, "#"@) {
        None
    } else {
        match cut_at(text, "="@) {
            Some((key, value)) => if is_setting_name(key) {
                Some((key, home_expanded(trimmed(value), home)))
            } else {
                None
            },
            None => None,
        }
    }
}

/// What the first `n` lines set a name to: the last setting counts.
pub open spec fn setting(lines: Seq<Seq<char>>, n: int, name: Seq<char>, home: Seq<char>) -> Option<
    Seq<char>,
>
    decreases n,
{
    if n <= 0 || n > lines.len() {
        None
    } else {
        match line_setting(lines[n - 1], home) {
            Some((key, value)) => if key == name {
                Some(value)
            } else {
                setting(lines, n - 1, name, home)
            },
            None => setting(lines, n - 1, name, home),
        }
    }
}

/// What a configuration file sets a name to; a missing file sets nothing.
pub open spec fn rc_setting(rc: Option<Seq<char>>, name: Seq<char>, home: Seq<char>) -> Option<
    Seq<char>,
> {
    match rc {
        Some(text) => setting(line_seq(text), line_seq(text).len() as int, name, home),
        None => None,
    }
}

/// What is set, or else a default.
pub open spec fn or_default(value: Option<Seq<char>>, default: Seq<char>) -> Seq<char> {
    match value {
        Some(v) => v,
        None => default,
    }
}

/// The configuration of a repository under a root, with a configuration file.
pub open spec fn configured(
    root: Seq<char>,
    rc: Option<Seq<char>>,
    home: Seq<char>,
    actor: Seq<char>,
    history_owner: Seq<char>,
    ownership: Option<(u32, u32)>,
) -> ConfigView {
    ConfigView {
        root,
        access: or_default(rc_setting(rc, "Access"@, home), joined_path(root, "access"@)),
        backups: or_default(rc_setting(rc, "Backups"@, home), joined_path(root, "backups"@)),
        edits: or_default(rc_setting(rc, "Edits"@, home), joined_path(root, "edits"@)),
        dirs: or_default(rc_setting(rc, "Dirs"@, home), joined_path(root, "dirs"@)),
        tags: or_default(rc_setting(rc, "Tags"@, home), joined_path(root, "tags"@)),
        actors: joined_path(root, "actors"@),
        actor,
        history_owner,
        ownership,
        keep_backup_if_no_edit: rc_setting(rc, "keepBackupIfNoEdit"@, home) != Some("0"@),
        diff_tail_lines: match rc_setting(rc, "DiffTailLines"@, home) {
            Some(v) => match parsed(v, usize::MAX as nat) {
                Some(n) => n as usize,
                None => 20,
            },
            None => 20,
        },
        exclude: or_default(rc_setting(rc, "exclude"@, home), "*.log,*::_::a,*::_::b,*::_::d"@),
    }
}

fn expand_home(value: &str, home: &str) -> (r: String)
    ensures
        r@ == home_expanded(value@, home@),
{
    proof {
        reveal_strlit("~/");
    }
    if same(value, "~") {
        return home.to_owned();
    }
    if starts_with(value, "~/") {
        let x: Vec<char> = chars_of(value);
        let rest: String = text_of(&x, 2, x.len());
        return join(home, rest.as_str());
    }
    value.to_owned()
}

fn letter(c: char) -> (r: bool)
    ensures
        r == is_letter(c),
{
    (c >= 'a' && c <= 'z') || (c >= 'A' && c <= 'Z')
}

fn names_setting(key: &str) -> (r: bool)
    ensures
        r == is_setting_name(key@),
{
    let x: Vec<char> = chars_of(key);
    if x.len() == 0 || !letter(x[0]) {
        return false;
    }
    let mut i: usize = 0;
    while i < x.len()
        invariant
            x@ == key@,
            i <= x.len(),
            forall|j: int|
                0 <= j < i ==> is_letter(#[trigger] key@[j]) || '0' <= key@[j] <= '9' || key@[j] == '_',
        decreases x.len() - i,
    {
        let c: char = x[i];
        if !(letter(c) || (c >= '0' && c <= '9') || c == '_') {
            assert(key@[i as int] == c);
            return false;
        }
        i += 1;
    }
    true
}

fn read_setting(line: &str, home: &str) -> (r: Option<(String, String)>)
    ensures
        match r {
            Some(p) => line_setting(line@, home@) == Some((p.0@, p.1@)),
            None => line_setting(line@, home@) is None,
        },
{
    let text: String = trim(line);
    if starts_with(text.as_str(), "#") {
        return None;
    }
    match split_once(text.as_str(), "=") {
        Some((key, value)) => {
            if names_setting(key.as_str()) {
                let value: String = trim(value.as_str());
                let value: String = expand_home(value.as_str(), home);
                Some((key, value))
            } else {
                None
            }
        },
        None => None,
    }
}

/// What a configuration file sets a name to.
pub fn find_setting(rc: Option<&str>, name: &str, home: &str) -> (r: Option<String>)
    ensures
        opt_view(r) == rc_setting(opt_str(rc), name@, home@),
{
    match rc {
        None => None,
        Some(text) => {
            let all: Vec<String> = lines(text);
            let mut n: usize = all.len();
            assert(views(all@).len() == all@.len());
            while n > 0
                invariant
                    n <= all.len(),
                    rc == Some(text),
                    views(all@) == line_seq(text@),
                    setting(line_seq(text@), line_seq(text@).len() as int, name@, home@) == setting(
                        line_seq(text@),
                        n as int,
                        name@,
                        home@,
                    ),
                decreases n,
            {
                assert(line_seq(text@)[n - 1] == all@[n - 1]@);
                match read_setting(all[n - 1].as_str(), home) {
                    Some((key, value)) => {
                        if same(key.as_str(), name) {
                            return Some(value);
                        }
                    },
                    None => {},
                }
                n -= 1;
            }
            None
        },
    }
}

fn location(rc: Option<&str>, name: &str, home: &str, root: &str, default: &str) -> (r: String)
    ensures
        r@ == or_default(rc_setting(opt_str(rc), name@, home@), joined_path(root@, default@)),
{
    match find_setting(rc, name, home) {
        Some(value) => value,
        None => join(root, default),
    }
}

/// What the file system says of one component of a path.
#[derive(Debug, PartialEq, Eq)]
pub enum ComponentStat {
    Present(PathFacts),
    Absent,
    Failed(Failure),
}

/// What matters of a file that exists.
#[derive(Clone, Copy, Debug, PartialEq, Eq, Structural)]
pub struct PathFacts {
    pub is_symlink: bool,
    pub is_dir: bool,
    pub uid: u32,
}

/// The paths from the first component of a path to the path itself.
pub open spec fn prefixes(parts: Seq<Seq<char>>) -> Seq<Seq<char>>
    decreases parts.len(),
{
    if parts.len() == 0 {
        Seq::empty()
    } else if parts.len() == 1 {
        seq![joined_path(Seq::empty(), parts[0])]
    } else {
        let before = prefixes(parts.drop_last());
        before.push(joined_path(before.last(), parts.last()))
    }
}

/// What is wrong with one component of a path in a repository, if anything.
pub open spec fn component_fault(
    config: ConfigView,
    path: Seq<char>,
    cursor: Seq<char>,
    stat: ComponentStat,
) -> Option<FailureView> {
    match stat {
        ComponentStat::Absent => None,
        ComponentStat::Failed(f) => Some(f@),
        ComponentStat::Present(facts) => if facts.is_symlink {
            Some(
                fails(
                    FailureKind::InvalidData,
                    "unsafe symlink in repository path: "@ + cursor,
                ),
            )
        } else if !same_path_text(cursor, path) && !facts.is_dir {
            Some(
                fails(
                    FailureKind::InvalidData,
                    "non-directory repository component: "@ + cursor,
                ),
            )
        } else {
            match config.ownership {
                Some((uid, _)) if is_within(cursor, config.root) && facts.uid != uid => Some(
                    fails(
                        FailureKind::PermissionDenied,
                        "repository component is not owned by uid "@ + decimal(uid as nat) + ": "@
                            + cursor,
                    ),
                ),
                _ => None,
            }
        },
    }
}

/// The first fault of the components from `from` on.
pub open spec fn path_fault(
    config: ConfigView,
    path: Seq<char>,
    cursors: Seq<Seq<char>>,
    stats: Seq<ComponentStat>,
    from: int,
) -> Option<FailureView>
    decreases cursors.len() - from,
{
    if from < 0 || from >= cursors.len() {
        None
    } else {
        match component_fault(config, path, cursors[from], stats[from]) {
            Some(f) => Some(f),
            None => path_fault(config, path, cursors, stats, from + 1),
        }
    }
}

/// The seven places of a repository.
pub open spec fn places(config: ConfigView) -> Seq<Seq<char>> {
    seq![
        config.root,
        config.access,
        config.backups,
        config.edits,
        config.dirs,
        config.tags,
        config.actors,
    ]
}

/// The first fault of the places from `from` on: one outside the root of an owned repository, or
/// one with a fault on its path.
pub open spec fn repository_fault(
    config: ConfigView,
    stats: Seq<Vec<ComponentStat>>,
    from: int,
) -> Option<FailureView>
    decreases places(config).len() - from,
{
    if from < 0 || from >= places(config).len() {
        None
    } else {
        let path = places(config)[from];
        if config.ownership is Some && !is_within(path, config.root) {
            Some(fails(FailureKind::InvalidInput, "repository path escapes root: "@ + path))
        } else {
            match path_fault(config, path, prefixes(components(path)), stats[from]@, 0) {
                Some(f) => Some(f),
                None => repository_fault(config, stats, from + 1),
            }
        }
    }
}

/// Whether a result is success or this failure.
pub open spec fn passes_or(r: Result<(), Failure>, fault: Option<FailureView>) -> bool {
    match (r, fault) {
        (Ok(_), None) => true,
        (Err(f), Some(g)) => f@ == g,
        _ => false,
    }
}

/// The paths from the first component of a path to the path itself.
pub fn path_prefixes(path: &str) -> (r: Vec<String>)
    ensures
        views(r@) == prefixes(components(path@)),
        r@.len() == components(path@).len(),
{
    let parts: Vec<String> = components_of(path);
    let mut out: Vec<String> = Vec::new();
    let mut i: usize = 0;
    assert(views(parts@).take(0) =~= Seq::empty());
    assert(views(out@) =~= prefixes(views(parts@).take(0)));
    while i < parts.len()
        invariant
            i <= parts.len(),
            out@.len() == i,
            views(out@) == prefixes(views(parts@).take(i as int)),
        decreases parts.len() - i,
    {
        let base: String = if i == 0 {
            String::new()
        } else {
            out[i - 1].clone()
        };
        let next: String = join(base.as_str(), parts[i].as_str());
        let ghost before = out@;
        out.push(next);
        proof {
            let now = views(parts@).take(i + 1);
            assert(now.drop_last() =~= views(parts@).take(i as int));
            assert(now.last() == parts@[i as int]@);
            if i > 0 {
                assert(views(before).last() == before[i - 1]@);
            } else {
                assert(base@ =~= Seq::empty());
            }
            assert(views(out@) =~= views(before).push(next@));
            assert(views(out@) =~= prefixes(now));
        }
        i += 1;
    }
    assert(views(parts@).take(parts@.len() as int) =~= views(parts@));
    assert(views(parts@).len() == parts@.len());
    out
}

impl Config {
    /// The configuration of a repository under a root, with the text of a configuration file where
    /// there is one, for a user that acts for themselves.
    pub fn load(root: String, rc: Option<&str>, home: &str, user: &str) -> (r: Self)
        ensures
            r@ == configured(root@, opt_str(rc), home@, user@, user@, None),
    {
        Config::load_with_identity(root, rc, home, user.to_owned(), user.to_owned(), None)
    }

    /// The configuration of a repository under a root, with the text of a configuration file where
    /// there is one.
    pub fn load_with_identity(
        root: String,
        rc: Option<&str>,
        home: &str,
        actor: String,
        history_owner: String,
        ownership: Option<(u32, u32)>,
    ) -> (r: Self)
        ensures
            r@ == configured(root@, opt_str(rc), home@, actor@, history_owner@, ownership),
    {
        let access: String = location(rc, "Access", home, root.as_str(), "access");
        let backups: String = location(rc, "Backups", home, root.as_str(), "backups");
        let edits: String = location(rc, "Edits", home, root.as_str(), "edits");
        let dirs: String = location(rc, "Dirs", home, root.as_str(), "dirs");
        let tags: String = location(rc, "Tags", home, root.as_str(), "tags");
        let actors: String = join(root.as_str(), "actors");
        let keep_backup_if_no_edit: bool = match find_setting(rc, "keepBackupIfNoEdit", home) {
            Some(value) => !same(value.as_str(), "0"),
            None => true,
        };
        let diff_tail_lines: usize = match find_setting(rc, "DiffTailLines", home) {
            Some(value) => match parse_bounded(value.as_str(), usize::MAX as u64) {
                Some(n) => n as usize,
                None => 20,
            },
            None => 20,
        };
        let exclude: String = match find_setting(rc, "exclude", home) {
            Some(value) => value,
            None => "*.log,*::_::a,*::_::b,*::_::d".to_owned(),
        };
        Config {
            root,
            access,
            backups,
            edits,
            dirs,
            tags,
            actors,
            actor,
            history_owner,
            ownership,
            keep_backup_if_no_edit,
            diff_tail_lines,
            exclude,
        }
    }

    /// Whether every component of a path, as the file system has it, may stand in the repository:
    /// no symbolic link, nothing but directories above the path, and everything below the root in
    /// the hands of the owner.
    pub fn validate_path_topology(&self, path: &str, stats: &Vec<ComponentStat>) -> (r: Result<
        (),
        Failure,
    >)
        requires
            stats@.len() == components(path@).len(),
        ensures
            passes_or(r, path_fault(self@, path@, prefixes(components(path@)), stats@, 0)),
    {
        let cursors: Vec<String> = path_prefixes(path);
        let ghost c = prefixes(components(path@));
        let mut i: usize = 0;
        while i < cursors.len()
            invariant
                i <= cursors.len(),
                cursors.len() == stats.len(),
                c == prefixes(components(path@)),
                views(cursors@) == c,
                path_fault(self@, path@, c, stats@, 0) == path_fault(
                    self@,
                    path@,
                    c,
                    stats@,
                    i as int,
                ),
            decreases cursors.len() - i,
        {
            let cursor: &str = cursors[i].as_str();
            assert(c[i as int] == cursor@);
            match &stats[i] {
                ComponentStat::Absent => {},
                ComponentStat::Failed(f) => {
                    return Err(f.clone());
                },
                ComponentStat::Present(facts) => {
                    if facts.is_symlink {
                        let mut message: String = "unsafe symlink in repository path: ".to_owned();
                        message.append(cursor);
                        return Err(Failure { kind: FailureKind::InvalidData, message });
                    }
                    if !facts.is_dir && !same_path(cursor, path) {
                        let mut message: String =
                            "non-directory repository component: ".to_owned();
                        message.append(cursor);
                        return Err(Failure { kind: FailureKind::InvalidData, message });
                    }
                    match self.ownership {
                        Some((uid, _)) => {
                            if facts.uid != uid && starts_with_path(cursor, self.root.as_str()) {
                                let mut message: String =
                                    "repository component is not owned by uid ".to_owned();
                                message.append(to_decimal(uid as u64).as_str());
                                message.append(": ");
                                message.append(cursor);
                                return Err(
                                    Failure { kind: FailureKind::PermissionDenied, message },
                                );
                            }
                        },
                        None => {},
                    }
                },
            }
            i += 1;
        }
        assert(views(cursors@).len() == cursors@.len());
        Ok(())
    }

    /// The places of the repository in the order in which they are validated.
    pub fn repository_places(&self) -> (r: Vec<String>)
        ensures
            views(r@) == places(self@),
    {
        let mut out: Vec<String> = Vec::new();
        out.push(self.root.clone());
        out.push(self.access.clone());
        out.push(self.backups.clone());
        out.push(self.edits.clone());
        out.push(self.dirs.clone());
        out.push(self.tags.clone());
        out.push(self.actors.clone());
        assert(views(out@) =~= places(self@));
        out
    }

    /// The places of the repository whose files are never discovered.
    pub fn hidden_places(&self) -> (r: Vec<String>)
        ensures
            views(r@) == seq![
                self@.root,
                self@.access,
                self@.backups,
                self@.edits,
                self@.dirs,
                self@.tags,
            ],
    {
        let mut out: Vec<String> = Vec::new();
        out.push(self.root.clone());
        out.push(self.access.clone());
        out.push(self.backups.clone());
        out.push(self.edits.clone());
        out.push(self.dirs.clone());
        out.push(self.tags.clone());
        assert(views(out@) =~= seq![
            self@.root,
            self@.access,
            self@.backups,
            self@.edits,
            self@.dirs,
            self@.tags,
        ]);
        out
    }

    /// Whether all places of the repository lie below its root, where it is owned, and have sound
    /// paths. `stats` holds, for each place, what the file system says of its components.
    pub fn validate_repository_topology(&self, stats: &Vec<Vec<ComponentStat>>) -> (r: Result<
        (),
        Failure,
    >)
        requires
            stats@.len() == places(self@).len(),
            forall|i: int|
                0 <= i < stats@.len() ==> (#[trigger] stats@[i])@.len() == components(
                    places(self@)[i],
                ).len(),
        ensures
            passes_or(r, repository_fault(self@, stats@, 0)),
    {
        let all: Vec<String> = self.repository_places();
        assert(places(self@).len() == all@.len());
        let mut i: usize = 0;
        while i < all.len()
            invariant
                i <= all.len(),
                all.len() == stats.len(),
                views(all@) == places(self@),
                forall|k: int|
                    0 <= k < stats@.len() ==> (#[trigger] stats@[k])@.len() == components(
                        places(self@)[k],
                    ).len(),
                repository_fault(self@, stats@, 0) == repository_fault(self@, stats@, i as int),
            decreases all.len() - i,
        {
            let path: &str = all[i].as_str();
            assert(places(self@)[i as int] == path@);
            if self.ownership.is_some() && !starts_with_path(path, self.root.as_str()) {
                let mut message: String = "repository path escapes root: ".to_owned();
                message.append(path);
                return Err(Failure { kind: FailureKind::InvalidInput, message });
            }
            match self.validate_path_topology(path, &stats[i]) {
                Ok(_) => {},
                Err(f) => {
                    return Err(f);
                },
            }
            i += 1;
        }
        Ok(())
    }
}

/// The home directory that counts: that of the history's owner for root and under sudo, else the
/// inherited one.
pub open spec fn home_that_counts(id: IdentityView, inherited: Option<Seq<char>>) -> Seq<char> {
    if id.sudo || id.effective.uid == 0 {
        id.history_owner.home
    } else {
        or_default(inherited, id.history_owner.home)
    }
}

/// The root of the canonical repository. Sudo ignores an override, but in testing.
pub open spec fn canonical_root(
    id: IdentityView,
    home: Seq<char>,
    override_root: Option<Seq<char>>,
    allow_sudo_test_override: bool,
) -> Seq<char> {
    match override_root {
        Some(root) if !id.sudo || allow_sudo_test_override => root,
        _ => joined_path(home, "bedit"@),
    }
}

/// The home directory that counts.
pub fn repository_home(identity: &RuntimeIdentity, inherited_home: Option<&str>) -> (r: String)
    ensures
        r@ == home_that_counts(identity@, opt_str(inherited_home)),
{
    if identity.sudo || identity.effective.uid == 0 {
        identity.history_owner.home.clone()
    } else {
        match inherited_home {
            Some(home) => home.to_owned(),
            None => identity.history_owner.home.clone(),
        }
    }
}

/// The root of the canonical repository.
pub fn repository_root(
    identity: &RuntimeIdentity,
    history_home: &str,
    override_root: Option<&str>,
    allow_sudo_test_override: bool,
) -> (r: String)
    ensures
        r@ == canonical_root(
            identity@,
            history_home@,
            opt_str(override_root),
            allow_sudo_test_override,
        ),
{
    if !identity.sudo || allow_sudo_test_override {
        match override_root {
            Some(root) => {
                return root.to_owned();
            },
            None => {},
        }
    }
    join(history_home, "bedit")
}

/// Whether the user's own repository is written too.
pub open spec fn is_mirrored(id: IdentityView, policy: SudoHistoryPolicy) -> bool {
    id.sudo && policy == SudoHistoryPolicy::RootAndUser
}

/// The configuration files of the canonical repository and of the mirror.
pub fn configuration_files(
    identity: &RuntimeIdentity,
    policy: SudoHistoryPolicy,
    inherited_home: Option<&str>,
) -> (r: (String, Option<String>))
    requires
        is_mirrored(identity@, policy) ==> identity@.invoker is Some,
    ensures
        r.0@ == joined_path(home_that_counts(identity@, opt_str(inherited_home)), ".bedit"@),
        opt_view(r.1) == if is_mirrored(identity@, policy) {
            Some(joined_path(identity@.invoker->0.home, ".bedit"@))
        } else {
            None
        },
{
    let home: String = repository_home(identity, inherited_home);
    let canonical: String = join(home.as_str(), ".bedit");
    if identity.sudo && policy == SudoHistoryPolicy::RootAndUser {
        match &identity.invoker {
            Some(invoker) => (canonical, Some(join(invoker.home.as_str(), ".bedit"))),
            None => (canonical, None),
        }
    } else {
        (canonical, None)
    }
}

/// The configuration of the invoker's own repository.
pub open spec fn mirror_of(id: IdentityView, rc: Option<Seq<char>>) -> ConfigView {
    let invoker = id.invoker->0;
    configured(
        joined_path(invoker.home, "bedit"@),
        rc,
        invoker.home,
        id.actor,
        invoker.name,
        Some((invoker.uid, invoker.gid)),
    )
}

/// The canonical repository and the mirror, from the texts of their configuration files.
pub fn targets_with_identity(
    identity: &RuntimeIdentity,
    policy: SudoHistoryPolicy,
    inherited_home: Option<&str>,
    override_root: Option<&str>,
    allow_sudo_test_override: bool,
    canonical_rc: Option<&str>,
    mirror_rc: Option<&str>,
) -> (r: (Config, Option<Config>))
    requires
        is_mirrored(identity@, policy) ==> identity@.invoker is Some,
    ensures
        r.0@ == configured(
            canonical_root(
                identity@,
                home_that_counts(identity@, opt_str(inherited_home)),
                opt_str(override_root),
                allow_sudo_test_override,
            ),
            opt_str(canonical_rc),
            home_that_counts(identity@, opt_str(inherited_home)),
            identity@.actor,
            identity@.history_owner.name,
            None,
        ),
        opt_config(r.1) == if is_mirrored(identity@, policy) {
            Some(mirror_of(identity@, opt_str(mirror_rc)))
        } else {
            None
        },
{
    let home: String = repository_home(identity, inherited_home);
    let root: String = repository_root(
        identity,
        home.as_str(),
        override_root,
        allow_sudo_test_override,
    );
    let canonical: Config = Config::load_with_identity(
        root,
        canonical_rc,
        home.as_str(),
        identity.actor.clone(),
        identity.history_owner.name.clone(),
        None,
    );
    if identity.sudo && policy == SudoHistoryPolicy::RootAndUser {
        match &identity.invoker {
            Some(invoker) => {
                let mirror: Config = Config::load_with_identity(
                    join(invoker.home.as_str(), "bedit"),
                    mirror_rc,
                    invoker.home.as_str(),
                    identity.actor.clone(),
                    invoker.name.clone(),
                    Some((invoker.uid, invoker.gid)),
                );
                (canonical, Some(mirror))
            },
            None => (canonical, None),
        }
    } else {
        (canonical, None)
    }
}

/// Neither sudo nor root is misled by the environment: the inherited home does not count, and
/// outside of testing sudo does not heed an override of the root.
pub proof fn law_privileged_targets_ignore_environment(
    id: IdentityView,
    inherited: Option<Seq<char>>,
    override_root: Option<Seq<char>>,
)
    requires
        id.sudo || id.effective.uid == 0,
    ensures
        home_that_counts(id, inherited) == home_that_counts(id, None),
        id.sudo ==> canonical_root(id, home_that_counts(id, inherited), override_root, false)
            == joined_path(id.history_owner.home, "bedit"@),
{
}

/// A home directory stands for a tilde: alone, or in front of a slash. Every other value stays.
pub proof fn law_tilde_is_the_home_directory(rest: Seq<char>, value: Seq<char>, home: Seq<char>)
    ensures
        home_expanded(seq!['~'], home) == home,
        home_expanded(seq!['~', '/'] + rest, home) == joined_path(home, rest),
        value.len() == 0 || value[0] != '~' ==> home_expanded(value, home) == value,
        value.len() > 1 && value[1] != '/' ==> home_expanded(value, home) == value,
{
    reveal_strlit("~");
    reveal_strlit("~/");
    assert("~"@ =~= seq!['~']);
    let long = seq!['~', '/'] + rest;
    assert(long.subrange(0, 2) =~= "~/"@);
    assert(long.subrange(2, long.len() as int) =~= rest);
    assert(long.len() >= 2);
    if begins_with(value, "~/"@) {
        assert(value.subrange(0, 2)[0] == '~' && value.subrange(0, 2)[1] == '/');
    }
    assert(!begins_with(seq!['~'], "~/"@));
}

/// A line sets a name to a value: the name is letters, digits and underscores and begins with a
/// letter, an equals sign follows, and then the value; spaces around the line and around the value
/// count for nothing. A line that begins with a number sign sets nothing, and neither does a line
/// without an equals sign.
pub proof fn law_line_sets_a_name(
    before: Seq<char>,
    key: Seq<char>,
    gap: Seq<char>,
    value: Seq<char>,
    behind: Seq<char>,
    home: Seq<char>,
)
    requires
        forall|i: int| 0 <= i < before.len() ==> is_space(#[trigger] before[i]),
        forall|i: int| 0 <= i < gap.len() ==> is_space(#[trigger] gap[i]),
        forall|i: int| 0 <= i < behind.len() ==> is_space(#[trigger] behind[i]),
        value.len() > 0,
        !is_space(value[0]),
        !is_space(value.last()),
    ensures
        key.len() > 0 && ('a' <= key[0] <= 'z' || 'A' <= key[0] <= 'Z') && (forall|i: int|
            0 <= i < key.len() ==> 'a' <= #[trigger] key[i] <= 'z' || 'A' <= key[i] <= 'Z' || '0'
                <= key[i] <= '9' || key[i] == '_') ==> line_setting(
            before + (key + seq!['='] + (gap + value)) + behind,
            home,
        ) == Some((key, home_expanded(value, home))),
        line_setting(before + (seq!['#'] + value) + behind, home) is None,
        !value.contains('=') ==> line_setting(before + value + behind, home) is None,
{
    reveal_strlit("#");
    reveal_strlit("=");
    assert("="@ =~= seq!['=']);
    let noted = seq!['#'] + value;
    law_trimmed_text_is_the_middle(before, noted, behind);
    assert(noted.subrange(0, 1) =~= "#"@);
    law_trimmed_text_is_the_middle(before, value, behind);
    assert(!value.contains('=') ==> cut_at(value, "="@) is None) by {
        if !value.contains('=') {
            assert(!occurs(value, "="@)) by {
                if occurs(value, "="@) {
                    let i = choose|i: int| occurs_at(value, "="@, i);
                    assert(value.subrange(i, i + 1)[0] == '=');
                    assert(value[i] == '=');
                }
            }
            lemma_pieces_last(value, "="@);
        }
    }
    if key.len() > 0 && ('a' <= key[0] <= 'z' || 'A' <= key[0] <= 'Z') && (forall|i: int|
        0 <= i < key.len() ==> 'a' <= #[trigger] key[i] <= 'z' || 'A' <= key[i] <= 'Z' || '0'
            <= key[i] <= '9' || key[i] == '_') {
        let middle = key + seq!['='] + (gap + value);
        assert(middle[0] == key[0]);
        assert(middle.last() == value.last());
        law_trimmed_text_is_the_middle(before, middle, behind);
        if begins_with(middle, "#"@) {
            assert(middle.subrange(0, 1)[0] == '#');
        }
        assert(forall|i: int| 0 <= i < key.len() ==> key[i] != '=');
        lemma_ends_cleanly(key, "="@);
        lemma_pieces_step(key, "="@, gap + value);
        let none = Seq::<char>::empty();
        law_trimmed_text_is_the_middle(gap, value, none);
        assert(gap + value + none =~= gap + value);
    }
}

/// The last line that sets a name counts: a line put behind the others decides the name that it
/// sets, and leaves every other name alone.
pub proof fn law_last_setting_counts(
    lines: Seq<Seq<char>>,
    line: Seq<char>,
    name: Seq<char>,
    home: Seq<char>,
)
    ensures
        setting(lines.push(line), lines.len() as int + 1, name, home) == match line_setting(line, home) {
            Some((key, value)) => if key == name {
                Some(value)
            } else {
                setting(lines, lines.len() as int, name, home)
            },
            None => setting(lines, lines.len() as int, name, home),
        },
        setting(lines, 0, name, home) is None,
{
    lemma_setting_of_the_front(lines, line, lines.len() as int, name, home);
}

proof fn lemma_setting_of_the_front(
    lines: Seq<Seq<char>>,
    line: Seq<char>,
    n: int,
    name: Seq<char>,
    home: Seq<char>,
)
    requires
        0 <= n <= lines.len(),
    ensures
        setting(lines.push(line), n, name, home) == setting(lines, n, name, home),
    decreases n,
{
    if n > 0 {
        lemma_setting_of_the_front(lines, line, n - 1, name, home);
        assert(lines.push(line)[n - 1] == lines[n - 1]);
    }
}

/// What a repository is configured to: each place has its setting, or its own directory in the root
/// where it has none; a backup without an edit is kept unless the setting is zero; twenty lines of a
/// difference are shown unless a number is set; and what is left out is what is set, or the records
/// and logs.
pub proof fn law_each_setting_has_its_own_effect(
    root: Seq<char>,
    rc: Option<Seq<char>>,
    home: Seq<char>,
    actor: Seq<char>,
    history_owner: Seq<char>,
    ownership: Option<(u32, u32)>,
)
    ensures
        ({
            let c = configured(root, rc, home, actor, history_owner, ownership);
            let is_set = |name: Seq<char>, v: Seq<char>| rc_setting(rc, name, home) == Some(v);
            &&& c.root == root && c.actor == actor && c.history_owner == history_owner
                && c.ownership == ownership
            &&& c.actors == joined_path(root, "actors"@)
            &&& is_set("Access"@, c.access) || (rc_setting(rc, "Access"@, home) is None && c.access
                == joined_path(root, "access"@))
            &&& is_set("Backups"@, c.backups) || (rc_setting(rc, "Backups"@, home) is None
                && c.backups == joined_path(root, "backups"@))
            &&& is_set("Edits"@, c.edits) || (rc_setting(rc, "Edits"@, home) is None && c.edits
                == joined_path(root, "edits"@))
            &&& is_set("Dirs"@, c.dirs) || (rc_setting(rc, "Dirs"@, home) is None && c.dirs
                == joined_path(root, "dirs"@))
            &&& is_set("Tags"@, c.tags) || (rc_setting(rc, "Tags"@, home) is None && c.tags
                == joined_path(root, "tags"@))
            &&& is_set("exclude"@, c.exclude) || (rc_setting(rc, "exclude"@, home) is None
                && c.exclude == "*.log,*::_::a,*::_::b,*::_::d"@)
            &&& c.keep_backup_if_no_edit <==> !is_set("keepBackupIfNoEdit"@, "0"@)
            &&& c.diff_tail_lines == 20 || (rc_setting(rc, "DiffTailLines"@, home) matches Some(v)
                && parsed(v, usize::MAX as nat) == Some(c.diff_tail_lines as nat))
            &&& rc_setting(rc, "DiffTailLines"@, home) matches Some(v) ==> (parsed(
                v,
                usize::MAX as nat,
            ) matches Some(n) ==> c.diff_tail_lines == n)
            &&& rc is None ==> rc_setting(rc, "Access"@, home) is None
        }),
{
}

/// A path is safe where none of its components is a link, none but the last is anything but a
/// directory, and, where the repository has an owner, those in it are the owner's; the first fault
/// is the one that is told.
pub proof fn law_every_component_is_looked_at(
    config: ConfigView,
    path: Seq<char>,
    cursors: Seq<Seq<char>>,
    stats: Seq<ComponentStat>,
    from: int,
    k: int,
)
    requires
        0 <= from <= k < cursors.len(),
    ensures
        path_fault(config, path, cursors, stats, from) is None ==> {
            &&& !(stats[k] is Failed)
            &&& stats[k] matches ComponentStat::Present(facts) ==> {
                &&& !facts.is_symlink
                &&& facts.is_dir || components(cursors[k]) == components(path)
                &&& config.ownership matches Some((uid, _)) ==> facts.uid == uid || !is_within(
                    cursors[k],
                    config.root,
                )
            }
        },
        path_fault(config, path, cursors, stats, from) matches Some(f) ==> exists|i: int|
            from <= i < cursors.len() && #[trigger] component_fault(
                config,
                path,
                cursors[i],
                stats[i],
            ) == Some(f) && forall|j: int|
                from <= j < i ==> #[trigger] component_fault(config, path, cursors[j], stats[j]) is None,
    decreases cursors.len() - from,
{
    if component_fault(config, path, cursors[from], stats[from]) is None {
        if from < k {
            law_every_component_is_looked_at(config, path, cursors, stats, from + 1, k);
        } else if from + 1 < cursors.len() {
            law_every_component_is_looked_at(config, path, cursors, stats, from + 1, from + 1);
        }
    }
}

/// The fault of a component says what it is: a link, no directory, or another owner's. An absent
/// component has none.
pub proof fn law_fault_of_a_component(
    config: ConfigView,
    path: Seq<char>,
    cursor: Seq<char>,
    stat: ComponentStat,
)
    ensures
        stat is Absent ==> component_fault(config, path, cursor, stat) is None,
        stat matches ComponentStat::Failed(f) ==> component_fault(config, path, cursor, stat) == Some(
            f@,
        ),
        stat matches ComponentStat::Present(facts) ==> match component_fault(
            config,
            path,
            cursor,
            stat,
        ) {
            None => !facts.is_symlink && (facts.is_dir || components(cursor) == components(path))
                && (config.ownership matches Some((uid, _)) ==> facts.uid == uid || !is_within(
                cursor,
                config.root,
            )),
            Some(f) => {
                &&& finishes_with(f.message, cursor)
                &&& f.kind == FailureKind::PermissionDenied ==> (
                config.ownership matches Some((uid, _)) && facts.uid != uid) && is_within(
                    cursor,
                    config.root,
                )
                &&& f.kind == FailureKind::InvalidData ==> facts.is_symlink || !facts.is_dir
                &&& f.kind == FailureKind::PermissionDenied || f.kind == FailureKind::InvalidData
            },
        },
{
    let a = "unsafe symlink in repository path: "@;
    let b = "non-directory repository component: "@;
    assert((a + cursor).subrange(a.len() as int, (a + cursor).len() as int) =~= cursor);
    assert((b + cursor).subrange(b.len() as int, (b + cursor).len() as int) =~= cursor);
    match config.ownership {
        Some((uid, _)) => {
            let c = "repository component is not owned by uid "@ + decimal(uid as nat) + ": "@;
            assert((c + cursor).subrange(c.len() as int, (c + cursor).len() as int) =~= cursor);
        },
        None => {},
    }
}

/// A repository is safe where all its places are: its root and the six directories of its records.
/// Where it has an owner they lie in the root.
pub proof fn law_every_place_is_looked_at(
    config: ConfigView,
    stats: Seq<Vec<ComponentStat>>,
    from: int,
    k: int,
)
    requires
        0 <= from <= k < 7,
        repository_fault(config, stats, from) is None,
    ensures
        ({
            let place = if k == 0 {
                config.root
            } else if k == 1 {
                config.access
            } else if k == 2 {
                config.backups
            } else if k == 3 {
                config.edits
            } else if k == 4 {
                config.dirs
            } else if k == 5 {
                config.tags
            } else {
                config.actors
            };
            &&& config.ownership is Some ==> is_within(place, config.root)
            &&& path_fault(config, place, prefixes(components(place)), stats[k]@, 0) is None
        }),
    decreases 7 - from,
{
    if from < k {
        law_every_place_is_looked_at(config, stats, from + 1, k);
    }
}

/// The prefixes of a path are as many as its components: the first is its first component, and each
/// other is the one before it with the next component joined to it.
pub proof fn law_prefixes_grow_by_a_component(parts: Seq<Seq<char>>, i: int)
    requires
        0 <= i < parts.len(),
    ensures
        prefixes(parts).len() == parts.len(),
        i == 0 ==> prefixes(parts)[0] == parts[0],
        i > 0 ==> prefixes(parts)[i] == joined_path(prefixes(parts)[i - 1], parts[i]),
    decreases parts.len(),
{
    if parts.len() == 1 {
        assert(Seq::<char>::empty() + parts[0] =~= parts[0]);
    } else {
        let before = prefixes(parts.drop_last());
        law_prefixes_grow_by_a_component(parts.drop_last(), if i < parts.len() - 1 {
            i
        } else {
            0
        });
    }
}

/// A history is that of its owner. A direct user may name another home directory and another root;
/// under `sudo`, and for the superuser, the home directory is that of the owner. Where a history is
/// mirrored, the mirror lies in the home directory of the invoking user, who owns it.
pub proof fn law_history_is_in_the_owners_home(
    id: IdentityView,
    inherited: Option<Seq<char>>,
    home: Seq<char>,
    root: Seq<char>,
    rc: Option<Seq<char>>,
    policy: SudoHistoryPolicy,
)
    ensures
        id.sudo || id.effective.uid == 0 || inherited is None ==> home_that_counts(id, inherited)
            == id.history_owner.home,
        !id.sudo && id.effective.uid != 0 && inherited is Some ==> home_that_counts(id, inherited)
            == inherited->0,
        !id.sudo ==> canonical_root(id, home, Some(root), false) == root,
        canonical_root(id, home, Some(root), true) == root,
        canonical_root(id, home, None, true) == joined_path(home, "bedit"@),
        id.sudo ==> canonical_root(id, home, Some(root), false) == joined_path(home, "bedit"@),
        is_mirrored(id, policy) <==> id.sudo && policy == SudoHistoryPolicy::RootAndUser,
        id.invoker matches Some(user) ==> {
            let mirror = mirror_of(id, rc);
            &&& mirror.root == joined_path(user.home, "bedit"@)
            &&& mirror.history_owner == user.name && mirror.actor == id.actor
            &&& mirror.ownership == Some((user.uid, user.gid))
        },
{
}

/// A check passes where there is no fault, and else fails with the fault and with no other.
pub proof fn law_checks_fail_with_their_faults(f: Failure, g: FailureView, c: Config)
    ensures
        passes_or(Ok(()), None),
        !passes_or(Ok(()), Some(g)),
        !passes_or(Err(f), None),
        passes_or(Err(f), Some(g)) <==> f@ == g,
        opt_config(None) is None,
        opt_config(Some(c)) == Some(c@),
{
}

/// The model of a configuration has all that is known of it.
pub proof fn law_model_of_a_configuration(x: Config)
    ensures
        x@.root == x.root@,
        x@.access == x.access@,
        x@.backups == x.backups@,
        x@.edits == x.edits@,
        x@.dirs == x.dirs@,
        x@.tags == x.tags@,
        x@.actors == x.actors@,
        x@.actor == x.actor@,
        x@.history_owner == x.history_owner@,
        x@.ownership == x.ownership,
        x@.keep_backup_if_no_edit == x.keep_backup_if_no_edit,
        x@.diff_tail_lines == x.diff_tail_lines,
        x@.exclude == x.exclude@,
{
}

} // verus!
