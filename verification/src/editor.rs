//! The editors that are known, and where their programs stand.

use crate::failure::{Failure, FailureKind};
use crate::path::{join, same_path as same_text_path};
use crate::text::{same, split};
#[allow(unused_imports)]
use crate::{
    failure::fails,
    path::{joined_path, same_path_text},
    text::{
        all_views, lemma_ends_cleanly, lemma_pieces_last, lemma_pieces_step, occurs, occurs_at,
        opt_str, pieces, views,
    },
};
use vstd::prelude::*;

verus! {

/// Editors that behave alike.
#[derive(Clone, Copy, Debug, PartialEq, Eq, Structural)]
pub enum EditorFamily {
    Vim,
    Neovim,
    Nano,
    Emacs,
    Ed,
    Micro,
    Joe,
    Jed,
    McEdit,
}

/// How an editor's process relates to the command that starts it.
#[derive(Clone, Copy, Debug, PartialEq, Eq, Structural)]
pub enum ProcessStrategy {
    SpawnedEditor,
    GuiOrDetachingEditor,
    ClientToExistingEditor,
}

/// A command that starts an editor.
#[derive(Clone, Copy, Debug, PartialEq, Eq)]
pub struct EditorAlias {
    pub name: &'static str,
    pub family: EditorFamily,
    pub strategy: ProcessStrategy,
    pub named_wrapper: &'static str,
    pub supported: bool,
}

/// The model of an alias.
pub struct AliasView {
    pub name: Seq<char>,
    pub family: EditorFamily,
    pub strategy: ProcessStrategy,
    pub named_wrapper: Seq<char>,
    pub supported: bool,
}

impl View for EditorAlias {
    type V = AliasView;

    open spec fn view(&self) -> AliasView {
        entry(self.name@, self.family, self.strategy, self.named_wrapper@, self.supported)
    }
}

/// The model of an alias with these fields.
pub open spec fn entry(
    name: Seq<char>,
    family: EditorFamily,
    strategy: ProcessStrategy,
    named_wrapper: Seq<char>,
    supported: bool,
) -> AliasView {
    AliasView { name, family, strategy, named_wrapper, supported }
}

/// All known aliases.
pub open spec fn registry() -> Seq<AliasView> {
    seq![
        entry("vi"@, EditorFamily::Vim, ProcessStrategy::SpawnedEditor, "bvi"@, true),
        entry("vim"@, EditorFamily::Vim, ProcessStrategy::SpawnedEditor, "bvi"@, true),
        entry("view"@, EditorFamily::Vim, ProcessStrategy::SpawnedEditor, "bvi"@, true),
        entry("ex"@, EditorFamily::Vim, ProcessStrategy::SpawnedEditor, "bvi"@, true),
        entry("rvim"@, EditorFamily::Vim, ProcessStrategy::SpawnedEditor, "bvi"@, true),
        entry("rview"@, EditorFamily::Vim, ProcessStrategy::SpawnedEditor, "bvi"@, true),
        entry("gvim"@, EditorFamily::Vim, ProcessStrategy::GuiOrDetachingEditor, "bvi"@, false),
        entry("gview"@, EditorFamily::Vim, ProcessStrategy::GuiOrDetachingEditor, "bvi"@, false),
        entry("mvim"@, EditorFamily::Vim, ProcessStrategy::GuiOrDetachingEditor, "bvi"@, false),
        entry("nvim"@, EditorFamily::Neovim, ProcessStrategy::SpawnedEditor, "bnvim"@, true),
        entry("neovide"@, EditorFamily::Neovim, ProcessStrategy::GuiOrDetachingEditor, "bnvim"@, false),
        entry("goneovim"@, EditorFamily::Neovim, ProcessStrategy::GuiOrDetachingEditor, "bnvim"@, false),
        entry("nano"@, EditorFamily::Nano, ProcessStrategy::SpawnedEditor, "bnano"@, true),
        entry("rnano"@, EditorFamily::Nano, ProcessStrategy::SpawnedEditor, "bnano"@, true),
        entry("pico"@, EditorFamily::Nano, ProcessStrategy::SpawnedEditor, "bpico"@, true),
        entry("emacs"@, EditorFamily::Emacs, ProcessStrategy::SpawnedEditor, "bemacs"@, true),
        entry("emacs-nox"@, EditorFamily::Emacs, ProcessStrategy::SpawnedEditor, "bemacs"@, true),
        entry("xemacs"@, EditorFamily::Emacs, ProcessStrategy::SpawnedEditor, "bemacs"@, true),
        entry("emacsclient"@, EditorFamily::Emacs, ProcessStrategy::ClientToExistingEditor, "bemacs"@, false),
        entry("ed"@, EditorFamily::Ed, ProcessStrategy::SpawnedEditor, "bed"@, true),
        entry("micro"@, EditorFamily::Micro, ProcessStrategy::SpawnedEditor, "bvi"@, true),
        entry("joe"@, EditorFamily::Joe, ProcessStrategy::SpawnedEditor, "bvi"@, true),
        entry("jstar"@, EditorFamily::Joe, ProcessStrategy::SpawnedEditor, "bvi"@, true),
        entry("jed"@, EditorFamily::Jed, ProcessStrategy::SpawnedEditor, "bvi"@, true),
        entry("mcedit"@, EditorFamily::McEdit, ProcessStrategy::SpawnedEditor, "bvi"@, true),
    ]
}

/// The place of an alias with a name, from `from` on.
pub open spec fn place_of_alias(name: Seq<char>, from: int) -> Option<int>
    decreases registry().len() - from,
{
    if from < 0 || from >= registry().len() {
        None
    } else if registry()[from].name == name {
        Some(from)
    } else {
        place_of_alias(name, from + 1)
    }
}

/// The alias with a name.
pub open spec fn alias_of(name: Seq<char>) -> Option<AliasView> {
    match place_of_alias(name, 0) {
        Some(i) => Some(registry()[i]),
        None => None,
    }
}

fn make(
    name: &'static str,
    family: EditorFamily,
    strategy: ProcessStrategy,
    named_wrapper: &'static str,
    supported: bool,
) -> (r: EditorAlias)
    ensures
        r@ == entry(name@, family, strategy, named_wrapper@, supported),
{
    EditorAlias { name, family, strategy, named_wrapper, supported }
}

/// All known aliases.
pub fn editor_aliases() -> (r: Vec<EditorAlias>)
    ensures
        all_views(r@) == registry(),
{
    let mut out: Vec<EditorAlias> = Vec::new();
    out.push(make("vi", EditorFamily::Vim, ProcessStrategy::SpawnedEditor, "bvi", true));
    out.push(make("vim", EditorFamily::Vim, ProcessStrategy::SpawnedEditor, "bvi", true));
    out.push(make("view", EditorFamily::Vim, ProcessStrategy::SpawnedEditor, "bvi", true));
    out.push(make("ex", EditorFamily::Vim, ProcessStrategy::SpawnedEditor, "bvi", true));
    out.push(make("rvim", EditorFamily::Vim, ProcessStrategy::SpawnedEditor, "bvi", true));
    out.push(make("rview", EditorFamily::Vim, ProcessStrategy::SpawnedEditor, "bvi", true));
    out.push(make("gvim", EditorFamily::Vim, ProcessStrategy::GuiOrDetachingEditor, "bvi", false));
    out.push(make("gview", EditorFamily::Vim, ProcessStrategy::GuiOrDetachingEditor, "bvi", false));
    out.push(make("mvim", EditorFamily::Vim, ProcessStrategy::GuiOrDetachingEditor, "bvi", false));
    out.push(make("nvim", EditorFamily::Neovim, ProcessStrategy::SpawnedEditor, "bnvim", true));
    out.push(make("neovide", EditorFamily::Neovim, ProcessStrategy::GuiOrDetachingEditor, "bnvim", false));
    out.push(make("goneovim", EditorFamily::Neovim, ProcessStrategy::GuiOrDetachingEditor, "bnvim", false));
    out.push(make("nano", EditorFamily::Nano, ProcessStrategy::SpawnedEditor, "bnano", true));
    out.push(make("rnano", EditorFamily::Nano, ProcessStrategy::SpawnedEditor, "bnano", true));
    out.push(make("pico", EditorFamily::Nano, ProcessStrategy::SpawnedEditor, "bpico", true));
    out.push(make("emacs", EditorFamily::Emacs, ProcessStrategy::SpawnedEditor, "bemacs", true));
    out.push(make("emacs-nox", EditorFamily::Emacs, ProcessStrategy::SpawnedEditor, "bemacs", true));
    out.push(make("xemacs", EditorFamily::Emacs, ProcessStrategy::SpawnedEditor, "bemacs", true));
    out.push(make("emacsclient", EditorFamily::Emacs, ProcessStrategy::ClientToExistingEditor, "bemacs", false));
    out.push(make("ed", EditorFamily::Ed, ProcessStrategy::SpawnedEditor, "bed", true));
    out.push(make("micro", EditorFamily::Micro, ProcessStrategy::SpawnedEditor, "bvi", true));
    out.push(make("joe", EditorFamily::Joe, ProcessStrategy::SpawnedEditor, "bvi", true));
    out.push(make("jstar", EditorFamily::Joe, ProcessStrategy::SpawnedEditor, "bvi", true));
    out.push(make("jed", EditorFamily::Jed, ProcessStrategy::SpawnedEditor, "bvi", true));
    out.push(make("mcedit", EditorFamily::McEdit, ProcessStrategy::SpawnedEditor, "bvi", true));
    assert(all_views(out@) =~= registry());
    out
}

/// The alias with a name.
pub fn alias(name: &str) -> (r: Option<EditorAlias>)
    ensures
        match r {
            Some(a) => alias_of(name@) == Some(a@),
            None => alias_of(name@) is None,
        },
{
    let all: Vec<EditorAlias> = editor_aliases();
    let mut i: usize = 0;
    assert(all@.len() == all_views(all@).len());
    while i < all.len()
        invariant
            i <= all.len(),
            all_views(all@) == registry(),
            all@.len() == registry().len(),
            place_of_alias(name@, 0) == place_of_alias(name@, i as int),
        decreases all.len() - i,
    {
        let a: EditorAlias = all[i];
        assert(registry()[i as int] == a@);
        if same(a.name, name) {
            return Some(a);
        }
        i += 1;
    }
    None
}

/// A number that tells the names of the registry apart: length, first, second and last character.
spec fn mark(s: Seq<char>) -> int {
    let second = if s.len() > 1 {
        s[1]
    } else {
        s[0]
    };
    ((s.len() * 128 + s[0] as int) * 128 + second as int) * 128 + s.last() as int
}

/// No two aliases share a name.
pub proof fn law_alias_names_are_unique(i: int, j: int)
    requires
        0 <= i < j < registry().len(),
    ensures
        registry()[i].name != registry()[j].name,
{
    reveal_strlit("vi");
    reveal_strlit("vim");
    reveal_strlit("view");
    reveal_strlit("ex");
    reveal_strlit("rvim");
    reveal_strlit("rview");
    reveal_strlit("gvim");
    reveal_strlit("gview");
    reveal_strlit("mvim");
    reveal_strlit("nvim");
    reveal_strlit("neovide");
    reveal_strlit("goneovim");
    reveal_strlit("nano");
    reveal_strlit("rnano");
    reveal_strlit("pico");
    reveal_strlit("emacs");
    reveal_strlit("emacs-nox");
    reveal_strlit("xemacs");
    reveal_strlit("emacsclient");
    reveal_strlit("ed");
    reveal_strlit("micro");
    reveal_strlit("joe");
    reveal_strlit("jstar");
    reveal_strlit("jed");
    reveal_strlit("mcedit");
    assert(mark("vi"@) == 6141161);
    assert(mark("vim"@) == 8238317);
    assert(mark("view"@) == 10335479);
    assert(mark("ex"@) == 5864568);
    assert(mark("rvim"@) == 10271597);
    assert(mark("rview"@) == 12368759);
    assert(mark("gvim"@) == 10091373);
    assert(mark("gview"@) == 12188535);
    assert(mark("mvim"@) == 10189677);
    assert(mark("nvim"@) == 10206061);
    assert(mark("neovide"@) == 16495333);
    assert(mark("goneovim"@) == 18479085);
    assert(mark("nano"@) == 10203375);
    assert(mark("rnano"@) == 12367727);
    assert(mark("pico"@) == 10237167);
    assert(mark("emacs"@) == 12154611);
    assert(mark("emacs-nox"@) == 20543224);
    assert(mark("xemacs"@) == 14562035);
    assert(mark("emacsclient"@) == 24737524);
    assert(mark("ed"@) == 5861988);
    assert(mark("micro"@) == 12285167);
    assert(mark("joe"@) == 8042469);
    assert(mark("jstar"@) == 12237298);
    assert(mark("jed"@) == 8041188);
    assert(mark("mcedit"@) == 14381556);
    let marks: Seq<int> = seq![6141161int, 8238317int, 10335479int, 5864568int, 10271597int, 12368759int, 10091373int, 12188535int, 10189677int, 10206061int, 16495333int, 18479085int, 10203375int, 12367727int, 10237167int, 12154611int, 20543224int, 14562035int, 24737524int, 5861988int, 12285167int, 8042469int, 12237298int, 8041188int, 14381556int];
    assert(forall|k: int| 0 <= k < marks.len() ==> mark(registry()[k].name) == #[trigger] marks[k]);
    assert(marks[i] != marks[j]);
}

/// The text that marks a script as a shim of bedit.
pub open spec fn shim_mark() -> Seq<u8> {
    vstd::utf8::encode_utf8("Bedit transparent editor shim"@)
}

/// Whether bytes stand in others at a place.
pub open spec fn bytes_at(h: Seq<u8>, n: Seq<u8>, i: int) -> bool {
    0 <= i && i + n.len() <= h.len() && h.subrange(i, i + n.len()) == n
}

/// Whether bytes stand somewhere in others.
pub open spec fn bytes_within(h: Seq<u8>, n: Seq<u8>) -> bool {
    exists|i: int| #[trigger] bytes_at(h, n, i)
}

/// Whether bytes stand somewhere in others.
pub fn bytes_occur(h: &Vec<u8>, n: &Vec<u8>) -> (r: bool)
    ensures
        r == bytes_within(h@, n@),
{
    if n.len() > h.len() {
        return false;
    }
    let mut i: usize = 0;
    while i <= h.len() - n.len()
        invariant
            n.len() <= h.len(),
            i <= h.len() - n.len() + 1,
            forall|j: int| 0 <= j < i ==> !bytes_at(h@, n@, j),
        decreases h.len() - n.len() + 1 - i,
    {
        let mut k: usize = 0;
        while k < n.len() && h[i + k] == n[k]
            invariant
                k <= n.len(),
                i + n.len() <= h.len(),
                forall|j: int| 0 <= j < k ==> h@[i + j] == n@[j],
            decreases n.len() - k,
        {
            k += 1;
        }
        if k == n.len() {
            assert(h@.subrange(i as int, i + n@.len()) =~= n@);
            assert(bytes_at(h@, n@, i as int));
            return true;
        }
        assert(!bytes_at(h@, n@, i as int)) by {
            assert(h@.subrange(i as int, i + n@.len())[k as int] == h@[i + k]);
        }
        i += 1;
    }
    false
}

/// Whether a file is a shim of bedit: the mark stands in its first 256 bytes.
pub open spec fn is_shim_content(content: Seq<u8>) -> bool {
    exists|i: int| #![trigger bytes_at(content, shim_mark(), i)]
        bytes_at(content, shim_mark(), i) && i + shim_mark().len() <= 256
}

/// Whether a file is a shim of bedit.
pub fn is_bedit_shim(content: &Vec<u8>) -> (r: bool)
    ensures
        r == is_shim_content(content@),
{
    let mark: Vec<u8> = crate::encoding::bytes_of("Bedit transparent editor shim");
    let limit: usize = if content.len() < 256 {
        content.len()
    } else {
        256
    };
    if mark.len() > limit {
        return false;
    }
    let mut i: usize = 0;
    while i <= limit - mark.len()
        invariant
            mark@ == shim_mark(),
            mark.len() <= limit <= content.len(),
            limit <= 256,
            i <= limit - mark.len() + 1,
            limit == 256 || limit == content.len(),
            forall|j: int| 0 <= j < i ==> !bytes_at(content@, shim_mark(), j),
        decreases limit + 1 - i,
    {
        let mut k: usize = 0;
        while k < mark.len() && content[i + k] == mark[k]
            invariant
                k <= mark.len(),
                i + mark.len() <= content.len(),
                forall|j: int| 0 <= j < k ==> content@[i + j] == mark@[j],
            decreases mark.len() - k,
        {
            k += 1;
        }
        if k == mark.len() {
            assert(content@.subrange(i as int, i + mark@.len()) =~= mark@);
            assert(bytes_at(content@, shim_mark(), i as int));
            return true;
        }
        assert(!bytes_at(content@, shim_mark(), i as int)) by {
            if bytes_at(content@, shim_mark(), i as int) {
                assert(content@.subrange(i as int, i + mark@.len())[k as int] == mark@[k as int]);
            }
        }
        i += 1;
    }
    false
}

/// Whether two directories are the same: by their canonical paths where both have one, else by
/// their own.
pub fn same_directory(
    left: &str,
    right: &str,
    canonical_left: Option<&str>,
    canonical_right: Option<&str>,
) -> (r: bool)
    ensures
        r == match (opt_str(canonical_left), opt_str(canonical_right)) {
            (Some(a), Some(b)) => same_path_text(a, b),
            _ => same_path_text(left@, right@),
        },
{
    match (canonical_left, canonical_right) {
        (Some(a), Some(b)) => same_text_path(a, b),
        _ => same_text_path(left, right),
    }
}

/// The directories of a search path; an empty one is the current directory.
pub open spec fn search_directories(path: Seq<char>) -> Seq<Seq<char>> {
    let p = pieces(path, ":"@);
    Seq::new(
        p.len(),
        |i: int|
            if p[i].len() == 0 {
                "."@
            } else {
                p[i]
            },
    )
}

/// The directories of a search path.
pub fn split_search_path(path: &str) -> (r: Vec<String>)
    ensures
        views(r@) == search_directories(path@),
        r@.len() == search_directories(path@).len(),
{
    proof {
        reveal_strlit(":");
    }
    let parts: Vec<String> = split(path, ":");
    let mut out: Vec<String> = Vec::new();
    let mut i: usize = 0;
    while i < parts.len()
        invariant
            i <= parts.len(),
            out@.len() == i,
            views(parts@) == pieces(path@, ":"@),
            forall|j: int| 0 <= j < i ==> (#[trigger] out@[j])@ == search_directories(path@)[j],
        decreases parts.len() - i,
    {
        assert(pieces(path@, ":"@)[i as int] == parts@[i as int]@);
        if crate::text::chars_of(parts[i].as_str()).len() == 0 {
            out.push(".".to_owned());
        } else {
            out.push(parts[i].clone());
        }
        i += 1;
    }
    assert(views(parts@).len() == parts@.len());
    assert(views(out@) =~= search_directories(path@));
    out
}

/// What is known of a candidate for a program.
pub struct CandidateFacts {
    /// Whether its directory is the directory of the shims.
    pub in_shim_dir: bool,
    /// Whether it exists and is a plain file, with its mode.
    pub file_mode: Option<u32>,
    /// Its content, where it can be read.
    pub content: Option<Vec<u8>>,
}

/// Whether a candidate is a program that can stand for an editor.
pub open spec fn is_usable(facts: CandidateFacts) -> bool {
    &&& !facts.in_shim_dir
    &&& facts.file_mode matches Some(mode) && mode & 0o111 != 0
    &&& !(facts.content matches Some(c) && is_shim_content(c@))
}

/// The first usable candidate from `from` on.
pub open spec fn first_usable(facts: Seq<CandidateFacts>, from: int) -> Option<int>
    decreases facts.len() - from,
{
    if from < 0 || from >= facts.len() {
        None
    } else if is_usable(facts[from]) {
        Some(from)
    } else {
        first_usable(facts, from + 1)
    }
}

/// What is run as an editor is executable, is no shim and does not stand among the shims, so that
/// a shim never runs itself; no directory before its own has such a program.
pub proof fn law_editor_is_never_a_shim(facts: Seq<CandidateFacts>, from: int)
    requires
        0 <= from <= facts.len(),
    ensures
        match first_usable(facts, from) {
            Some(i) => from <= i < facts.len() && is_usable(facts[i]) && forall|j: int|
                from <= j < i ==> !is_usable(#[trigger] facts[j]),
            None => forall|j: int| from <= j < facts.len() ==> !is_usable(#[trigger] facts[j]),
        },
    decreases facts.len() - from,
{
    if from < facts.len() && !is_usable(facts[from]) {
        law_editor_is_never_a_shim(facts, from + 1);
    }
}

/// The program that a name stands for on a search path: the first executable file that is neither
/// in the shim directory nor a shim. `facts` tells of the candidate in each directory.
pub fn resolve_executable(name: &str, path: &str, facts: &Vec<CandidateFacts>) -> (r: Result<
    String,
    Failure,
>)
    requires
        facts@.len() == search_directories(path@).len(),
    ensures
        match first_usable(facts@, 0) {
            Some(i) => r matches Ok(p) && p@ == joined_path(search_directories(path@)[i], name@),
            None => r matches Err(f) && f@ == fails(
                FailureKind::NotFound,
                "bedit: "@ + name@ + " is not installed"@,
            ),
        },
{
    let directories: Vec<String> = split_search_path(path);
    let mut i: usize = 0;
    while i < directories.len()
        invariant
            i <= directories.len(),
            directories.len() == facts.len(),
            views(directories@) == search_directories(path@),
            first_usable(facts@, 0) == first_usable(facts@, i as int),
        decreases directories.len() - i,
    {
        let f: &CandidateFacts = &facts[i];
        let executable: bool = match f.file_mode {
            Some(mode) => mode & 0o111 != 0,
            None => false,
        };
        let shim: bool = match &f.content {
            Some(c) => is_bedit_shim(c),
            None => false,
        };
        if !f.in_shim_dir && executable && !shim {
            assert(search_directories(path@)[i as int] == directories@[i as int]@);
            return Ok(join(directories[i].as_str(), name));
        }
        i += 1;
    }
    let mut message: String = "bedit: ".to_owned();
    message.append(name);
    message.append(" is not installed");
    Err(Failure { kind: FailureKind::NotFound, message })
}

proof fn lemma_place_of_alias(name: Seq<char>, from: int)
    requires
        0 <= from,
    ensures
        match place_of_alias(name, from) {
            Some(i) => from <= i < registry().len() && registry()[i].name == name,
            None => forall|j: int|
                from <= j < registry().len() ==> (#[trigger] registry()[j]).name != name,
        },
    decreases registry().len() - from,
{
    if from < registry().len() && registry()[from].name != name {
        lemma_place_of_alias(name, from + 1);
    }
}

/// An editor is known by its name: what is known of it is the entry with this name, and nothing is
/// known where no entry has it.
pub proof fn law_alias_has_the_name(name: Seq<char>)
    ensures
        match alias_of(name) {
            Some(a) => a.name == name && registry().contains(a),
            None => forall|j: int|
                0 <= j < registry().len() ==> (#[trigger] registry()[j]).name != name,
        },
{
    lemma_place_of_alias(name, 0);
    match place_of_alias(name, 0) {
        Some(i) => {
            assert(registry()[i] == alias_of(name)->0);
        },
        None => {},
    }
}

/// An editor is supported exactly where it is started and waited for: one that goes its own way, or
/// that hands the file to another, is not. The editors of a family share its wrapper.
pub proof fn law_waiting_editors_are_supported(i: int)
    requires
        0 <= i < registry().len(),
    ensures
        registry()[i].supported <==> registry()[i].strategy == ProcessStrategy::SpawnedEditor,
        registry()[i].family == EditorFamily::Vim ==> registry()[i].named_wrapper == "bvi"@,
        registry()[i].family == EditorFamily::Neovim ==> registry()[i].named_wrapper == "bnvim"@,
        registry()[i].family == EditorFamily::Emacs ==> registry()[i].named_wrapper == "bemacs"@,
        registry()[i].family == EditorFamily::Ed ==> registry()[i].named_wrapper == "bed"@,
{
}

/// The directories of a search path are the texts between its colons, and an empty one is this
/// directory.
pub proof fn law_search_path_is_split_at_colons(directory: Seq<char>, rest: Seq<char>)
    requires
        forall|i: int| 0 <= i < directory.len() ==> #[trigger] directory[i] != ':',
    ensures
        ({
            let first = if directory.len() == 0 {
                seq!['.']
            } else {
                directory
            };
            &&& search_directories(directory) == seq![first]
            &&& search_directories(directory + seq![':'] + rest) == seq![first]
                + search_directories(rest)
        }),
{
    reveal_strlit(":");
    reveal_strlit(".");
    assert("."@ =~= seq!['.']);
    assert(":"@ =~= seq![':']);
    lemma_ends_cleanly(directory, ":"@);
    lemma_pieces_step(directory, ":"@, rest);
    assert(!occurs(directory, ":"@)) by {
        if occurs(directory, ":"@) {
            let i = choose|i: int| occurs_at(directory, ":"@, i);
            assert(directory.subrange(i, i + 1)[0] == ':');
        }
    }
    lemma_pieces_last(directory, ":"@);
    let first = if directory.len() == 0 {
        seq!['.']
    } else {
        directory
    };
    assert(search_directories(directory) =~= seq![first]);
    let longer = directory + seq![':'] + rest;
    let p = pieces(longer, ":"@);
    let q = pieces(rest, ":"@);
    assert(p == seq![directory] + q);
    assert forall|i: int| 0 < i < p.len() implies p[i] == q[i - 1] by {}
    assert(search_directories(longer) =~= seq![first] + search_directories(rest));
}

/// A program counts as the editor where it can be executed, does not lie among the shims, and is not
/// a shim itself. A shim says so at its beginning.
pub proof fn law_usable_editor_is_a_program(facts: CandidateFacts, front: Seq<u8>, end: Seq<u8>)
    ensures
        is_usable(facts) ==> !facts.in_shim_dir && facts.file_mode is Some,
        facts.file_mode matches Some(mode) ==> (mode & 0o111 == 0 ==> !is_usable(facts)),
        facts.file_mode is None ==> !is_usable(facts),
        facts.content matches Some(c) ==> (c@ == front + shim_mark() + end && front.len()
            + shim_mark().len() <= 256 ==> !is_usable(facts)),
        facts.file_mode matches Some(mode) ==> (mode & 0o111 != 0 && !facts.in_shim_dir
            && facts.content is None ==> is_usable(facts)),
        facts.file_mode matches Some(mode) ==> (mode & 0o111 != 0 && !facts.in_shim_dir && (
        facts.content matches Some(c) && c@.len() < shim_mark().len()) ==> is_usable(facts)),
{
    match facts.content {
        Some(c) => {
            if c@ == front + shim_mark() + end && front.len() + shim_mark().len() <= 256 {
                let i = front.len() as int;
                assert(c@.subrange(i, i + shim_mark().len()) =~= shim_mark());
                assert(bytes_at(c@, shim_mark(), i));
            }
        },
        None => {},
    }
}

} // verus!
